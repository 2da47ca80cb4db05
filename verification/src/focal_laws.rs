//! What the derivatives of the focal loss are as numbers, and how they belong together.

use vstd::prelude::*;
use crate::exact::{
    exact, lemma_distribute, lemma_exchange, lemma_minus, lemma_nothing, lemma_regroup, lemma_sign_times, lemma_times_minus, lemma_unit,
};
use crate::loss::{focal_gradient_kernel, focal_hessian_kernel, focal_terms, held};
use crate::smooth::Smooth;

verus! {

/// The steps of a focal derivative that lead to the chance have room; `e` is the exponential
/// of the negated approximation.
pub open spec fn focal_chance_fits(room: spec_fn(real) -> bool, e: real, t: real, alpha: real, least: real) -> bool {
    let one = 1 as real;
    let p = focal_chance(e, least);
    &&& e > 0 as real
    &&& room(2 as real)
    &&& room(one + e)
    &&& room(one / (one + e))
    &&& room(one - least)
    &&& room(2 as real * t)
    &&& room(2 as real * t - one)
    &&& room(one - alpha)
    &&& room(one - p)
    &&& room(one - (one - p))
}

/// The chance of the first class, held away from zero and one.
pub open spec fn focal_chance(e: real, least: real) -> real {
    let p = 1 as real / (1 as real + e);
    if least > p {
        least
    } else if p > 1 as real - least {
        1 as real - least
    } else {
        p
    }
}

/// The steps of a focal gradient behind the chance have room: the class weight `at`, the
/// chance `pt` of the object's own class, the label `y` as a sign, the focusing exponent,
/// the power of the opposite chance, and the logarithm of the chance.
pub open spec fn focal_gradient_fits(
    room: spec_fn(real) -> bool,
    at: real,
    pt: real,
    y: real,
    gamma: real,
    power: real,
    log: real,
) -> bool {
    let one = 1 as real;
    let inner = gamma * pt * log + pt - one;
    &&& room(gamma * pt)
    &&& room(gamma * pt * log)
    &&& room(gamma * pt * log + pt)
    &&& room(inner)
    &&& room(at * y)
    &&& room(at * y * power)
    &&& room(at * y * power * inner)
    &&& room(0 as real - at * y * power * inner)
}

/// What a focal loss reads of an object: the class weight and the chance of the object's own
/// class. An object of the first class has a target of one, any other is of the second.
proof fn lemma_focal_terms<F: Smooth>(val: spec_fn(F) -> real, room: spec_fn(real) -> bool, a: F, t: F, alpha: F)
    requires
        exact(val, room),
        focal_chance_fits(room, val(F::zero_spec().minus_spec(a).exp_spec()), val(t), val(alpha), val(F::chance_spec())),
    ensures
        ({
            let p = focal_chance(val(F::zero_spec().minus_spec(a).exp_spec()), val(F::chance_spec()));
            let (at, pt, y) = focal_terms(a, t, alpha);
            &&& val(y) == 2 as real * val(t) - 1 as real
            &&& val(t) == 1 as real ==> val(at) == val(alpha) && val(pt) == p
            &&& val(t) != 1 as real ==> val(at) == 1 as real - val(alpha) && val(pt) == 1 as real - p
            &&& val(F::one_spec().minus_spec(pt)) == 1 as real - val(pt)
        }),
{
    let one = F::one_spec();
    let e = F::zero_spec().minus_spec(a).exp_spec();
    let s = one.plus_spec(e);
    assert(val(s) == 1 as real + val(e));
    let raw = one.over_spec(s);
    assert(val(raw) == 1 as real / (1 as real + val(e)));
    let top = one.minus_spec(F::chance_spec());
    assert(val(top) == 1 as real - val(F::chance_spec()));
    let p = held(raw, F::chance_spec(), top);
    assert(val(p) == focal_chance(val(e), val(F::chance_spec())));
    let two = one.plus_spec(one);
    assert(val(two) == 2 as real);
    let tt = two.times_spec(t);
    assert(val(tt) == 2 as real * val(t));
    let y = tt.minus_spec(one);
    assert(val(y) == 2 as real * val(t) - 1 as real);
    let q = one.minus_spec(p);
    assert(val(q) == 1 as real - val(p));
    assert(val(one.minus_spec(q)) == 1 as real - val(q));
    assert(val(one.minus_spec(alpha)) == 1 as real - val(alpha));
    assert(t.is_number() && one.is_number());
}

/// A focal gradient of an object of the first class is the class weight times the power of
/// the opposite chance, times what is left of the chance less its focused logarithm; of an
/// object of the second class it is that of the opposite class, negated; between the two it
/// is scaled by how far the label leans. It pushes towards the object's own class, and
/// without focusing it is the weighted distance to that class.
pub proof fn law_focal_gradient<F: Smooth>(
    val: spec_fn(F) -> real,
    room: spec_fn(real) -> bool,
    approx: &[F],
    target: &[F],
    alpha: F,
    gamma: F,
    g: Vec<F>,
    i: int,
    own: F,
)
    requires
        exact(val, room),
        approx@.len() <= target@.len(),
        call_ensures(focal_gradient_kernel::<F>, (approx, target, alpha, gamma), g),
        0 <= i < approx@.len(),
        ({
            let e = val(F::zero_spec().minus_spec(approx@[i]).exp_spec());
            let p = focal_chance(e, val(F::chance_spec()));
            let first = val(target@[i]) == 1 as real;
            let at = if first { val(alpha) } else { 1 as real - val(alpha) };
            let y = 2 as real * val(target@[i]) - 1 as real;
            let power = val(F::one_spec().minus_spec(own).powf_spec(gamma));
            &&& focal_chance_fits(room, e, val(target@[i]), val(alpha), val(F::chance_spec()))
            &&& val(own) == if first { p } else { 1 as real - p }
            &&& focal_gradient_fits(room, at, val(own), y, val(gamma), power, val(own.ln_spec()))
        }),
    ensures
        ({
            let power = val(F::one_spec().minus_spec(own).powf_spec(gamma));
            let push = power * (1 as real - val(own) - val(gamma) * val(own) * val(own.ln_spec()));
            let at = if val(target@[i]) == 1 as real { val(alpha) } else { 1 as real - val(alpha) };
            &&& val(g@[i]) == (2 as real * val(target@[i]) - 1 as real) * (at * push)
            &&& val(target@[i]) == 1 as real ==> val(g@[i]) == val(alpha) * push
            &&& val(target@[i]) == 0 as real ==> val(g@[i]) == -((1 as real - val(alpha)) * push)
        }),
        (val(target@[i]) == 0 as real || val(target@[i]) == 1 as real) && val(gamma) == 0 as real && val(F::one_spec().minus_spec(own).powf_spec(gamma)) == 1 as real ==> val(g@[i]) == if val(
            target@[i],
        ) == 1 as real {
            val(alpha) * (1 as real - val(own))
        } else {
            -((1 as real - val(alpha)) * (1 as real - val(own)))
        },
{
    let (a, t) = (approx@[i], target@[i]);
    let one = F::one_spec();
    let zero = F::zero_spec();
    lemma_focal_terms(val, room, a, t, alpha);
    let (at, pt, y) = focal_terms(a, t, alpha);
    assert(val(pt) == val(own));
    assert(pt == own);
    let factor = one.minus_spec(pt).powf_spec(gamma);
    let gp = gamma.times_spec(pt);
    assert(val(gp) == val(gamma) * val(pt));
    let gpl = gp.times_spec(pt.ln_spec());
    assert(val(gpl) == val(gamma) * val(pt) * val(pt.ln_spec()));
    let sum = gpl.plus_spec(pt);
    assert(val(sum) == val(gamma) * val(pt) * val(pt.ln_spec()) + val(pt));
    let inner = sum.minus_spec(one);
    let n = val(inner);
    assert(n == val(gamma) * val(pt) * val(pt.ln_spec()) + val(pt) - 1 as real);
    let ay = at.times_spec(y);
    assert(val(ay) == val(at) * val(y));
    let ayf = ay.times_spec(factor);
    assert(val(ayf) == val(at) * val(y) * val(factor));
    let whole = ayf.times_spec(inner);
    assert(val(whole) == val(at) * val(y) * val(factor) * n);
    assert(g@[i] == zero.minus_spec(whole));
    let (w, s, f) = (val(at), val(y), val(factor));
    let push = f * (1 as real - val(own) - val(gamma) * val(own) * val(own.ln_spec()));
    assert(push == f * (-n));
    lemma_signed_push(w, s, f, n);
    lemma_unit(w * push);
    lemma_sign_times(1 as real, w * push);
    if val(gamma) == 0 as real {
        lemma_nothing(val(pt), val(pt.ln_spec()));
        lemma_unit(1 as real - val(own));
    }
}

proof fn lemma_signed_push(w: real, s: real, f: real, n: real)
    ensures
        0 as real - w * s * f * n == s * (w * (f * (-n))),
{
    lemma_regroup(w, s, f);
    lemma_regroup(s, w * f, n);
    lemma_regroup(w, f, n);
    lemma_times_minus(f, n);
    lemma_times_minus(w, f * n);
    lemma_times_minus(s, w * (f * n));
}

/// The steps of a focal second derivative behind the chance have room; `lower` is the power
/// of the opposite chance with the exponent lowered by one.
pub open spec fn focal_hessian_fits(
    room: spec_fn(real) -> bool,
    at: real,
    pt: real,
    y: real,
    gamma: real,
    power: real,
    lower: real,
    log: real,
) -> bool {
    let zero = 0 as real;
    let one = 1 as real;
    let u = at * y * power;
    let du = (zero - at) * y * gamma * lower;
    let v = gamma * pt * log + pt - one;
    let dv = gamma * log + gamma + one;
    let inner = (du * v + u * dv) * y;
    &&& room(at * y)
    &&& room(u)
    &&& room(zero - at)
    &&& room((zero - at) * y)
    &&& room((zero - at) * y * gamma)
    &&& room(gamma - one)
    &&& room(du)
    &&& room(gamma * pt)
    &&& room(gamma * pt * log)
    &&& room(gamma * pt * log + pt)
    &&& room(v)
    &&& room(gamma * log)
    &&& room(gamma * log + gamma)
    &&& room(dv)
    &&& room(du * v)
    &&& room(u * dv)
    &&& room(du * v + u * dv)
    &&& room(inner)
    &&& room(pt * (one - pt))
    &&& room(inner * (pt * (one - pt)))
    &&& room(zero - inner * (pt * (one - pt)))
}

/// A focal gradient and its second derivative belong together: where lowering the exponent
/// by one divides a power by its base, the second derivative makes up, with the gradient
/// scaled by exponent, label and chance, the negated product of class weight, chance,
/// opposite chance, power, and the focused logarithm with exponent and one.
pub proof fn law_focal_hessian<F: Smooth>(
    val: spec_fn(F) -> real,
    room: spec_fn(real) -> bool,
    approx: &[F],
    target: &[F],
    alpha: F,
    gamma: F,
    g: Vec<F>,
    h: Vec<F>,
    i: int,
    own: F,
)
    requires
        exact(val, room),
        approx@.len() <= target@.len(),
        call_ensures(focal_gradient_kernel::<F>, (approx, target, alpha, gamma), g),
        call_ensures(focal_hessian_kernel::<F>, (approx, target, alpha, gamma), h),
        0 <= i < approx@.len(),
        val(target@[i]) == 0 as real || val(target@[i]) == 1 as real,
        ({
            let e = val(F::zero_spec().minus_spec(approx@[i]).exp_spec());
            let p = focal_chance(e, val(F::chance_spec()));
            let first = val(target@[i]) == 1 as real;
            let at = if first { val(alpha) } else { 1 as real - val(alpha) };
            let y = if first { 1 as real } else { -1 as real };
            let rest = F::one_spec().minus_spec(own);
            let power = val(rest.powf_spec(gamma));
            let lower = val(rest.powf_spec(gamma.minus_spec(F::one_spec())));
            &&& focal_chance_fits(room, e, val(target@[i]), val(alpha), val(F::chance_spec()))
            &&& val(own) == if first { p } else { 1 as real - p }
            &&& focal_gradient_fits(room, at, val(own), y, val(gamma), power, val(own.ln_spec()))
            &&& focal_hessian_fits(room, at, val(own), y, val(gamma), power, lower, val(own.ln_spec()))
            &&& power == (1 as real - val(own)) * lower
        }),
    ensures
        ({
            let first = val(target@[i]) == 1 as real;
            let at = if first { val(alpha) } else { 1 as real - val(alpha) };
            let y = if first { 1 as real } else { -1 as real };
            let power = val(F::one_spec().minus_spec(own).powf_spec(gamma));
            let c = val(own);
            let dv = val(gamma) * val(own.ln_spec()) + val(gamma) + 1 as real;
            val(h@[i]) + val(gamma) * y * c * val(g@[i]) == -(at * (c * (1 as real - c)) * (power * dv))
        }),
{
    let (a, t) = (approx@[i], target@[i]);
    let one = F::one_spec();
    let zero = F::zero_spec();
    law_focal_gradient(val, room, approx, target, alpha, gamma, g, i, own);
    lemma_focal_terms(val, room, a, t, alpha);
    let (at, pt, y) = focal_terms(a, t, alpha);
    assert(val(pt) == val(own));
    assert(pt == own);
    let rest = one.minus_spec(pt);
    let ln = pt.ln_spec();
    let (w, c, s, gm, l) = (val(at), val(pt), val(y), val(gamma), val(ln));
    let (pw, lo) = (val(rest.powf_spec(gamma)), val(rest.powf_spec(gamma.minus_spec(one))));
    assert(val(at.times_spec(y)) == w * s);
    let u = at.times_spec(y).times_spec(rest.powf_spec(gamma));
    assert(val(u) == w * s * pw);
    let na = zero.minus_spec(at);
    assert(val(na) == 0 as real - w);
    let nay = na.times_spec(y);
    assert(val(nay) == (0 as real - w) * s);
    let nayg = nay.times_spec(gamma);
    assert(val(nayg) == (0 as real - w) * s * gm);
    let du = nayg.times_spec(rest.powf_spec(gamma.minus_spec(one)));
    assert(val(du) == (0 as real - w) * s * gm * lo);
    let gp = gamma.times_spec(pt);
    assert(val(gp) == gm * c);
    let gpl = gp.times_spec(ln);
    assert(val(gpl) == gm * c * l);
    let sum = gpl.plus_spec(pt);
    assert(val(sum) == gm * c * l + c);
    let v = sum.minus_spec(one);
    assert(val(v) == gm * c * l + c - 1 as real);
    let gl = gamma.times_spec(ln);
    assert(val(gl) == gm * l);
    let glg = gl.plus_spec(gamma);
    assert(val(glg) == gm * l + gm);
    let dv = glg.plus_spec(one);
    assert(val(dv) == gm * l + gm + 1 as real);
    let duv = du.times_spec(v);
    assert(val(duv) == val(du) * val(v));
    let udv = u.times_spec(dv);
    assert(val(udv) == val(u) * val(dv));
    let both = duv.plus_spec(udv);
    assert(val(both) == val(du) * val(v) + val(u) * val(dv));
    let inner = both.times_spec(y);
    assert(val(inner) == (val(du) * val(v) + val(u) * val(dv)) * s);
    let cc = pt.times_spec(rest);
    assert(val(cc) == c * (1 as real - c));
    let whole = inner.times_spec(cc);
    assert(val(whole) == val(inner) * (c * (1 as real - c)));
    assert(h@[i] == zero.minus_spec(whole));
    let (hh, gg) = (val(h@[i]), val(g@[i]));
    let (vv, dd, q) = (val(v), val(dv), 1 as real - c);
    let (x, y2) = (val(du) * vv, val(u) * dd);
    let k = w * gm * lo * vv;
    let m = w * pw * dd;
    assert(hh == 0 as real - (x + y2) * s * (c * q));
    assert(1 as real - c - gm * c * l == -vv);
    lemma_focal_signs(w, gm, lo, vv, dd, pw);
    assert((x + y2) * s == m - k);
    lemma_distribute(m, k, c * q);
    lemma_focal_push(w, gm, lo, vv, c, q);
    lemma_focal_rest(w, pw, dd, c, q);
    assert(gm * s * c * gg == -(k * (c * q)));
}

/// The two halves of a focal second derivative, for either label.
proof fn lemma_focal_signs(w: real, gm: real, lo: real, v: real, d: real, pw: real)
    ensures
        ({
            let (one, two) = ((0 as real - w) * (1 as real) * gm * lo * v, w * (1 as real) * pw * d);
            (one + two) * (1 as real) == w * pw * d - w * gm * lo * v
        }),
        ({
            let (one, two) = ((0 as real - w) * (-1 as real) * gm * lo * v, w * (-1 as real) * pw * d);
            (one + two) * (-1 as real) == w * pw * d - w * gm * lo * v
        }),
{
    lemma_unit(w);
    lemma_unit(0 as real - w);
    let nw = 0 as real - w;
    lemma_minus(w, gm);
    lemma_minus(w * gm, lo);
    lemma_minus(w * gm * lo, v);
    lemma_minus(w, pw);
    lemma_minus(w * pw, d);
    let (one, two) = (w * gm * lo * v, w * pw * d);
    lemma_unit(two - one);
    lemma_unit(one - two);
}

/// A focal gradient scaled by exponent, label and chance.
proof fn lemma_focal_push(w: real, gm: real, lo: real, v: real, c: real, q: real)
    ensures
        gm * (1 as real) * c * (w * ((q * lo) * (-v))) == -(w * gm * lo * v * (c * q)),
        gm * (-1 as real) * c * (-(w * ((q * lo) * (-v)))) == -(w * gm * lo * v * (c * q)),
{
    lemma_unit(gm);
    lemma_times_minus(q * lo, v);
    lemma_times_minus(w, (q * lo) * v);
    lemma_times_minus(gm * c, w * ((q * lo) * v));
    lemma_minus(gm, c);
    lemma_minus(gm * c, w * ((q * lo) * v));
    lemma_shuffle(gm, c, w, q, lo, v);
}

proof fn lemma_shuffle(gm: real, c: real, w: real, q: real, lo: real, v: real)
    ensures
        gm * c * (w * ((q * lo) * v)) == w * gm * lo * v * (c * q),
{
    let x = lo * v;
    lemma_regroup(q, lo, v);
    lemma_regroup(w, q, x);
    lemma_exchange(gm, c, w * x, q);
    lemma_regroup(gm, w, x);
    lemma_regroup(w, gm, x);
    lemma_regroup(w * gm, lo, v);
}

proof fn lemma_focal_rest(w: real, pw: real, d: real, c: real, q: real)
    ensures
        w * pw * d * (c * q) == w * (c * q) * (pw * d),
{
    assert(w * pw * d * (c * q) == w * (c * q) * (pw * d)) by (nonlinear_arith);
}

} // verus!
