//! What the derivatives of the losses are as numbers, and how a gradient and its second
//! derivative belong together.

use vstd::prelude::*;
use crate::channel::Real;
use crate::coverage::DerBinaryKernel;
use crate::exact::{
    distance, exact, exact_smooth, lemma_cancel, lemma_exchange, lemma_minus, lemma_negated, lemma_nothing,
    lemma_product_square, lemma_ratio, lemma_regroup, lemma_sign_times, lemma_square,
};
use crate::loss::{
    der_magnitudes, expectile_gradient_kernel, expectile_hessian_kernel, host_der1, huber_gradient_kernel,
    huber_hessian_kernel, logcosh_gradient_kernel, logcosh_hessian_kernel, logloss_gradient_kernel,
    logloss_hessian_kernel, lq_gradient_kernel, lq_hessian_kernel, mape_gradient_kernel, mvs_lambda_from_der,
    poisson_gradient_kernel, poisson_hessian_kernel, quantile_gradient_kernel, sign_of, tweedie_gradient_kernel,
    tweedie_hessian_kernel,
};
use crate::session::magnitude_or_one;
use crate::smooth::Smooth;

verus! {

/// A logistic gradient is the distance from the target to a chance: the number `p` between
/// zero and one whose odds are the exponential of the approximation. The second derivative
/// is the negated product of that chance and its opposite.
pub proof fn law_logloss<F: Smooth>(
    val: spec_fn(F) -> real,
    room: spec_fn(real) -> bool,
    approx: &[F],
    target: &[F],
    g: Vec<F>,
    h: Vec<F>,
    i: int,
)
    requires
        exact(val, room),
        approx@.len() <= target@.len(),
        call_ensures(logloss_gradient_kernel::<F>, (approx, target), g),
        call_ensures(logloss_hessian_kernel::<F>, (approx,), h),
        0 <= i < approx@.len(),
        ({
            let e = val(approx@[i].exp_spec());
            let one = 1 as real;
            let p = one - one / (one + e);
            &&& e > 0 as real
            &&& room(one + e)
            &&& room(one / (one + e))
            &&& room(p)
            &&& room(val(target@[i]) - p)
            &&& room(one - p)
            &&& room(p * (one - p))
            &&& room(0 as real - p * (one - p))
        }),
    ensures
        ({
            let odds = val(approx@[i].exp_spec());
            let p = val(target@[i]) - val(g@[i]);
            &&& p == odds * (1 as real - p)
            &&& (0 as real) < p < 1 as real
            &&& val(h@[i]) == -(p * (1 as real - p))
            &&& val(h@[i]) < 0 as real
        }),
{
    let e = approx@[i].exp_spec();
    let x = val(e);
    let one = F::one_spec();
    let o = 1 as real;
    let s = one.plus_spec(e);
    assert(val(s) == o + x);
    let inv = one.over_spec(s);
    let y = o / (o + x);
    assert(val(inv) == y);
    let c = one.minus_spec(inv);
    assert(val(c) == o - y);
    assert(g@[i] == target@[i].minus_spec(c));
    let p = o - y;
    assert(y * (o + x) == o) by (nonlinear_arith)
        requires
            y == o / (o + x),
            o == 1 as real,
            x > 0 as real,
    ;
    assert(y > 0 as real && y < o) by (nonlinear_arith)
        requires
            y * (o + x) == o,
            o == 1 as real,
            x > 0 as real,
    ;
    assert(p == x * (o - p)) by (nonlinear_arith)
        requires
            y * (o + x) == o,
            o == 1 as real,
            p == o - y,
    ;
    let q = one.minus_spec(c);
    assert(val(q) == o - p);
    let pq = c.times_spec(q);
    assert(val(pq) == p * (o - p));
    assert(h@[i] == F::zero_spec().minus_spec(pq));
    assert(p * (o - p) > 0 as real) by (nonlinear_arith)
        requires
            (0 as real) < p < o,
    ;
}

/// A quantile gradient is zero where the residual does not reach the dead zone's edge; from
/// there on it is the quantile above the approximation, and the quantile less one
/// elsewhere.
pub proof fn law_quantile<F: Smooth>(
    val: spec_fn(F) -> real,
    room: spec_fn(real) -> bool,
    approx: &[F],
    target: &[F],
    alpha: F,
    delta: F,
    g: Vec<F>,
    i: int,
)
    requires
        exact_smooth(val, room),
        approx@.len() <= target@.len(),
        call_ensures(quantile_gradient_kernel::<F>, (approx, target, alpha, delta), g),
        0 <= i < approx@.len(),
        room(val(target@[i]) - val(approx@[i])),
        room(distance(val(target@[i]) - val(approx@[i]))),
        room(1 as real - val(alpha)),
        room(0 as real - (1 as real - val(alpha))),
    ensures
        ({
            let v = val(target@[i]) - val(approx@[i]);
            &&& distance(v) < val(delta) ==> val(g@[i]) == 0 as real
            &&& distance(v) >= val(delta) && v > 0 as real ==> val(g@[i]) == val(alpha)
            &&& distance(v) >= val(delta) && v <= 0 as real ==> val(g@[i]) == val(alpha) - 1 as real
        }),
{
    let v = target@[i].minus_spec(approx@[i]);
    assert(val(v) == val(target@[i]) - val(approx@[i]));
    assert(val(v.abs_spec()) == distance(val(v)));
    let rest = F::one_spec().minus_spec(alpha);
    assert(val(rest) == 1 as real - val(alpha));
    assert(val(F::zero_spec().minus_spec(rest)) == 0 as real - (1 as real - val(alpha)));
    assert(v.abs_spec().is_number() && delta.is_number());
}

/// The gradient of the log-cosh loss has the sign of the residual, and its second derivative
/// is its square less one, wherever the hyperbolic functions of the residual belong
/// together.
pub proof fn law_logcosh<F: Smooth>(
    val: spec_fn(F) -> real,
    room: spec_fn(real) -> bool,
    approx: &[F],
    target: &[F],
    g: Vec<F>,
    h: Vec<F>,
    i: int,
)
    requires
        exact(val, room),
        approx@.len() <= target@.len(),
        call_ensures(logcosh_gradient_kernel::<F>, (approx, target), g),
        call_ensures(logcosh_hessian_kernel::<F>, (approx, target), h),
        0 <= i < approx@.len(),
        ({
            let gap = approx@[i].minus_spec(target@[i]);
            let (t, c) = (val(gap.tanh_spec()), val(gap.cosh_spec()));
            &&& (1 as real - t * t) * (c * c) == 1 as real
            &&& room(0 as real - t)
            &&& room(c * c)
            &&& room(1 as real / (c * c))
            &&& room(0 as real - 1 as real / (c * c))
            &&& room(val(approx@[i]) - val(target@[i]))
            &&& t > 0 as real <==> val(gap) > 0 as real
            &&& t < 0 as real <==> val(gap) < 0 as real
        }),
    ensures
        val(h@[i]) == val(g@[i]) * val(g@[i]) - 1 as real,
        val(h@[i]) < 0 as real,
        val(g@[i]) > 0 as real <==> val(target@[i]) > val(approx@[i]),
        val(g@[i]) < 0 as real <==> val(target@[i]) < val(approx@[i]),
        val(g@[i]) == -val(approx@[i].minus_spec(target@[i]).tanh_spec()),
{
    let gap = approx@[i].minus_spec(target@[i]);
    assert(val(gap) == val(approx@[i]) - val(target@[i]));
    let (t, c) = (val(gap.tanh_spec()), val(gap.cosh_spec()));
    let cc = gap.cosh_spec().times_spec(gap.cosh_spec());
    let sq = c * c;
    assert(val(cc) == sq);
    lemma_square(c);
    lemma_square(t);
    assert(sq != 0 as real) by {
        if sq == 0 as real {
            lemma_nothing(1 as real - t * t, 1 as real);
        }
    }
    let inv = F::one_spec().over_spec(cc);
    let y = 1 as real / sq;
    assert(val(inv) == y);
    assert(h@[i] == F::zero_spec().minus_spec(inv));
    assert(g@[i] == F::zero_spec().minus_spec(gap.tanh_spec()));
    let tt = t * t;
    lemma_ratio(1 as real, sq);
    lemma_cancel(y, 1 as real - tt, sq);
    assert(y > 0 as real) by (nonlinear_arith)
        requires
            y * sq == 1 as real,
            sq > 0 as real,
    ;
    let gv = val(g@[i]);
    assert(gv == -t);
    lemma_negated(t);
}

/// The gradient of a power loss is the exponent times the lowered power of the distance, on
/// the side of the residual; and it belongs to its second derivative: wherever lowering an
/// exponent by one divides a power by its base, the second derivative times the residual is
/// the negated lowered exponent times the gradient, for every exponent.
pub proof fn law_power_loss<F: Smooth>(
    val: spec_fn(F) -> real,
    room: spec_fn(real) -> bool,
    approx: &[F],
    target: &[F],
    q: F,
    g: Vec<F>,
    h: Vec<F>,
    i: int,
)
    requires
        exact_smooth(val, room),
        approx@.len() <= target@.len(),
        call_ensures(lq_gradient_kernel::<F>, (approx, target, q), g),
        call_ensures(lq_hessian_kernel::<F>, (approx, target, q), h),
        0 <= i < approx@.len(),
        val(target@[i]) != val(approx@[i]),
        ({
            let gap = target@[i].minus_spec(approx@[i]).abs_spec();
            let one = F::one_spec();
            let x = val(q);
            let sign = if val(target@[i]) > val(approx@[i]) { 1 as real } else { -1 as real };
            let first = val(gap.powf_spec(q.minus_spec(one)));
            let second = val(gap.powf_spec(q.minus_spec(one.plus_spec(one))));
            &&& room(val(target@[i]) - val(approx@[i]))
            &&& room(val(approx@[i]) - val(target@[i]))
            &&& room(-1 as real)
            &&& room(x - 1 as real)
            &&& room(x * sign)
            &&& room(x * sign * first)
            &&& room(0 as real - x)
            &&& room((0 as real - x) * (x - 1 as real))
            &&& room((0 as real - x) * (x - 1 as real) * second)
            &&& first == val(gap) * second
        }),
    ensures
        val(h@[i]) * (val(target@[i]) - val(approx@[i])) == -(val(q) - 1 as real) * val(g@[i]),
        val(g@[i]) == if val(target@[i]) > val(approx@[i]) {
            val(q) * val(target@[i].minus_spec(approx@[i]).abs_spec().powf_spec(q.minus_spec(F::one_spec())))
        } else {
            -(val(q) * val(target@[i].minus_spec(approx@[i]).abs_spec().powf_spec(q.minus_spec(F::one_spec()))))
        },
{
    let (a, t) = (approx@[i], target@[i]);
    let one = F::one_spec();
    let zero = F::zero_spec();
    let fwd = t.minus_spec(a);
    let back = a.minus_spec(t);
    let v = val(t) - val(a);
    assert(val(fwd) == v);
    assert(val(back) == -v);
    assert(distance(v) == v || distance(v) == -v);
    assert(room(distance(v)));
    assert(val(fwd.abs_spec()) == distance(v));
    assert(val(back.abs_spec()) == distance(v));
    assert(fwd.abs_spec() == back.abs_spec());
    let gap = fwd.abs_spec();
    let down = q.minus_spec(one);
    let x = val(q);
    assert(val(down) == x - 1 as real);
    let minus_one = zero.minus_spec(one);
    assert(val(minus_one) == -1 as real);
    let sign = sign_of(fwd);
    let s = val(sign);
    assert(s == if v > 0 as real { 1 as real } else { -1 as real });
    let first = val(gap.powf_spec(down));
    let qs = q.times_spec(sign);
    assert(val(qs) == x * s);
    assert(g@[i] == qs.times_spec(gap.powf_spec(down)));
    let gv = val(g@[i]);
    assert(gv == x * s * first);
    let second = val(gap.powf_spec(q.minus_spec(one.plus_spec(one))));
    let nq = zero.minus_spec(q);
    assert(val(nq) == 0 as real - x);
    let nqd = nq.times_spec(down);
    assert(val(nqd) == (0 as real - x) * (x - 1 as real));
    let hv = val(h@[i]);
    assert(h@[i] == nqd.times_spec(gap.powf_spec(q.minus_spec(one.plus_spec(one)))));
    assert(hv == (0 as real - x) * (x - 1 as real) * second);
    let d = distance(v);
    lemma_sign_times(1 as real, d);
    assert(v == s * d);
    let m = x - 1 as real;
    lemma_power_number(x, m, s, d, second);
    lemma_sign_times(x, first);
}

/// A Huber gradient is the residual, held to the threshold on either side; its second
/// derivative is minus one exactly where nothing is held.
pub proof fn law_huber<F: Smooth>(
    val: spec_fn(F) -> real,
    room: spec_fn(real) -> bool,
    approx: &[F],
    target: &[F],
    delta: F,
    g: Vec<F>,
    h: Vec<F>,
    i: int,
)
    requires
        exact_smooth(val, room),
        approx@.len() <= target@.len(),
        call_ensures(huber_gradient_kernel::<F>, (approx, target, delta), g),
        call_ensures(huber_hessian_kernel::<F>, (approx, target, delta), h),
        0 <= i < approx@.len(),
        room(val(target@[i]) - val(approx@[i])),
        room(distance(val(target@[i]) - val(approx@[i]))),
        room(0 as real - val(delta)),
        room(0 as real - 1 as real),
    ensures
        ({
            let v = val(target@[i]) - val(approx@[i]);
            &&& distance(v) < val(delta) ==> val(g@[i]) == v && val(h@[i]) == -1 as real
            &&& distance(v) >= val(delta) ==> val(h@[i]) == 0 as real
            &&& distance(v) >= val(delta) && v > 0 as real ==> val(g@[i]) == val(delta)
            &&& distance(v) >= val(delta) && v <= 0 as real ==> val(g@[i]) == -val(delta)
            &&& val(delta) >= 0 as real ==> distance(val(g@[i])) <= val(delta) && distance(val(g@[i])) <= distance(v)
        }),
{
    let v = target@[i].minus_spec(approx@[i]);
    assert(val(v) == val(target@[i]) - val(approx@[i]));
    assert(val(v.abs_spec()) == distance(val(v)));
    assert(val(F::zero_spec().minus_spec(delta)) == 0 as real - val(delta));
    assert(val(F::zero_spec().minus_spec(F::one_spec())) == 0 as real - 1 as real);
    assert(v.abs_spec().is_number() && delta.is_number());
}

/// An expectile gradient is twice the residual times the expectile above the approximation,
/// and times its opposite below; it is the negated second derivative times the residual.
pub proof fn law_expectile<F: Smooth>(
    val: spec_fn(F) -> real,
    room: spec_fn(real) -> bool,
    approx: &[F],
    target: &[F],
    alpha: F,
    g: Vec<F>,
    h: Vec<F>,
    i: int,
)
    requires
        exact(val, room),
        approx@.len() <= target@.len(),
        call_ensures(expectile_gradient_kernel::<F>, (approx, target, alpha), g),
        call_ensures(expectile_hessian_kernel::<F>, (approx, target, alpha), h),
        0 <= i < approx@.len(),
        ({
            let v = val(target@[i]) - val(approx@[i]);
            let two = 2 as real;
            let side = if v > 0 as real { val(alpha) } else { 1 as real - val(alpha) };
            &&& room(v)
            &&& room(two)
            &&& room(0 as real - two)
            &&& room(side)
            &&& room(two * side)
            &&& room(two * side * v)
            &&& room((0 as real - two) * side)
        }),
    ensures
        ({
            let v = val(target@[i]) - val(approx@[i]);
            &&& v > 0 as real ==> val(g@[i]) == 2 as real * v * val(alpha)
            &&& v <= 0 as real ==> val(g@[i]) == 2 as real * v * (1 as real - val(alpha))
            &&& val(h@[i]) * v == -val(g@[i])
            &&& v > 0 as real ==> val(h@[i]) == -(2 as real * val(alpha))
            &&& v <= 0 as real ==> val(h@[i]) == -(2 as real * (1 as real - val(alpha)))
        }),
{
    let vv = target@[i].minus_spec(approx@[i]);
    let v = val(target@[i]) - val(approx@[i]);
    assert(val(vv) == v);
    let one = F::one_spec();
    let two = one.plus_spec(one);
    assert(val(two) == 2 as real);
    let ntwo = F::zero_spec().minus_spec(two);
    assert(val(ntwo) == 0 as real - 2 as real);
    let side = if v > 0 as real { alpha } else { one.minus_spec(alpha) };
    let s = val(side);
    assert(s == if v > 0 as real { val(alpha) } else { 1 as real - val(alpha) });
    let ts = two.times_spec(side);
    assert(val(ts) == 2 as real * s);
    assert(g@[i] == ts.times_spec(vv));
    assert(h@[i] == ntwo.times_spec(side));
    let (gv, hv) = (val(g@[i]), val(h@[i]));
    assert(gv == 2 as real * s * v);
    assert(hv == (0 as real - 2 as real) * s);
    lemma_parabola_number(s, v);
}

/// A Poisson gradient is the distance from the exponential of the approximation to the
/// target; the second derivative is the gradient less the target.
pub proof fn law_poisson<F: Smooth>(
    val: spec_fn(F) -> real,
    room: spec_fn(real) -> bool,
    approx: &[F],
    target: &[F],
    g: Vec<F>,
    h: Vec<F>,
    i: int,
)
    requires
        exact(val, room),
        approx@.len() <= target@.len(),
        call_ensures(poisson_gradient_kernel::<F>, (approx, target), g),
        call_ensures(poisson_hessian_kernel::<F>, (approx,), h),
        0 <= i < approx@.len(),
        room(val(target@[i]) - val(approx@[i].exp_spec())),
        room(0 as real - val(approx@[i].exp_spec())),
    ensures
        val(g@[i]) + val(approx@[i].exp_spec()) == val(target@[i]),
        val(h@[i]) == val(g@[i]) - val(target@[i]),
        val(h@[i]) == -val(approx@[i].exp_spec()),
{
}

/// A Tweedie gradient is the distance from the exponential of the approximation to the
/// target, scaled by the exponential that the variance power leaves of one; the second
/// derivative is the gradient, scaled the same way as the exponent, less the larger
/// exponential. The gradient has the sign of the distance.
pub proof fn law_tweedie<F: Smooth>(
    val: spec_fn(F) -> real,
    room: spec_fn(real) -> bool,
    approx: &[F],
    target: &[F],
    power: F,
    g: Vec<F>,
    h: Vec<F>,
    i: int,
)
    requires
        exact(val, room),
        approx@.len() <= target@.len(),
        call_ensures(tweedie_gradient_kernel::<F>, (approx, target, power), g),
        call_ensures(tweedie_hessian_kernel::<F>, (approx, target, power), h),
        0 <= i < approx@.len(),
        ({
            let (a, t) = (approx@[i], val(target@[i]));
            let one = F::one_spec();
            let two = one.plus_spec(one);
            let d1 = one.minus_spec(power);
            let d2 = two.minus_spec(power);
            let (e1, e2) = (val(d1.times_spec(a).exp_spec()), val(d2.times_spec(a).exp_spec()));
            let x = val(power);
            &&& room(2 as real)
            &&& room(1 as real - x)
            &&& room(2 as real - x)
            &&& room(t * e1)
            &&& room(t * e1 - e2)
            &&& room(t * (1 as real - x))
            &&& room(t * (1 as real - x) * e1)
            &&& room((2 as real - x) * e2)
            &&& room(t * (1 as real - x) * e1 - (2 as real - x) * e2)
            &&& e1 > 0 as real
            &&& e2 == e1 * val(a.exp_spec())
        }),
    ensures
        ({
            let a = approx@[i];
            let one = F::one_spec();
            let e1 = val(one.minus_spec(power).times_spec(a).exp_spec());
            let e = val(a.exp_spec());
            &&& val(g@[i]) == e1 * (val(target@[i]) - e)
            &&& val(h@[i]) == (1 as real - val(power)) * val(g@[i]) - e1 * e
            &&& val(g@[i]) > 0 as real <==> val(target@[i]) > e
            &&& val(g@[i]) < 0 as real <==> val(target@[i]) < e
        }),
{
    let (ae, te) = (approx@[i], target@[i]);
    let one = F::one_spec();
    let two = one.plus_spec(one);
    assert(val(two) == 2 as real);
    let d1 = one.minus_spec(power);
    let d2 = two.minus_spec(power);
    let x = val(power);
    assert(val(d1) == 1 as real - x);
    assert(val(d2) == 2 as real - x);
    let x1 = d1.times_spec(ae).exp_spec();
    let x2 = d2.times_spec(ae).exp_spec();
    let (t, e1, e2, e) = (val(te), val(x1), val(x2), val(ae.exp_spec()));
    let first = te.times_spec(x1);
    assert(val(first) == t * e1);
    assert(g@[i] == first.minus_spec(x2));
    let gv = val(g@[i]);
    assert(gv == t * e1 - e2);
    let td = te.times_spec(d1);
    assert(val(td) == t * (1 as real - x));
    let tde = td.times_spec(x1);
    assert(val(tde) == t * (1 as real - x) * e1);
    let de = d2.times_spec(x2);
    assert(val(de) == (2 as real - x) * e2);
    assert(h@[i] == tde.minus_spec(de));
    let hv = val(h@[i]);
    assert(hv == t * (1 as real - x) * e1 - (2 as real - x) * e2);
    let m = 1 as real - x;
    lemma_tweedie_number(t, e1, e, m);
    assert(2 as real - x == m + 1 as real);
    let d = t - e;
    assert((gv > 0 as real <==> d > 0 as real) && (gv < 0 as real <==> d < 0 as real)) by (nonlinear_arith)
        requires
            gv == e1 * d,
            e1 > 0 as real,
    ;
}

/// A percentage-error gradient times the target's magnitude, or one where that is less, is
/// one above the approximation and minus one elsewhere.
pub proof fn law_mape<F: Smooth>(
    val: spec_fn(F) -> real,
    room: spec_fn(real) -> bool,
    approx: &[F],
    target: &[F],
    g: Vec<F>,
    i: int,
)
    requires
        exact_smooth(val, room),
        approx@.len() <= target@.len(),
        call_ensures(mape_gradient_kernel::<F>, (approx, target), g),
        0 <= i < approx@.len(),
        ({
            let t = val(target@[i]);
            let v = t - val(approx@[i]);
            let sign = if v > 0 as real { 1 as real } else { -1 as real };
            let scale = if distance(t) > 1 as real { distance(t) } else { 1 as real };
            &&& room(v)
            &&& room(-1 as real)
            &&& room(-t)
            &&& room(sign / scale)
        }),
    ensures
        ({
            let t = val(target@[i]);
            let scale = if distance(t) > 1 as real { distance(t) } else { 1 as real };
            &&& t > val(approx@[i]) ==> val(g@[i]) * scale == 1 as real
            &&& t <= val(approx@[i]) ==> val(g@[i]) * scale == -1 as real
        }),
{
    let te = target@[i];
    let v = te.minus_spec(approx@[i]);
    assert(val(v) == val(te) - val(approx@[i]));
    assert(val(F::zero_spec().minus_spec(F::one_spec())) == -1 as real);
    let sign = sign_of(v);
    let s = val(sign);
    assert(s == if val(v) > 0 as real { 1 as real } else { -1 as real });
    assert(val(te.negated_spec()) == -val(te));
    let m = magnitude_or_one(te);
    let t = val(te);
    let scale = if distance(t) > 1 as real { distance(t) } else { 1 as real };
    assert(val(m) == scale);
    assert(g@[i] == sign.over_spec(m));
    let y = s / scale;
    assert(val(g@[i]) == y);
    assert(y * scale == s) by (nonlinear_arith)
        requires
            y == s / scale,
            scale >= 1 as real,
    ;
}

/// The derivative that a sampled tree starts from is that of the loss: the residual of a
/// squared error, and for the logistic loss the distance from the target to the chance whose
/// odds against are the exponential of the negated approximation. Where that exponential is
/// the inverse of the exponential of the approximation, it is the logistic gradient itself.
pub proof fn law_first_derivatives<F: Smooth>(
    val: spec_fn(F) -> real,
    room: spec_fn(real) -> bool,
    approx: &[F],
    target: &[F],
    plain: Vec<F>,
    logistic: Vec<F>,
    i: int,
)
    requires
        exact(val, room),
        call_ensures(host_der1::<F>, (DerBinaryKernel::RmseGradient, approx, target), plain),
        call_ensures(host_der1::<F>, (DerBinaryKernel::LoglossGradient, approx, target), logistic),
        0 <= i < approx@.len(),
        i < target@.len(),
        ({
            let e = val(approx@[i].negated_spec().exp_spec());
            let one = 1 as real;
            &&& e > 0 as real
            &&& room(val(target@[i]) - val(approx@[i]))
            &&& room(one + e)
            &&& room(one / (one + e))
            &&& room(val(target@[i]) - one / (one + e))
        }),
    ensures
        val(plain@[i]) + val(approx@[i]) == val(target@[i]),
        ({
            let p = val(target@[i]) - val(logistic@[i]);
            let e = val(approx@[i].negated_spec().exp_spec());
            &&& (0 as real) < p < 1 as real
            &&& p * e == 1 as real - p
            &&& e * val(approx@[i].exp_spec()) == 1 as real ==> p == val(approx@[i].exp_spec()) * (1 as real - p)
        }),
{
    let ex = approx@[i].negated_spec().exp_spec();
    let e = val(ex);
    let one = F::one_spec();
    let o = 1 as real;
    let s = one.plus_spec(ex);
    assert(val(s) == o + e);
    let inv = one.over_spec(s);
    let p = o / (o + e);
    assert(val(inv) == p);
    assert(logistic@[i] == target@[i].minus_spec(inv));
    assert(p * (o + e) == o) by (nonlinear_arith)
        requires
            p == o / (o + e),
            o == 1 as real,
            e > 0 as real,
    ;
    assert(p > 0 as real && p < o && p * e == o - p) by (nonlinear_arith)
        requires
            p * (o + e) == o,
            o == 1 as real,
            e > 0 as real,
    ;
    let x = val(approx@[i].exp_spec());
    if e * x == o {
        lemma_inverse(p, e, x);
    }
}

/// The regularisation of a variance-reducing sampler times the square of the count is the
/// square of the summed magnitudes; without derivatives it is zero.
pub proof fn law_sampler_regularisation<F: Real>(
    val: spec_fn(F) -> real,
    room: spec_fn(real) -> bool,
    magnitude_sum: F,
    n: usize,
    r: F,
)
    requires
        exact(val, room),
        call_ensures(mvs_lambda_from_der::<F>, (magnitude_sum, n), r),
        n > 0 ==> {
            let mean = val(magnitude_sum) / (n as real);
            val(F::count_spec(n)) == n as real && room(mean) && room(mean * mean)
        },
    ensures
        n == 0 ==> val(r) == 0 as real,
        n > 0 ==> val(r) * ((n as real) * (n as real)) == val(magnitude_sum) * val(magnitude_sum),
{
    if n > 0 {
        let c = n as real;
        let s = val(magnitude_sum);
        let mean = s / c;
        let m = magnitude_sum.over_spec(F::count_spec(n));
        assert(c > 0 as real);
        assert(val(m) == mean);
        assert(val(r) == mean * mean);
        assert(mean * c == s) by (nonlinear_arith)
            requires
                mean == s / c,
                c > 0 as real,
        ;
        lemma_product_square(mean, c);
    }
}

/// The magnitude of a derivative is its distance from zero, wherever the root of its square
/// is exact.
pub proof fn law_magnitudes<F: Real>(
    val: spec_fn(F) -> real,
    room: spec_fn(real) -> bool,
    derivatives: &[F],
    r: Vec<F>,
    i: int,
)
    requires
        exact(val, room),
        call_ensures(der_magnitudes::<F>, (derivatives,), r),
        0 <= i < derivatives@.len(),
        ({
            let sq = derivatives@[i].times_spec(derivatives@[i]);
            let root = val(sq.sqrt_spec());
            room(val(derivatives@[i]) * val(derivatives@[i])) && root >= 0 as real && root * root == val(sq)
        }),
    ensures
        r@.len() == derivatives@.len(),
        val(r@[i]) == distance(val(derivatives@[i])),
{
    let d = val(derivatives@[i]);
    let root = val(r@[i]);
    let m = distance(d);
    assert(root == m) by (nonlinear_arith)
        requires
            root >= 0 as real,
            m >= 0 as real,
            m == d || m == -d,
            root * root == d * d,
    ;
}

/// The two derivatives of a power loss.
proof fn lemma_power_number(x: real, m: real, s: real, d: real, second: real)
    ensures
        (0 as real - x) * m * second * (s * d) == -m * (x * s * (d * second)),
{
    lemma_minus(x, m);
    lemma_minus(x * m, second);
    lemma_minus(x * m * second, s * d);
    lemma_minus(m, x * s * (d * second));
    lemma_regroup(x * m, second, s * d);
    lemma_regroup(second, s, d);
    lemma_regroup(s, second, d);
    lemma_regroup(second, d, s);
    lemma_exchange(x, m, s, d * second);
    let y = d * second;
    lemma_regroup(m, x * s, y);
    lemma_regroup(x, m, s * y);
    lemma_regroup(x, s, y);
    assert(second * (s * d) == s * y) by (nonlinear_arith)
        requires
            y == d * second,
    ;
}

/// The two derivatives of an expectile loss.
proof fn lemma_parabola_number(s: real, v: real)
    ensures
        2 as real * s * v == 2 as real * v * s,
        (0 as real - 2 as real) * s * v == -(2 as real * s * v),
{
    assert(2 as real * s * v == 2 as real * v * s) by (nonlinear_arith);
    assert((0 as real - 2 as real) * s * v == -(2 as real * s * v)) by (nonlinear_arith);
}

/// The two derivatives of a Tweedie loss.
proof fn lemma_tweedie_number(t: real, e1: real, e: real, m: real)
    ensures
        t * e1 - e1 * e == e1 * (t - e),
        t * m * e1 - (m + 1 as real) * (e1 * e) == m * (t * e1 - e1 * e) - e1 * e,
{
    assert(t * e1 - e1 * e == e1 * (t - e)) by (nonlinear_arith);
    let (a, b) = (t * e1, e1 * e);
    assert((m + 1 as real) * b == m * b + b) by (nonlinear_arith);
    assert(m * (a - b) == m * a - m * b) by (nonlinear_arith);
    lemma_regroup(t, m, e1);
    lemma_regroup(m, t, e1);
}

proof fn lemma_inverse(p: real, e: real, x: real)
    requires
        e * x == 1 as real,
    ensures
        x * (p * e) == p,
{
    assert(x * (p * e) == p * (e * x)) by (nonlinear_arith);
}

} // verus!
