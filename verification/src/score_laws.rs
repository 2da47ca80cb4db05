//! What the leaf terms of the scores are as numbers, and how they move.

use vstd::prelude::*;
use crate::channel::{Channel, Fixed, REDUCE_FIXEDPOINT_SCALE, Real, lemma_wrap_signed_small};
use crate::exact::{distance, exact};
use crate::split::{
    SCORE_FN_COSINE, SCORE_FN_L2, SCORE_FN_LOO_L2, SCORE_FN_SAT_L2, SCORE_FN_SOLAR_L2, cb_leaf_avg,
    cb_leaf_score_term,
};

verus! {

/// The average of a leaf with sum `s`, weight `w` and regularisation `l` has room.
pub open spec fn avg_fits(room: spec_fn(real) -> bool, s: real, w: real, l: real) -> bool {
    w + l != 0 as real && room(w + l) && room(s / (w + l))
}

/// The steps of a score that is divided by the leaf weight last have room: the negated
/// square of the sum, times the factor, over the weight.
pub open spec fn negated_square_fits(room: spec_fn(real) -> bool, factor: real, s: real, w: real) -> bool {
    &&& room(-s)
    &&& room(-s * s)
    &&& room(factor * (-s * s))
    &&& room(factor * (-s * s) / w)
}

/// The steps of a leave-one-out term have room.
pub open spec fn loo_fits(room: spec_fn(real) -> bool, s: real, w: real) -> bool {
    let one = 1 as real;
    let q = w / (w - one);
    &&& room(w - one)
    &&& room(q)
    &&& room(q * q)
    &&& negated_square_fits(room, q * q, s, w)
}

/// The denominator of a saturated term.
pub open spec fn sat_divisor(w: real) -> real {
    w * w - 3 as real * w + 1 as real
}

/// The steps of a saturated term have room.
pub open spec fn sat_fits(room: spec_fn(real) -> bool, s: real, w: real) -> bool {
    let two = 2 as real;
    let three = 3 as real;
    let d = sat_divisor(w);
    &&& room(two)
    &&& room(three)
    &&& room(w - two)
    &&& room(w * (w - two))
    &&& room(w * w)
    &&& room(three * w)
    &&& room(w * w - three * w)
    &&& room(d)
    &&& room(w * (w - two) / d)
    &&& negated_square_fits(room, w * (w - two) / d, s, w)
}

/// The steps of a solar term have room; `log` is the logarithm of the weight and one.
pub open spec fn solar_fits(room: spec_fn(real) -> bool, s: real, w: real, log: real) -> bool {
    let one = 1 as real;
    let two = 2 as real;
    &&& room(two)
    &&& room(w + one)
    &&& room(two * log)
    &&& room(one + two * log)
    &&& room(-s)
    &&& room(-s * s)
    &&& room(-s * s * (one + two * log))
    &&& room(-s * s * (one + two * log) / w)
}

/// The average of a leaf times its regularised weight is its sum. A leaf without weight
/// averages to zero.
pub proof fn law_leaf_average<F: Real>(val: spec_fn(F) -> real, room: spec_fn(real) -> bool, sum: F, w: F, lambda: F, r: F)
    requires
        exact(val, room),
        call_ensures(cb_leaf_avg::<F>, (sum, w, lambda), r),
        val(w) > 0 as real ==> avg_fits(room, val(sum), val(w), val(lambda)),
    ensures
        val(w) > 0 as real ==> val(r) * (val(w) + val(lambda)) == val(sum),
        val(w) <= 0 as real ==> val(r) == 0 as real,
{
    let (s, x, l) = (val(sum), val(w), val(lambda));
    if x > 0 as real {
        assert(val(w.plus_spec(lambda)) == x + l);
        assert(val(r) == s / (x + l));
        assert(s / (x + l) * (x + l) == s) by (nonlinear_arith)
            requires
                x + l != 0 as real,
        ;
    }
}

/// A least-squares term times the regularised weight is the square of the leaf's sum, for
/// the plain score as for the cosine: it is never negative, and neither the sign of the
/// sum nor the other constants of a score matter to it.
pub proof fn law_l2_term<F: Real>(
    val: spec_fn(F) -> real,
    room: spec_fn(real) -> bool,
    sum: F,
    w: F,
    lambda: F,
    score_fn: u32,
    r: F,
)
    requires
        exact(val, room),
        score_fn == SCORE_FN_L2 || score_fn == SCORE_FN_COSINE,
        call_ensures(cb_leaf_score_term::<F>, (sum, w, lambda, score_fn), r),
        val(w) > 0 as real ==> avg_fits(room, val(sum), val(w), val(lambda)) && room(
            val(sum) / (val(w) + val(lambda)) * val(sum),
        ),
    ensures
        val(w) > 0 as real ==> val(r) * (val(w) + val(lambda)) == val(sum) * val(sum),
        val(w) > 0 as real && val(lambda) >= 0 as real ==> val(r) >= 0 as real,
        val(w) <= 0 as real ==> val(r) == 0 as real,
{
    let (s, x, l) = (val(sum), val(w), val(lambda));
    if x > 0 as real {
        assert(val(w.plus_spec(lambda)) == x + l);
        let avg = sum.over_spec(w.plus_spec(lambda));
        assert(val(avg) == s / (x + l));
        assert(r == avg.times_spec(sum));
        assert(val(r) == s / (x + l) * s);
        assert(s / (x + l) * s * (x + l) == s * s) by (nonlinear_arith)
            requires
                x + l != 0 as real,
        ;
        let v = val(r);
        assert(l >= 0 as real ==> v >= 0 as real) by (nonlinear_arith)
            requires
                v * (x + l) == s * s,
                x > 0 as real,
        ;
    } else {
        let zero = F::zero_spec();
        assert(r == zero.times_spec(sum));
        assert(val(zero) * s == 0 as real);
        assert(room(val(zero)));
    }
}

proof fn lemma_negated_square<F: Real>(val: spec_fn(F) -> real, room: spec_fn(real) -> bool, factor: F, sum: F, w: F)
    requires
        exact(val, room),
        val(w) != 0 as real,
        negated_square_fits(room, val(factor), val(sum), val(w)),
    ensures
        val(factor.times_spec(sum.negated_spec().times_spec(sum)).over_spec(w)) == val(factor) * (-val(sum) * val(sum)) / val(w),
{
    let n = sum.negated_spec();
    assert(val(n) == -val(sum));
    let sq = n.times_spec(sum);
    assert(val(sq) == -val(sum) * val(sum));
    let p = factor.times_spec(sq);
    assert(val(p) == val(factor) * (-val(sum) * val(sum)));
}

/// A leave-one-out term times the square of the weight without one object is the negated
/// weight times the square of the sum: it is never positive. A leaf of one object or less
/// has none.
pub proof fn law_loo_term<F: Real>(val: spec_fn(F) -> real, room: spec_fn(real) -> bool, sum: F, w: F, lambda: F, r: F)
    requires
        exact(val, room),
        call_ensures(cb_leaf_score_term::<F>, (sum, w, lambda, SCORE_FN_LOO_L2), r),
        val(w) > 1 as real ==> loo_fits(room, val(sum), val(w)),
        val(w) <= 1 as real ==> room(-val(sum)) && room(-val(sum) * val(sum)),
    ensures
        val(w) > 1 as real ==> val(r) * ((val(w) - 1 as real) * (val(w) - 1 as real)) == -(val(w) * (val(sum) * val(sum))),
        val(r) <= 0 as real,
        val(w) <= 1 as real ==> val(r) == 0 as real,
{
    let (s, x) = (val(sum), val(w));
    let one = F::one_spec();
    let zero = F::zero_spec();
    if x > 1 as real {
        let d = w.minus_spec(one);
        assert(val(d) == x - 1 as real);
        let q = w.over_spec(d);
        let m = x - 1 as real;
        let y = x / m;
        assert(val(q) == y);
        let qq = q.times_spec(q);
        assert(val(qq) == y * y);
        lemma_negated_square(val, room, qq, sum, w);
        let v = val(r);
        assert(v == y * y * (-s * s) / x);
        lemma_loo_number(s, x, y, v);
    } else if x > 0 as real {
        let zz = zero.times_spec(zero);
        assert(val(zero) * val(zero) == 0 as real);
        assert(room(val(zero)));
        assert(val(zz) == 0 as real);
        assert(val(zz) * (-s * s) == 0 as real);
        assert(0 as real / x == 0 as real) by (nonlinear_arith)
            requires
                x > 0 as real,
        ;
        lemma_negated_square(val, room, zz, sum, w);
    }
}

proof fn lemma_loo_number(s: real, w: real, y: real, v: real)
    requires
        w > 1 as real,
        y == w / (w - 1 as real),
        v == y * y * (-s * s) / w,
    ensures
        v * ((w - 1 as real) * (w - 1 as real)) == -(w * (s * s)),
        v <= 0 as real,
{
    let m = w - 1 as real;
    assert(y * m == w) by (nonlinear_arith)
        requires
            m > 0 as real,
            y == w / m,
    ;
    let t = s * s;
    assert(-s * s == -t) by (nonlinear_arith)
        requires
            t == s * s,
    ;
    assert(t >= 0 as real) by (nonlinear_arith)
        requires
            t == s * s,
    ;
    let y2 = y * y;
    assert(v * w == y2 * (-t)) by (nonlinear_arith)
        requires
            w > 1 as real,
            v == y2 * (-t) / w,
    ;
    assert(y2 * (m * m) == w * w) by (nonlinear_arith)
        requires
            y * m == w,
            y2 == y * y,
    ;
    let mm = m * m;
    assert(mm > 0 as real) by (nonlinear_arith)
        requires
            m > 0 as real,
            mm == m * m,
    ;
    assert(w * (v * mm) == w * (-(w * t))) by (nonlinear_arith)
        requires
            v * w == y2 * (-t),
            y2 * mm == w * w,
    ;
    let a = v * mm;
    let b = -(w * t);
    assert(a == b) by (nonlinear_arith)
        requires
            w * a == w * b,
            w > 1 as real,
    ;
    assert(w * t >= 0 as real) by (nonlinear_arith)
        requires
            w > 1 as real,
            t >= 0 as real,
    ;
    assert(v <= 0 as real) by (nonlinear_arith)
        requires
            v * mm <= 0 as real,
            mm > 0 as real,
    ;
}

/// A saturated term times its divisor is the negated weight without two objects times the
/// square of the sum. From a weight of three on it is never positive. A leaf of two objects
/// or less has none.
pub proof fn law_sat_term<F: Real>(val: spec_fn(F) -> real, room: spec_fn(real) -> bool, sum: F, w: F, lambda: F, r: F)
    requires
        exact(val, room),
        call_ensures(cb_leaf_score_term::<F>, (sum, w, lambda, SCORE_FN_SAT_L2), r),
        room(2 as real),
        val(w) > 2 as real ==> sat_divisor(val(w)) != 0 as real && sat_fits(room, val(sum), val(w)),
        val(w) <= 2 as real ==> room(-val(sum)) && room(-val(sum) * val(sum)),
    ensures
        val(w) > 2 as real ==> val(r) * (val(w) * val(w) - 3 as real * val(w) + 1 as real) == -((val(w) - 2 as real) * (val(sum)
            * val(sum))),
        val(w) >= 3 as real ==> val(r) <= 0 as real,
        val(w) <= 2 as real ==> val(r) == 0 as real,
{
    let (s, x) = (val(sum), val(w));
    let one = F::one_spec();
    let zero = F::zero_spec();
    let two = one.plus_spec(one);
    assert(val(two) == 2 as real);
    if x > 2 as real {
        let three = two.plus_spec(one);
        assert(val(three) == 3 as real);
        let top = w.times_spec(w.minus_spec(two));
        assert(val(w.minus_spec(two)) == x - 2 as real);
        assert(val(top) == x * (x - 2 as real));
        let ww = w.times_spec(w);
        let w3 = three.times_spec(w);
        assert(val(ww) == x * x);
        assert(val(w3) == 3 as real * x);
        let gap = ww.minus_spec(w3);
        assert(val(gap) == x * x - 3 as real * x);
        let bottom = gap.plus_spec(one);
        let d = sat_divisor(x);
        assert(val(bottom) == d);
        let adjust = top.over_spec(bottom);
        let y = x * (x - 2 as real) / d;
        assert(val(adjust) == y);
        lemma_negated_square(val, room, adjust, sum, w);
        let v = val(r);
        assert(v == y * (-s * s) / x);
        lemma_sat_number(s, x, d, y, v);
    } else if x > 0 as real {
        assert(room(val(zero)));
        assert(val(zero) * (-s * s) == 0 as real);
        assert(0 as real / x == 0 as real) by (nonlinear_arith)
            requires
                x > 0 as real,
        ;
        lemma_negated_square(val, room, zero, sum, w);
    }
}

proof fn lemma_sat_number(s: real, w: real, d: real, y: real, v: real)
    requires
        w > 2 as real,
        d == w * w - 3 as real * w + 1 as real,
        d != 0 as real,
        y == w * (w - 2 as real) / d,
        v == y * (-s * s) / w,
    ensures
        v * d == -((w - 2 as real) * (s * s)),
        w >= 3 as real ==> v <= 0 as real,
{
    let top = w * (w - 2 as real);
    assert(y * d == top) by (nonlinear_arith)
        requires
            d != 0 as real,
            y == top / d,
    ;
    let t = s * s;
    assert(-s * s == -t) by (nonlinear_arith)
        requires
            t == s * s,
    ;
    assert(t >= 0 as real) by (nonlinear_arith)
        requires
            t == s * s,
    ;
    assert(v * w == y * (-t)) by (nonlinear_arith)
        requires
            w > 2 as real,
            v == y * (-t) / w,
    ;
    let m = w - 2 as real;
    assert(w * (v * d) == w * (-(m * t))) by (nonlinear_arith)
        requires
            v * w == y * (-t),
            y * d == w * m,
    ;
    let a = v * d;
    let b = -(m * t);
    assert(a == b) by (nonlinear_arith)
        requires
            w * a == w * b,
            w > 2 as real,
    ;
    if w >= 3 as real {
        assert(d > 0 as real) by (nonlinear_arith)
            requires
                w >= 3 as real,
                d == w * w - 3 as real * w + 1 as real,
        ;
        assert(m * t >= 0 as real) by (nonlinear_arith)
            requires
                m > 0 as real,
                t >= 0 as real,
        ;
        assert(v <= 0 as real) by (nonlinear_arith)
            requires
                v * d <= 0 as real,
                d > 0 as real,
        ;
    }
}

/// A solar term times the weight is the negated square of the sum, times one and twice the
/// logarithm of the weight and one. A leaf whose weight does not exceed the least one has
/// none.
pub proof fn law_solar_term<F: Real>(val: spec_fn(F) -> real, room: spec_fn(real) -> bool, sum: F, w: F, lambda: F, r: F)
    requires
        exact(val, room),
        val(F::eps_spec()) >= 0 as real,
        call_ensures(cb_leaf_score_term::<F>, (sum, w, lambda, SCORE_FN_SOLAR_L2), r),
        val(w) > val(F::eps_spec()) ==> solar_fits(room, val(sum), val(w), val(w.plus_spec(F::one_spec()).ln_spec())),
    ensures
        val(w) > val(F::eps_spec()) ==> val(r) * val(w) == -((val(sum) * val(sum)) * (1 as real + 2 as real * val(
            w.plus_spec(F::one_spec()).ln_spec(),
        ))),
        val(w) > val(F::eps_spec()) && val(w.plus_spec(F::one_spec()).ln_spec()) >= 0 as real ==> val(r) <= 0 as real,
        val(w) <= val(F::eps_spec()) ==> val(r) == 0 as real,
{
    let (s, x) = (val(sum), val(w));
    let one = F::one_spec();
    let two = one.plus_spec(one);
    if x > val(F::eps_spec()) {
        assert(val(two) == 2 as real);
        let ln = w.plus_spec(one).ln_spec();
        let log = val(ln);
        let t2 = two.times_spec(ln);
        assert(val(t2) == 2 as real * log);
        let f = one.plus_spec(t2);
        let g = 1 as real + 2 as real * log;
        assert(val(f) == g);
        let n = sum.negated_spec();
        assert(val(n) == -s);
        let sq = n.times_spec(sum);
        assert(val(sq) == -s * s);
        let top = sq.times_spec(f);
        assert(val(top) == -s * s * g);
        let v = val(r);
        assert(v == -s * s * g / x);
        let p = s * s * g;
        assert(-s * s * g == -p) by (nonlinear_arith)
            requires
                p == s * s * g,
        ;
        assert(v * x == -p) by (nonlinear_arith)
            requires
                v == -p / x,
                x > 0 as real,
        ;
        if log >= 0 as real {
            assert(p >= 0 as real) by (nonlinear_arith)
                requires
                    p == s * s * g,
                    g >= 1 as real,
            ;
            assert(v <= 0 as real) by (nonlinear_arith)
                requires
                    v * x <= 0 as real,
                    x > 0 as real,
            ;
        }
    }
}

/// A leaf with the larger sum, to either side of zero, has the higher least-squares term
/// and the lower leave-one-out, saturated and solar term. The sign of the sum matters to
/// none of them.
pub proof fn law_terms_follow_the_sum<F: Real>(
    val: spec_fn(F) -> real,
    room: spec_fn(real) -> bool,
    sum: F,
    other: F,
    w: F,
    lambda: F,
    score_fn: u32,
    r: F,
    q: F,
)
    requires
        exact(val, room),
        call_ensures(cb_leaf_score_term::<F>, (sum, w, lambda, score_fn), r),
        call_ensures(cb_leaf_score_term::<F>, (other, w, lambda, score_fn), q),
        val(w) >= 3 as real,
        val(lambda) >= 0 as real,
        score_fn == SCORE_FN_L2 || score_fn == SCORE_FN_COSINE ==> {
            &&& avg_fits(room, val(sum), val(w), val(lambda))
            &&& avg_fits(room, val(other), val(w), val(lambda))
            &&& room(val(sum) / (val(w) + val(lambda)) * val(sum))
            &&& room(val(other) / (val(w) + val(lambda)) * val(other))
        },
        score_fn == SCORE_FN_LOO_L2 ==> loo_fits(room, val(sum), val(w)) && loo_fits(room, val(other), val(w)),
        score_fn == SCORE_FN_SAT_L2 ==> sat_fits(room, val(sum), val(w)) && sat_fits(room, val(other), val(w)),
        score_fn == SCORE_FN_SOLAR_L2 ==> {
            let log = val(w.plus_spec(F::one_spec()).ln_spec());
            &&& 0 as real <= val(F::eps_spec()) < val(w)
            &&& log >= 0 as real
            &&& solar_fits(room, val(sum), val(w), log)
            &&& solar_fits(room, val(other), val(w), log)
        },
    ensures
        distance(val(sum)) == distance(val(other)) && score_fn <= SCORE_FN_SAT_L2 ==> val(r) == val(q),
        distance(val(sum)) < distance(val(other)) && (score_fn == SCORE_FN_L2 || score_fn == SCORE_FN_COSINE) ==> val(r) < val(q),
        distance(val(sum)) < distance(val(other)) && (score_fn == SCORE_FN_LOO_L2 || score_fn == SCORE_FN_SAT_L2 || score_fn
            == SCORE_FN_SOLAR_L2) ==> val(r) > val(q),
{
    let (s, o, x, l) = (val(sum), val(other), val(w), val(lambda));
    let (a, b) = (val(r), val(q));
    lemma_squares(s, o);
    let (ss, oo) = (s * s, o * o);
    if score_fn == SCORE_FN_L2 || score_fn == SCORE_FN_COSINE {
        law_l2_term(val, room, sum, w, lambda, score_fn, r);
        law_l2_term(val, room, other, w, lambda, score_fn, q);
        lemma_scaled(a, b, x + l, ss, oo);
    } else if score_fn == SCORE_FN_LOO_L2 {
        law_loo_term(val, room, sum, w, lambda, r);
        law_loo_term(val, room, other, w, lambda, q);
        let m = x - 1 as real;
        let mm = m * m;
        assert(mm > 0 as real) by (nonlinear_arith)
            requires
                m > 0 as real,
                mm == m * m,
        ;
        lemma_factor(x, ss, oo);
        lemma_scaled(a, b, mm, -(x * ss), -(x * oo));
        lemma_scaled(b, a, mm, -(x * oo), -(x * ss));
    } else if score_fn == SCORE_FN_SAT_L2 {
        let d = x * x - 3 as real * x + 1 as real;
        assert(d > 0 as real) by (nonlinear_arith)
            requires
                x >= 3 as real,
                d == x * x - 3 as real * x + 1 as real,
        ;
        law_sat_term(val, room, sum, w, lambda, r);
        law_sat_term(val, room, other, w, lambda, q);
        let m = x - 2 as real;
        lemma_factor(m, ss, oo);
        lemma_scaled(a, b, d, -(m * ss), -(m * oo));
        lemma_scaled(b, a, d, -(m * oo), -(m * ss));
    } else if score_fn == SCORE_FN_SOLAR_L2 {
        law_solar_term(val, room, sum, w, lambda, r);
        law_solar_term(val, room, other, w, lambda, q);
        let g = 1 as real + 2 as real * val(w.plus_spec(F::one_spec()).ln_spec());
        lemma_factor(g, ss, oo);
        assert(g * ss == ss * g) by (nonlinear_arith);
        assert(g * oo == oo * g) by (nonlinear_arith);
        lemma_scaled(a, b, x, -(g * ss), -(g * oo));
        lemma_scaled(b, a, x, -(g * oo), -(g * ss));
    }
}

proof fn lemma_squares(s: real, o: real)
    ensures
        distance(s) == distance(o) ==> s * s == o * o,
        distance(s) < distance(o) ==> s * s < o * o,
{
    let (a, b) = (distance(s), distance(o));
    assert(a * a == s * s) by (nonlinear_arith)
        requires
            a == s || a == -s,
    ;
    assert(b * b == o * o) by (nonlinear_arith)
        requires
            b == o || b == -o,
    ;
    if a < b {
        assert(a * a < b * b) by (nonlinear_arith)
            requires
                0 as real <= a < b,
        ;
    }
}

proof fn lemma_factor(m: real, a: real, b: real)
    requires
        m > 0 as real,
    ensures
        a == b ==> m * a == m * b,
        a < b ==> m * a < m * b,
{
    if a < b {
        assert(m * a < m * b) by (nonlinear_arith)
            requires
                m > 0 as real,
                a < b,
        ;
    }
}

/// Numbers compare as their positive multiples do.
proof fn lemma_scaled(a: real, b: real, m: real, x: real, y: real)
    requires
        m > 0 as real,
        a * m == x,
        b * m == y,
    ensures
        x == y ==> a == b,
        x < y ==> a < b,
{
    if x == y {
        assert(a == b) by (nonlinear_arith)
            requires
                m > 0 as real,
                a * m == b * m,
        ;
    }
    if x < y {
        assert(a < b) by (nonlinear_arith)
            requires
                m > 0 as real,
                a * m < b * m,
        ;
    }
}

/// A sum whose square keeps clear of the fixed-point range.
pub open spec fn clear_sum(sum: Fixed) -> bool {
    -0x2000_0000_0000 <= sum.raw <= 0x2000_0000_0000
}

/// The rounded quotient of a fixed-point product.
proof fn lemma_floor_scale(a: int, b: int, d: int)
    requires
        d > 0,
        a <= b,
    ensures
        a / d <= b / d,
        a <= 0 ==> a / d <= 0,
        a >= 0 ==> a / d >= 0,
{
    vstd::arithmetic::div_mod::lemma_div_is_ordered(a, b, d);
    if a <= 0 {
        vstd::arithmetic::div_mod::lemma_div_is_ordered(a, 0, d);
    } else {
        vstd::arithmetic::div_mod::lemma_div_is_ordered(0, a, d);
    }
}

/// The term that a factor makes of a sum and a weight, in fixed-point steps.
spec fn rounded_term(factor: int, s: int, w: int) -> int {
    let scale = REDUCE_FIXEDPOINT_SCALE as int;
    (factor * ((-s * s) / scale)) / scale * scale / w
}

proof fn lemma_rounded_term(factor: Fixed, sum: Fixed, w: Fixed)
    requires
        0 <= factor.raw <= 0x1_0000_0000,
        clear_sum(sum),
        w.raw >= 0x4000_0000,
    ensures
        factor.times_spec(sum.negated_spec().times_spec(sum)).over_spec(w).raw == rounded_term(
            factor.raw as int,
            sum.raw as int,
            w.raw as int,
        ),
        rounded_term(factor.raw as int, sum.raw as int, w.raw as int) <= 0,
{
    let scale = REDUCE_FIXEDPOINT_SCALE as int;
    let f = factor.raw as int;
    let s = sum.raw as int;
    lemma_wrap_signed_small((-s) as i64);
    let p = -s * s;
    assert(-0x400_0000_0000_0000_0000_0000 <= p <= 0) by (nonlinear_arith)
        requires
            p == -s * s,
            -0x2000_0000_0000 <= s <= 0x2000_0000_0000,
    ;
    let n = p / scale;
    assert(-0x1000_0000_0000_0000 <= n <= 0) by (nonlinear_arith)
        requires
            n == p / 0x4000_0000,
            -0x400_0000_0000_0000_0000_0000 <= p <= 0,
    ;
    lemma_wrap_signed_small(n as i64);
    let g = f * n;
    assert(-0x1000_0000_0000_0000_0000_0000 <= g <= 0) by (nonlinear_arith)
        requires
            g == f * n,
            0 <= f <= 0x1_0000_0000,
            -0x1000_0000_0000_0000 <= n <= 0,
    ;
    let h = g / scale;
    assert(-0x4000_0000_0000_0000 <= h <= 0) by (nonlinear_arith)
        requires
            h == g / 0x4000_0000,
            -0x1000_0000_0000_0000_0000_0000 <= g <= 0,
    ;
    lemma_wrap_signed_small(h as i64);
    let k = h * scale / w.raw as int;
    let d = w.raw as int;
    assert(h <= k <= 0) by (nonlinear_arith)
        requires
            k == h * 0x4000_0000 / d,
            d >= 0x4000_0000,
            h <= 0,
    ;
    lemma_wrap_signed_small(k as i64);
}

/// With rounding too, a leave-one-out term of fixed-point numbers is never above zero, and
/// falls below zero and does not rise again as the sum moves away from zero.
pub proof fn law_fixed_loo_term(sum: Fixed, other: Fixed, w: Fixed, lambda: Fixed, r: Fixed, q: Fixed)
    requires
        call_ensures(cb_leaf_score_term::<Fixed>, (sum, w, lambda, SCORE_FN_LOO_L2), r),
        call_ensures(cb_leaf_score_term::<Fixed>, (other, w, lambda, SCORE_FN_LOO_L2), q),
        clear_sum(sum),
        clear_sum(other),
        0x8000_0000 <= w.raw <= 0x2000_0000_0000,
        sum.raw * sum.raw <= other.raw * other.raw,
    ensures
        r.raw <= 0,
        q.raw <= r.raw,
        other.raw != 0 ==> q.raw < 0,
{
    let scale = REDUCE_FIXEDPOINT_SCALE as int;
    let x = w.raw as int;
    lemma_wrap_signed_small((x - scale) as i64);
    let a = x * scale / (x - scale);
    assert(scale <= a <= 2 * scale) by (nonlinear_arith)
        requires
            a == x * scale / (x - scale),
            scale == 0x4000_0000,
            x >= 2 * scale,
    ;
    lemma_wrap_signed_small(a as i64);
    let f = a * a / scale;
    assert(scale <= f <= 4 * scale) by (nonlinear_arith)
        requires
            f == a * a / scale,
            scale <= a <= 2 * scale,
            scale == 0x4000_0000,
    ;
    lemma_wrap_signed_small(f as i64);
    let factor = Fixed { raw: f as i64 };
    lemma_rounded_term(factor, sum, w);
    lemma_rounded_term(factor, other, w);
    lemma_rounded_order(f, sum.raw as int, other.raw as int, x);
    if other.raw != 0 {
        let o = other.raw as int;
        let n = (-o * o) / scale;
        let p = -o * o;
        assert(p < 0) by (nonlinear_arith)
            requires
                p == -o * o,
                o != 0,
        ;
        assert(n < 0) by (nonlinear_arith)
            requires
                n == p / scale,
                p < 0,
                scale == 0x4000_0000,
        ;
        assert(f * n <= scale * n) by (nonlinear_arith)
            requires
                f >= scale,
                n <= 0,
        ;
        let g = f * n;
        assert(g / scale <= n) by (nonlinear_arith)
            requires
                g <= scale * n,
                scale == 0x4000_0000,
        ;
        let h = g / scale;
        assert(h * scale / x < 0) by (nonlinear_arith)
            requires
                h < 0,
                scale == 0x4000_0000,
                x > 0,
        ;
    }
}

proof fn lemma_square_below(o: int)
    ensures
        -o * o == -(o * o),
        o * o >= 0,
{
    assert(-o * o == -(o * o)) by (nonlinear_arith);
    assert(o * o >= 0) by (nonlinear_arith);
}

proof fn lemma_rounded_order(f: int, s: int, o: int, w: int)
    requires
        f >= 0,
        w > 0,
        s * s <= o * o,
    ensures
        rounded_term(f, o, w) <= rounded_term(f, s, w),
{
    let scale = REDUCE_FIXEDPOINT_SCALE as int;
    lemma_square_below(s);
    lemma_square_below(o);
    lemma_floor_scale(-o * o, -s * s, scale);
    let (n, m) = ((-o * o) / scale, (-s * s) / scale);
    assert(f * n <= f * m) by (nonlinear_arith)
        requires
            f >= 0,
            n <= m,
    ;
    lemma_floor_scale(f * n, f * m, scale);
    let (g, h) = (f * n / scale, f * m / scale);
    assert(g * scale <= h * scale) by (nonlinear_arith)
        requires
            g <= h,
            scale == 0x4000_0000,
    ;
    lemma_floor_scale(g * scale, h * scale, w);
}

/// With rounding too, a saturated term of fixed-point numbers is never above zero from a
/// weight of three on, and does not rise as the sum moves away from zero.
pub proof fn law_fixed_sat_term(sum: Fixed, other: Fixed, w: Fixed, lambda: Fixed, r: Fixed, q: Fixed)
    requires
        call_ensures(cb_leaf_score_term::<Fixed>, (sum, w, lambda, SCORE_FN_SAT_L2), r),
        call_ensures(cb_leaf_score_term::<Fixed>, (other, w, lambda, SCORE_FN_SAT_L2), q),
        clear_sum(sum),
        clear_sum(other),
        0xc000_0000 <= w.raw <= 0x2000_0000_0000,
        sum.raw * sum.raw <= other.raw * other.raw,
    ensures
        r.raw <= 0,
        q.raw <= r.raw,
{
    let scale = REDUCE_FIXEDPOINT_SCALE as int;
    let x = w.raw as int;
    lemma_wrap_signed_small((2 * scale) as i64);
    lemma_wrap_signed_small((3 * scale) as i64);
    lemma_wrap_signed_small((x - 2 * scale) as i64);
    let xx = x * x;
    assert(9 * scale * scale <= xx <= 0x400_0000_0000_0000_0000_0000 && 3 * scale * x <= xx) by (nonlinear_arith)
        requires
            xx == x * x,
            3 * scale <= x <= 0x2000_0000_0000,
            scale == 0x4000_0000,
    ;
    let t = x * (x - 2 * scale);
    assert(t == xx - 2 * scale * x) by (nonlinear_arith)
        requires
            xx == x * x,
            t == x * (x - 2 * scale),
    ;
    let top = t / scale;
    assert(0 <= top <= 0x1000_0000_0000_0000) by (nonlinear_arith)
        requires
            top == t / 0x4000_0000,
            0 <= t <= 0x400_0000_0000_0000_0000_0000,
    ;
    lemma_wrap_signed_small(top as i64);
    let sq = xx / scale;
    assert(0 <= sq <= 0x1000_0000_0000_0000) by (nonlinear_arith)
        requires
            sq == xx / 0x4000_0000,
            0 <= xx <= 0x400_0000_0000_0000_0000_0000,
    ;
    lemma_wrap_signed_small(sq as i64);
    assert((3 * scale) * x / scale == 3 * x) by (nonlinear_arith)
        requires
            scale == 0x4000_0000,
    ;
    lemma_wrap_signed_small((3 * x) as i64);
    lemma_wrap_signed_small((sq - 3 * x) as i64);
    let d = sq - 3 * x + scale;
    lemma_wrap_signed_small(d as i64);
    assert(d > 0 && top <= 4 * d) by (nonlinear_arith)
        requires
            d == sq - 3 * x + scale,
            sq == xx / 0x4000_0000,
            top == t / 0x4000_0000,
            t == xx - 2 * scale * x,
            xx == x * x,
            x >= 3 * scale,
            scale == 0x4000_0000,
    ;
    let f = top * scale / d;
    assert(0 <= f <= 4 * scale) by (nonlinear_arith)
        requires
            f == top * scale / d,
            0 <= top <= 4 * d,
            d > 0,
            scale == 0x4000_0000,
    ;
    lemma_wrap_signed_small(f as i64);
    let factor = Fixed { raw: f as i64 };
    lemma_rounded_term(factor, sum, w);
    lemma_rounded_term(factor, other, w);
    lemma_rounded_order(f, sum.raw as int, other.raw as int, x);
}

/// With rounding too, a least-squares term of fixed-point numbers is never below zero.
pub proof fn law_fixed_l2_term(sum: Fixed, w: Fixed, lambda: Fixed, score_fn: u32, r: Fixed)
    requires
        score_fn == SCORE_FN_L2 || score_fn == SCORE_FN_COSINE,
        call_ensures(cb_leaf_score_term::<Fixed>, (sum, w, lambda, score_fn), r),
        clear_sum(sum),
        0x4000_0000 <= w.raw <= 0x2000_0000_0000,
        0 <= lambda.raw <= 0x2000_0000_0000,
    ensures
        r.raw >= 0,
{
    let scale = REDUCE_FIXEDPOINT_SCALE as int;
    let s = sum.raw as int;
    let d = w.raw + lambda.raw;
    lemma_wrap_signed_small(d as i64);
    let a = s * scale / d;
    assert(-0x2000_0000_0000 <= a <= 0x2000_0000_0000) by (nonlinear_arith)
        requires
            a == s * scale / d,
            scale == 0x4000_0000,
            d >= scale,
            -0x2000_0000_0000 <= s <= 0x2000_0000_0000,
    ;
    lemma_wrap_signed_small(a as i64);
    assert((s > 0 ==> a >= 0) && (s < 0 ==> a <= -1)) by (nonlinear_arith)
        requires
            a == s * scale / d,
            scale == 0x4000_0000,
            d > 0,
    ;
    let p = a * s;
    assert(0 <= p <= 0x400_0000_0000_0000_0000_0000) by (nonlinear_arith)
        requires
            p == a * s,
            -0x2000_0000_0000 <= a <= 0x2000_0000_0000,
            -0x2000_0000_0000 <= s <= 0x2000_0000_0000,
            s > 0 ==> a >= 0,
            s < 0 ==> a <= -1,
    ;
    let v = p / scale;
    assert(0 <= v <= 0x1000_0000_0000_0000) by (nonlinear_arith)
        requires
            v == p / 0x4000_0000,
            0 <= p <= 0x400_0000_0000_0000_0000_0000,
    ;
    lemma_wrap_signed_small(v as i64);
}

/// A code that names no score has no leaf term.
pub proof fn law_unknown_score<F: Real>(sum: F, w: F, lambda: F, score_fn: u32, r: F)
    requires
        call_ensures(cb_leaf_score_term::<F>, (sum, w, lambda, score_fn), r),
        score_fn > SCORE_FN_SAT_L2,
    ensures
        r == F::zero_spec(),
{
}

} // verus!
