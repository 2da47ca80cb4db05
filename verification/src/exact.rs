//! Readings of elements as real numbers.
//!
//! The formulas of the losses and of the scores are promises about numbers, and an element
//! keeps them as far as its operations do not round. A reading says which number an element
//! stands for, and for which numbers there is an element: an operation whose result has
//! room gives exactly that result.

use vstd::prelude::*;
use crate::channel::{Channel, Fixed, Real, REDUCE_FIXEDPOINT_SCALE, lemma_wrap_signed_small};
use crate::smooth::Smooth;

verus! {

/// `val` reads every element as a number, and every operation whose result has `room` is
/// exact.
pub open spec fn exact<F: Real>(val: spec_fn(F) -> real, room: spec_fn(real) -> bool) -> bool {
    &&& val(F::zero_spec()) == 0 as real
    &&& val(F::one_spec()) == 1 as real
    &&& forall|a: F, b: F| #![trigger a.plus_spec(b)]
        room(val(a) + val(b)) ==> val(a.plus_spec(b)) == val(a) + val(b)
    &&& forall|a: F, b: F| #![trigger a.minus_spec(b)]
        room(val(a) - val(b)) ==> val(a.minus_spec(b)) == val(a) - val(b)
    &&& forall|a: F, b: F| #![trigger a.times_spec(b)]
        room(val(a) * val(b)) ==> val(a.times_spec(b)) == val(a) * val(b)
    &&& forall|a: F, b: F| #![trigger a.over_spec(b)]
        val(b) != 0 as real && room(val(a) / val(b)) ==> val(a.over_spec(b)) == val(a) / val(b)
    &&& forall|a: F| #![trigger a.negated_spec()] room(-val(a)) ==> val(a.negated_spec()) == -val(a)
    &&& forall|a: F, b: F| #![trigger a.above_spec(b)] a.above_spec(b) == (val(a) > val(b))
    &&& forall|a: F| #![trigger a.is_number()] a.is_number()
    &&& forall|a: F| #![trigger val(a)] room(val(a))
    &&& forall|a: F, b: F| #![trigger val(a), val(b)] val(a) == val(b) ==> a == b
}

/// The distance of a number from zero.
pub open spec fn distance(x: real) -> real {
    if x < 0 as real {
        -x
    } else {
        x
    }
}

/// An exact reading under which magnitudes are exact too.
pub open spec fn exact_smooth<F: Smooth>(val: spec_fn(F) -> real, room: spec_fn(real) -> bool) -> bool {
    &&& exact(val, room)
    &&& forall|a: F| #![trigger a.abs_spec()] room(distance(val(a))) ==> val(a.abs_spec()) == distance(val(a))
}

/// The number that a fixed-point element stands for.
pub open spec fn fixed_value(a: Fixed) -> real {
    a.raw as real / REDUCE_FIXEDPOINT_SCALE as real
}

/// Whether a number is a whole count of fixed-point steps, in range.
pub open spec fn fixed_room(x: real) -> bool {
    exists|raw: i64| x == #[trigger] fixed_value(Fixed { raw })
}

/// Fixed-point elements are read exactly: an operation whose result is a fixed-point
/// number gives that number.
pub proof fn law_fixed_is_exact()
    ensures
        exact_smooth(|a: Fixed| fixed_value(a), |x: real| fixed_room(x)),
{
    let val = |a: Fixed| fixed_value(a);
    let room = |x: real| fixed_room(x);
    assert forall|a: Fixed, b: Fixed| #![trigger a.plus_spec(b)] room(val(a) + val(b)) implies val(a.plus_spec(b)) == val(a) + val(b) by {
        let k = choose|raw: i64| val(a) + val(b) == #[trigger] fixed_value(Fixed { raw });
        lemma_real_sum(a.raw as int, b.raw as int, k as int);
        lemma_wrap_signed_small(k);
    }
    assert forall|a: Fixed, b: Fixed| #![trigger a.minus_spec(b)] room(val(a) - val(b)) implies val(a.minus_spec(b)) == val(a) - val(b) by {
        let k = choose|raw: i64| val(a) - val(b) == #[trigger] fixed_value(Fixed { raw });
        lemma_real_sum(k as int, b.raw as int, a.raw as int);
        lemma_wrap_signed_small(k);
    }
    assert forall|a: Fixed, b: Fixed| #![trigger a.times_spec(b)] room(val(a) * val(b)) implies val(a.times_spec(b)) == val(a) * val(b) by {
        let k = choose|raw: i64| val(a) * val(b) == #[trigger] fixed_value(Fixed { raw });
        lemma_real_product(a.raw as int, b.raw as int, k as int);
        vstd::arithmetic::div_mod::lemma_div_multiples_vanish(k as int, REDUCE_FIXEDPOINT_SCALE as int);
        lemma_wrap_signed_small(k);
    }
    assert forall|a: Fixed, b: Fixed| #![trigger a.over_spec(b)] val(b) != 0 as real && room(val(a) / val(b)) implies val(a.over_spec(b)) == val(a) / val(b) by {
        let k = choose|raw: i64| val(a) / val(b) == #[trigger] fixed_value(Fixed { raw });
        lemma_steps(b.raw as int);
        lemma_real_quotient(a.raw as int, b.raw as int, k as int);
        let d = b.raw as int;
        if d > 0 {
            vstd::arithmetic::div_mod::lemma_div_multiples_vanish(k as int, d);
        } else {
            assert(-(k * d) == -d * k) by (nonlinear_arith);
            vstd::arithmetic::div_mod::lemma_div_multiples_vanish(k as int, -d);
        }
        assert(k * d == d * k) by (nonlinear_arith);
        lemma_wrap_signed_small(k);
    }
    assert forall|a: Fixed| #![trigger a.negated_spec()] room(-val(a)) implies val(a.negated_spec()) == -val(a) by {
        let k = choose|raw: i64| -val(a) == #[trigger] fixed_value(Fixed { raw });
        lemma_steps(0);
        lemma_real_sum(k as int, a.raw as int, 0);
        lemma_wrap_signed_small(k);
    }
    assert forall|a: Fixed| #![trigger val(a)] room(val(a)) by {
        assert(val(a) == fixed_value(Fixed { raw: a.raw }));
    }
    lemma_steps(0);
    lemma_steps(REDUCE_FIXEDPOINT_SCALE as int);
    assert forall|a: Fixed, b: Fixed| #![trigger a.above_spec(b)] a.above_spec(b) == (val(a) > val(b)) by {
        lemma_steps(a.raw as int);
        lemma_steps(b.raw as int);
    }
    assert forall|a: Fixed, b: Fixed| #![trigger val(a), val(b)] val(a) == val(b) implies a == b by {
        lemma_steps(a.raw as int);
        lemma_steps(b.raw as int);
    }
    assert(exact(val, room));
    assert forall|a: Fixed| #![trigger a.abs_spec()] room(distance(val(a))) implies val(a.abs_spec()) == distance(val(a)) by {
        lemma_steps(a.raw as int);
        if a.raw < 0 {
            assert(room(-val(a)));
        }
    }
}

/// A count of steps is the number that it makes times the steps in one unit.
proof fn lemma_steps(raw: int)
    ensures
        raw as real / REDUCE_FIXEDPOINT_SCALE as real * (0x4000_0000 as real) == raw as real,
{
    let s = REDUCE_FIXEDPOINT_SCALE as real;
    assert(raw as real / s * s == raw as real) by (nonlinear_arith)
        requires
            s > 0 as real,
    ;
}

proof fn lemma_real_sum(a: int, b: int, k: int)
    requires
        a as real / REDUCE_FIXEDPOINT_SCALE as real + b as real / REDUCE_FIXEDPOINT_SCALE as real == k as real / REDUCE_FIXEDPOINT_SCALE as real,
    ensures
        a + b == k,
{
    let s = REDUCE_FIXEDPOINT_SCALE as real;
    assert(a as real + b as real == k as real) by (nonlinear_arith)
        requires
            a as real / s + b as real / s == k as real / s,
            s > 0 as real,
    ;
}

proof fn lemma_real_product(a: int, b: int, k: int)
    requires
        (a as real / REDUCE_FIXEDPOINT_SCALE as real) * (b as real / REDUCE_FIXEDPOINT_SCALE as real) == k as real / REDUCE_FIXEDPOINT_SCALE as real,
    ensures
        a * b == REDUCE_FIXEDPOINT_SCALE * k,
{
    let s = REDUCE_FIXEDPOINT_SCALE as real;
    assert((a as real) * (b as real) == s * (k as real)) by (nonlinear_arith)
        requires
            (a as real / s) * (b as real / s) == k as real / s,
            s > 0 as real,
    ;
    assert((a * b) as real == (a as real) * (b as real)) by (nonlinear_arith);
    assert((REDUCE_FIXEDPOINT_SCALE * k) as real == s * (k as real)) by (nonlinear_arith)
        requires
            s == REDUCE_FIXEDPOINT_SCALE as real,
    ;
}

proof fn lemma_real_quotient(a: int, b: int, k: int)
    requires
        b != 0,
        (a as real / REDUCE_FIXEDPOINT_SCALE as real) / (b as real / REDUCE_FIXEDPOINT_SCALE as real) == k as real / REDUCE_FIXEDPOINT_SCALE as real,
    ensures
        a * REDUCE_FIXEDPOINT_SCALE == b * k,
{
    let s = REDUCE_FIXEDPOINT_SCALE as real;
    assert((a as real) * s == (b as real) * (k as real)) by (nonlinear_arith)
        requires
            (a as real / s) / (b as real / s) == k as real / s,
            s > 0 as real,
            b as real != 0 as real,
    ;
    assert((b * k) as real == (b as real) * (k as real)) by (nonlinear_arith);
    assert((a * REDUCE_FIXEDPOINT_SCALE) as real == (a as real) * s) by (nonlinear_arith)
        requires
            s == REDUCE_FIXEDPOINT_SCALE as real,
    ;
}

pub(crate) proof fn lemma_unit(w: real)
    ensures
        w * (1 as real) == w,
        (1 as real) * w == w,
        w * (-1 as real) == -w,
{
    assert(w * (-1 as real) == -w) by (nonlinear_arith);
}

pub(crate) proof fn lemma_nothing(x: real, y: real)
    ensures
        0 as real * x * y == 0 as real,
{
}

pub(crate) proof fn lemma_minus(a: real, b: real)
    ensures
        (-a) * b == -(a * b),
        (0 as real - a) * b == -(a * b),
{
    assert((-a) * b == -(a * b)) by (nonlinear_arith);
}

pub(crate) proof fn lemma_distribute(m: real, k: real, c: real)
    ensures
        (m - k) * c == m * c - k * c,
{
    assert((m - k) * c == m * c - k * c) by (nonlinear_arith);
}

pub(crate) proof fn lemma_times_minus(a: real, b: real)
    ensures
        a * (-b) == -(a * b),
{
    assert(a * (-b) == -(a * b)) by (nonlinear_arith);
}

pub(crate) proof fn lemma_regroup(a: real, b: real, c: real)
    ensures
        (a * b) * c == a * (b * c),
        a * (b * c) == b * (a * c),
        a * (b * c) == (a * c) * b,
{
    assert((a * b) * c == a * (b * c)) by (nonlinear_arith);
    assert(a * (b * c) == b * (a * c)) by (nonlinear_arith);
    assert(a * (b * c) == (a * c) * b) by (nonlinear_arith);
}

pub(crate) proof fn lemma_exchange(a: real, b: real, c: real, d: real)
    ensures
        (a * b) * (c * d) == (a * c) * (b * d),
{
    assert((a * b) * (c * d) == (a * c) * (b * d)) by (nonlinear_arith);
}

pub(crate) proof fn lemma_square(x: real)
    ensures
        x * x >= 0 as real,
{
    assert(x * x >= 0 as real) by (nonlinear_arith);
}

pub(crate) proof fn lemma_negated(x: real)
    ensures
        (-x) * (-x) == x * x,
{
    assert((-x) * (-x) == x * x) by (nonlinear_arith);
}

pub(crate) proof fn lemma_ratio(a: real, b: real)
    requires
        b != 0 as real,
    ensures
        a / b * b == a,
{
    assert(a / b * b == a) by (nonlinear_arith)
        requires
            b != 0 as real,
    ;
}

pub(crate) proof fn lemma_cancel(a: real, b: real, m: real)
    requires
        m != 0 as real,
        a * m == b * m,
    ensures
        a == b,
{
    assert(a == b) by (nonlinear_arith)
        requires
            m != 0 as real,
            a * m == b * m,
    ;
}

pub(crate) proof fn lemma_sign_times(x: real, y: real)
    ensures
        x * (1 as real) * y == x * y,
        x * (-1 as real) * y == -(x * y),
        (1 as real) * y == y,
        (-1 as real) * y == -y,
{
    assert(x * (-1 as real) * y == -(x * y)) by (nonlinear_arith);
    assert(x * (1 as real) * y == x * y) by (nonlinear_arith);
    assert((-1 as real) * y == -y) by (nonlinear_arith);
}

pub(crate) proof fn lemma_product_square(a: real, b: real)
    ensures
        a * a * (b * b) == (a * b) * (a * b),
{
    assert(a * a * (b * b) == (a * b) * (a * b)) by (nonlinear_arith);
}

} // verus!
