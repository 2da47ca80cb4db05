//! How close the rounded operations of the fixed-point element come to the numbers they
//! stand for.

use vstd::arithmetic::power2::{lemma_pow2_pos, lemma_pow2_strictly_increases, lemma_pow2_unfold, pow2};
use vstd::prelude::*;
use crate::channel::{
    FIXED_LN_TWO, Fixed, REDUCE_FIXEDPOINT_SCALE, Real, floor_log2, floor_sqrt, is_floor_sqrt,
    lemma_wrap_signed_small,
};
use crate::smooth::Smooth;

verus! {

/// The class of a target that is not negative is the nearest index: the target lies at most
/// half a unit from it, and halfway between two indices the higher one is taken. A negative
/// target is of the first class.
pub proof fn law_fixed_class_is_nearest(a: Fixed)
    ensures
        a.raw < 0 ==> a.class_spec() == 0,
        a.raw >= 0 && a.class_spec() < usize::MAX ==> {
            let c = a.class_spec() * REDUCE_FIXEDPOINT_SCALE;
            &&& 2 * (a.raw - c) < REDUCE_FIXEDPOINT_SCALE
            &&& 2 * (c - a.raw) <= REDUCE_FIXEDPOINT_SCALE
        },
{
    let up = a.raw + 0x2000_0000;
    vstd::arithmetic::div_mod::lemma_fundamental_div_mod(up, 0x4000_0000);
    vstd::arithmetic::div_mod::lemma_mod_bound(up, 0x4000_0000);
}

/// A product is rounded down by less than a step.
pub proof fn law_fixed_product_rounds_down(a: Fixed, b: Fixed)
    requires
        i64::MIN <= (a.raw * b.raw) / (REDUCE_FIXEDPOINT_SCALE as int) <= i64::MAX,
    ensures
        a.times_spec(b).raw * REDUCE_FIXEDPOINT_SCALE <= a.raw * b.raw < (a.times_spec(b).raw + 1) * REDUCE_FIXEDPOINT_SCALE,
{
    let p = a.raw * b.raw;
    let s = REDUCE_FIXEDPOINT_SCALE as int;
    vstd::arithmetic::div_mod::lemma_fundamental_div_mod(p, s);
    vstd::arithmetic::div_mod::lemma_mod_bound(p, s);
    lemma_wrap_signed_small((p / s) as i64);
}

/// A quotient by a positive number is rounded down by less than a step.
pub proof fn law_fixed_quotient_rounds_down(a: Fixed, b: Fixed)
    requires
        b.raw > 0,
        i64::MIN <= (a.raw * REDUCE_FIXEDPOINT_SCALE) / (b.raw as int) <= i64::MAX,
    ensures
        a.over_spec(b).raw * b.raw <= a.raw * REDUCE_FIXEDPOINT_SCALE < (a.over_spec(b).raw + 1) * b.raw,
{
    let p = a.raw * REDUCE_FIXEDPOINT_SCALE;
    let d = b.raw as int;
    vstd::arithmetic::div_mod::lemma_fundamental_div_mod(p, d);
    vstd::arithmetic::div_mod::lemma_mod_bound(p, d);
    let q = p / d;
    lemma_wrap_signed_small(q as i64);
    assert(d * q == q * d) by (nonlinear_arith);
    assert((q + 1) * d == q * d + d) by (nonlinear_arith);
}

proof fn lemma_root_exists(x: nat)
    ensures
        is_floor_sqrt(floor_sqrt(x), x),
    decreases x,
{
    if x == 0 {
        let none: nat = 0;
        assert(none * none == 0 && (none + 1) * (none + 1) == 1) by (nonlinear_arith)
            requires
                none == 0,
        ;
        assert(is_floor_sqrt(none, x));
    } else {
        let p = (x - 1) as nat;
        lemma_root_exists(p);
        let r = floor_sqrt(p);
        assert(is_floor_sqrt(r, p));
        if x < (r + 1) * (r + 1) {
            assert(is_floor_sqrt(r, x));
        } else {
            assert((r + 1) * (r + 1) < (r + 1 + 1) * (r + 1 + 1)) by (nonlinear_arith);
            assert(is_floor_sqrt(r + 1, x));
        }
    }
}

/// A square root is rounded down by less than a step: its square does not exceed the number,
/// and the square of the next step does.
pub proof fn law_fixed_root_rounds_down(a: Fixed)
    requires
        a.raw > 0,
    ensures
        ({
            let r = a.sqrt_spec().raw as int;
            &&& 0 <= r
            &&& r * r <= a.raw * REDUCE_FIXEDPOINT_SCALE < (r + 1) * (r + 1)
        }),
{
    let x = (a.raw * REDUCE_FIXEDPOINT_SCALE) as nat;
    lemma_root_exists(x);
    let r = floor_sqrt(x) as int;
    assert(r < 0x4000_0000_0000_0000) by (nonlinear_arith)
        requires
            0 <= r,
            r * r <= x,
            x <= 0x7fff_ffff_ffff_ffff * 0x4000_0000,
    ;
}

proof fn lemma_log2(x: nat)
    requires
        x >= 1,
    ensures
        pow2(floor_log2(x)) <= x < 2 * pow2(floor_log2(x)),
    decreases x,
{
    if x < 2 {
        vstd::arithmetic::power2::lemma2_to64();
    } else {
        lemma_log2(x / 2);
        lemma_pow2_unfold(1 + floor_log2(x / 2));
    }
}

/// The exponential undoes the logarithm up to a factor of two: it gives the greatest power
/// of two that is not above the number.
pub proof fn law_fixed_exp_undoes_ln(a: Fixed)
    requires
        a.raw > 0,
    ensures
        a.ln_spec().exp_spec().raw <= a.raw < 2 * a.ln_spec().exp_spec().raw,
{
    let x = a.raw as nat;
    lemma_log2(x);
    let l = floor_log2(x);
    if l > 62 {
        vstd::arithmetic::power2::lemma2_to64();
        vstd::arithmetic::power2::lemma2_to64_rest();
        if l > 63 {
            lemma_pow2_strictly_increases(63, l);
        }
        assert(pow2(63) == 0x8000_0000_0000_0000);
    }
    let k = l - 30;
    let steps = k * FIXED_LN_TWO;
    assert(-30 <= k <= 32);
    vstd::arithmetic::div_mod::lemma_div_multiples_vanish(k, FIXED_LN_TWO as int);
    assert(steps / (FIXED_LN_TWO as int) == k) by {
        assert(FIXED_LN_TWO * k == steps) by (nonlinear_arith)
            requires
                steps == k * FIXED_LN_TWO,
        ;
    }
    assert(a.ln_spec().raw == steps);
    lemma_pow2_pos(l);
    assert(pow2(l) <= x);
}

} // verus!
