//! Elements with the elementary functions that the losses are made of.

use vstd::arithmetic::power2::pow2;
use vstd::prelude::*;
use crate::channel::{Channel, Fixed, Real, FIXED_LN_TWO, floor_div};

verus! {

/// An element that losses can be derived on.
pub trait Smooth: Real {
    spec fn half_spec() -> Self;

    /// The least probability that a focal loss reckons with.
    spec fn chance_spec() -> Self;

    spec fn abs_spec(self) -> Self;

    spec fn exp_spec(self) -> Self;

    spec fn powf_spec(self, e: Self) -> Self;

    spec fn tanh_spec(self) -> Self;

    spec fn cosh_spec(self) -> Self;

    /// The class that a target names: the nearest index, zero where the target is negative
    /// or no finite number.
    spec fn class_spec(self) -> usize;

    /// The word by which a number that is not negative is sorted.
    spec fn sort_key_spec(self) -> u64;

    /// The words of two numbers that are not negative compare as the numbers do.
    proof fn sort_key_laws(a: Self, b: Self)
        ensures
            a.is_number() && b.is_number() && !Self::zero_spec().above_spec(a) && !Self::zero_spec().above_spec(b) ==> (
            a.above_spec(b) <==> a.sort_key_spec() > b.sort_key_spec()),
    ;

    fn half() -> (r: Self)
        ensures
            r == Self::half_spec(),
    ;

    fn chance() -> (r: Self)
        ensures
            r == Self::chance_spec(),
    ;

    fn abs(self) -> (r: Self)
        ensures
            r == self.abs_spec(),
    ;

    fn exp(self) -> (r: Self)
        ensures
            r == self.exp_spec(),
    ;

    fn powf(self, e: Self) -> (r: Self)
        ensures
            r == self.powf_spec(e),
    ;

    fn tanh(self) -> (r: Self)
        ensures
            r == self.tanh_spec(),
    ;

    fn cosh(self) -> (r: Self)
        ensures
            r == self.cosh_spec(),
    ;

    fn class(self) -> (r: usize)
        ensures
            r == self.class_spec(),
    ;

    fn sort_key(self) -> (r: u64)
        ensures
            r == self.sort_key_spec(),
    ;
}

/// The exponential of a fixed-point number: the power of two below it, in steps.
pub open spec fn fixed_exp(raw: int) -> int {
    let k = raw / (FIXED_LN_TWO as int);
    if k < -30 {
        0
    } else if k > 32 {
        i64::MAX as int
    } else {
        pow2((k + 30) as nat) as int
    }
}

impl Smooth for Fixed {
    open spec fn half_spec() -> Self {
        Fixed { raw: 0x2000_0000 }
    }

    open spec fn chance_spec() -> Self {
        Fixed { raw: 1 }
    }

    open spec fn abs_spec(self) -> Self {
        if self.raw < 0 {
            self.negated_spec()
        } else {
            self
        }
    }

    open spec fn exp_spec(self) -> Self {
        Fixed { raw: fixed_exp(self.raw as int) as i64 }
    }

    open spec fn powf_spec(self, e: Self) -> Self {
        e.times_spec(self.ln_spec()).exp_spec()
    }

    open spec fn tanh_spec(self) -> Self {
        let up = self.exp_spec();
        let down = self.negated_spec().exp_spec();
        up.minus_spec(down).over_spec(up.plus_spec(down))
    }

    open spec fn cosh_spec(self) -> Self {
        Self::half_spec().times_spec(self.exp_spec().plus_spec(self.negated_spec().exp_spec()))
    }

    /// The nearest index, or the greatest one where none is that great.
    open spec fn class_spec(self) -> usize {
        let nearest = (self.raw + 0x2000_0000) / 0x4000_0000;
        if self.raw < 0 {
            0
        } else if nearest <= usize::MAX {
            nearest as usize
        } else {
            usize::MAX
        }
    }

    open spec fn sort_key_spec(self) -> u64 {
        if self.raw < 0 {
            0
        } else {
            self.raw as u64
        }
    }

    proof fn sort_key_laws(a: Self, b: Self) {
    }

    fn half() -> (r: Self) {
        Fixed { raw: 0x2000_0000 }
    }

    fn chance() -> (r: Self) {
        Fixed { raw: 1 }
    }

    fn abs(self) -> (r: Self) {
        if self.raw < 0 {
            self.negated()
        } else {
            self
        }
    }

    fn exp(self) -> (r: Self) {
        let k: i128 = floor_div(self.raw as i128, 744261117);
        if k < -30 {
            return Fixed { raw: 0 };
        }
        if k > 32 {
            return Fixed { raw: i64::MAX };
        }
        let n: i64 = k as i64 + 30;
        let mut v: i64 = 1;
        let mut i: i64 = 0;
        proof {
            vstd::arithmetic::power2::lemma2_to64();
        }
        while i < n
            invariant
                0 <= i <= n <= 62,
                v == pow2(i as nat),
            decreases n - i,
        {
            proof {
                vstd::arithmetic::power2::lemma_pow2_unfold((i + 1) as nat);
                lemma_pow2_below((i + 1) as nat);
            }
            v = v * 2;
            i = i + 1;
        }
        proof {
            lemma_pow2_below(n as nat);
        }
        Fixed { raw: v }
    }

    fn powf(self, e: Self) -> (r: Self) {
        e.times(self.ln()).exp()
    }

    fn tanh(self) -> (r: Self) {
        let up: Fixed = self.exp();
        let down: Fixed = self.negated().exp();
        up.minus(down).over(up.plus(down))
    }

    fn cosh(self) -> (r: Self) {
        Self::half().times(self.exp().plus(self.negated().exp()))
    }

    fn class(self) -> (r: usize) {
        if self.raw < 0 {
            return 0;
        }
        let wide: u64 = (self.raw as u64 + 0x2000_0000) / 0x4000_0000;
        if wide <= usize::MAX as u64 {
            wide as usize
        } else {
            usize::MAX
        }
    }

    fn sort_key(self) -> (r: u64) {
        if self.raw < 0 {
            0
        } else {
            self.raw as u64
        }
    }
}

/// The powers of two that fit a fixed-point number.
proof fn lemma_pow2_below(n: nat)
    requires
        n <= 62,
    ensures
        1 <= pow2(n) <= 0x4000_0000_0000_0000,
{
    vstd::arithmetic::power2::lemma2_to64();
    vstd::arithmetic::power2::lemma2_to64_rest();
    if n < 62 {
        vstd::arithmetic::power2::lemma_pow2_strictly_increases(n, 62);
    }
    vstd::arithmetic::power2::lemma_pow2_pos(n);
}

} // verus!
