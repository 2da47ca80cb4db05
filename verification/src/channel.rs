//! The values that histogram channels and scores are made of.
//!
//! The kernels are generic in their element: they add, compare and combine elements and
//! rely on nothing else. Each operation of an element stands beside the spec function that
//! it is proved to compute. [`Fixed`] is the fixed-point element, `u64` is the raw
//! fixed-point accumulator.

use vstd::prelude::*;
use crate::modular::{lemma_wrap_add, lemma_wrap_shift, lemma_wrap_small, word_add, word_sub, wrap};

verus! {

/// An element that can be accumulated.
pub trait Channel: Sized + Copy {
    /// The value a cell starts from.
    spec fn zero_spec() -> Self;

    /// The cell value after one more contribution.
    spec fn plus_spec(self, other: Self) -> Self;

    fn zero() -> (r: Self)
        ensures
            r == Self::zero_spec(),
    ;

    fn plus(self, other: Self) -> (r: Self)
        ensures
            r == self.plus_spec(other),
    ;
}

/// An element whose sums depend neither on the order of the summands nor on how they are
/// grouped, and can be taken back.
pub trait Additive: Channel {
    /// The sum without its last contribution.
    spec fn less_spec(self, other: Self) -> Self;

    proof fn sum_laws(a: Self, b: Self, c: Self)
        ensures
            a.plus_spec(b.plus_spec(c)) == a.plus_spec(b).plus_spec(c),
            a.plus_spec(b) == b.plus_spec(a),
            a.plus_spec(Self::zero_spec()) == a,
            a.plus_spec(b).less_spec(b) == a,
    ;

    fn less(self, other: Self) -> (r: Self)
        ensures
            r == self.less_spec(other),
    ;
}

/// An element that can also be scored and compared.
///
/// The order is partial: an element that is no number compares with nothing.
pub trait Real: Channel {
    spec fn one_spec() -> Self;

    /// Below every number.
    spec fn bottom_spec() -> Self;

    /// The gain that a candidate has to exceed to be selected by a kernel.
    spec fn floor_spec() -> Self;

    /// What the denominator of a cosine score starts from.
    spec fn tiny_spec() -> Self;

    /// The weight that a solar leaf term has to exceed.
    spec fn eps_spec() -> Self;

    spec fn negated_spec(self) -> Self;

    spec fn sqrt_spec(self) -> Self;

    spec fn ln_spec(self) -> Self;

    spec fn minus_spec(self, other: Self) -> Self;

    spec fn times_spec(self, other: Self) -> Self;

    spec fn over_spec(self, other: Self) -> Self;

    /// The element rounded to the precision of a residual column.
    spec fn narrow_spec(self) -> Self;

    /// The element that a count stands for.
    spec fn count_spec(n: usize) -> Self;

    /// The element that a raw fixed-point accumulator stands for.
    spec fn decode_spec(raw: u64) -> Self;

    /// The raw fixed-point word nearest to the element.
    spec fn encode_spec(self) -> u64;

    spec fn is_number(self) -> bool;

    spec fn above_spec(self, other: Self) -> bool;

    /// `above` is a strict order on numbers, and two numbers neither of which is above
    /// the other compare alike with every third.
    proof fn order_laws(a: Self, b: Self, c: Self)
        ensures
            a.above_spec(b) ==> a.is_number() && b.is_number() && !b.above_spec(a),
            a.above_spec(b) && b.above_spec(c) ==> a.above_spec(c),
            a.above_spec(c) && b.is_number() ==> a.above_spec(b) || b.above_spec(c),
            !Self::bottom_spec().above_spec(a),
            Self::floor_spec().is_number(),
            Self::bottom_spec().is_number(),
    ;

    fn one() -> (r: Self)
        ensures
            r == Self::one_spec(),
    ;

    fn bottom() -> (r: Self)
        ensures
            r == Self::bottom_spec(),
    ;

    fn floor() -> (r: Self)
        ensures
            r == Self::floor_spec(),
    ;

    fn tiny() -> (r: Self)
        ensures
            r == Self::tiny_spec(),
    ;

    fn eps() -> (r: Self)
        ensures
            r == Self::eps_spec(),
    ;

    fn negated(self) -> (r: Self)
        ensures
            r == self.negated_spec(),
    ;

    fn sqrt(self) -> (r: Self)
        ensures
            r == self.sqrt_spec(),
    ;

    fn ln(self) -> (r: Self)
        ensures
            r == self.ln_spec(),
    ;

    fn minus(self, other: Self) -> (r: Self)
        ensures
            r == self.minus_spec(other),
    ;

    fn times(self, other: Self) -> (r: Self)
        ensures
            r == self.times_spec(other),
    ;

    fn over(self, other: Self) -> (r: Self)
        ensures
            r == self.over_spec(other),
    ;

    fn narrow(self) -> (r: Self)
        ensures
            r == self.narrow_spec(),
    ;

    fn count(n: usize) -> (r: Self)
        ensures
            r == Self::count_spec(n),
    ;

    fn decode(raw: u64) -> (r: Self)
        ensures
            r == Self::decode_spec(raw),
    ;

    fn encode(self) -> (r: u64)
        ensures
            r == self.encode_spec(),
    ;

    fn above(self, other: Self) -> (r: bool)
        ensures
            r == self.above_spec(other),
    ;

    /// Whether two numbers compare equal.
    fn ties(self, other: Self) -> (r: bool)
        ensures
            r == (self.is_number() && other.is_number() && !self.above_spec(other)
                && !other.above_spec(self)),
    ;
}

/// Two numbers neither of which is above the other.
pub open spec fn ties_spec<F: Real>(a: F, b: F) -> bool {
    a.is_number() && b.is_number() && !a.above_spec(b) && !b.above_spec(a)
}

impl Channel for u64 {
    open spec fn zero_spec() -> Self {
        0
    }

    open spec fn plus_spec(self, other: Self) -> Self {
        wrap(self + other)
    }

    fn zero() -> (r: Self) {
        0
    }

    fn plus(self, other: Self) -> (r: Self) {
        word_add(self, other)
    }
}

impl Additive for u64 {
    open spec fn less_spec(self, other: Self) -> Self {
        wrap(self - other)
    }

    proof fn sum_laws(a: Self, b: Self, c: Self) {
        lemma_wrap_add(a as int, b + c);
        lemma_wrap_add(a + b, c as int);
        lemma_wrap_add(a + b, -(b as int));
        lemma_wrap_small(a);
    }

    fn less(self, other: Self) -> (r: Self) {
        word_sub(self, other)
    }
}

/// The number of fixed-point steps in one unit.
pub const REDUCE_FIXEDPOINT_SCALE: i64 = 0x4000_0000;

/// A fixed-point number, counted in steps of one `REDUCE_FIXEDPOINT_SCALE`th.
#[derive(Clone, Copy, Debug, PartialEq, Eq, Structural)]
pub struct Fixed {
    pub raw: i64,
}

/// The `i64` that an integer wraps to.
pub open spec fn wrap_signed(x: int) -> i64 {
    if wrap(x) < 0x8000_0000_0000_0000 {
        wrap(x) as i64
    } else {
        (wrap(x) - 0x1_0000_0000_0000_0000) as i64
    }
}

/// The signed number with the bits of `x`.
fn signed_of(x: u64) -> (r: i64)
    ensures
        r == wrap_signed(x as int),
{
    proof {
        lemma_wrap_small(x);
    }
    if x < 0x8000_0000_0000_0000 {
        x as i64
    } else {
        -((0xffff_ffff_ffff_ffff - x) as i64) - 1
    }
}

/// Wraps a wide intermediate to the fixed-point range.
fn wrap_wide(x: i128) -> (r: i64)
    ensures
        r == wrap_signed(x as int),
{
    proof {
        assert((#[verifier::truncate] (x as u64)) as int == (x as int) % 0x1_0000_0000_0000_0000) by (bit_vector);
        lemma_wrap_small(wrap(x as int));
    }
    signed_of(#[verifier::truncate] (x as u64))
}

/// The quotient rounded down, for a positive divisor.
pub(crate) fn floor_div(x: i128, d: i128) -> (r: i128)
    requires
        0 < d <= 0x8000_0000_0000_0000,
        -0x4000_0000_0000_0000_0000_0000_0000_0000 <= x <= 0x4000_0000_0000_0000_0000_0000_0000_0000,
    ensures
        r == (x as int) / (d as int),
{
    let ud: u128 = d as u128;
    if x >= 0 {
        let q: u128 = (x as u128) / ud;
        proof {
            assert(q <= x) by (nonlinear_arith)
                requires
                    q == (x as u128) / ud,
                    ud > 0,
                    x >= 0,
            ;
        }
        q as i128
    } else {
        let up: u128 = ((-x) as u128) + (ud - 1);
        let q: u128 = up / ud;
        proof {
            let r = up % ud;
            vstd::arithmetic::div_mod::lemma_fundamental_div_mod(up as int, ud as int);
            assert(x == (-q) * d + (d - 1 - r)) by (nonlinear_arith)
                requires
                    up == ud * q + r,
                    up == -x + (ud - 1),
                    ud == d,
            ;
            vstd::arithmetic::div_mod::lemma_fundamental_div_mod_converse(x as int, d as int, -(q as int), d - 1 - r);
            assert(q <= up) by (nonlinear_arith)
                requires
                    q == up / ud,
                    ud > 0,
            ;
        }
        -(q as i128)
    }
}

/// The natural logarithm of two in fixed-point steps.
pub const FIXED_LN_TWO: i64 = 744261117;

/// The largest root whose square is not above `x`.
pub open spec fn floor_sqrt(x: nat) -> nat {
    choose|r: nat| #[trigger] is_floor_sqrt(r, x)
}

pub open spec fn is_floor_sqrt(r: nat, x: nat) -> bool {
    r * r <= x < (r + 1) * (r + 1)
}

/// The exponent of the largest power of two that is not above `x`.
pub open spec fn floor_log2(x: nat) -> nat
    decreases x,
{
    if x < 2 {
        0
    } else {
        1 + floor_log2(x / 2)
    }
}

proof fn lemma_floor_sqrt_unique(r: nat, x: nat)
    requires
        is_floor_sqrt(r, x),
    ensures
        floor_sqrt(x) == r,
{
    let q = floor_sqrt(x);
    assert(is_floor_sqrt(q, x));
    assert(q == r) by (nonlinear_arith)
        requires
            q * q <= x < (q + 1) * (q + 1),
            r * r <= x < (r + 1) * (r + 1),
    ;
}

/// `floor_log2` grows by at most one per doubling.
proof fn lemma_floor_log2_bound(x: nat, k: nat)
    requires
        x < vstd::arithmetic::power2::pow2(k),
        k >= 1,
    ensures
        floor_log2(x) < k,
    decreases k,
{
    if x >= 2 {
        vstd::arithmetic::power2::lemma_pow2_unfold(k);
        if k == 1 {
            vstd::arithmetic::power2::lemma2_to64();
        } else {
            lemma_floor_log2_bound(x / 2, (k - 1) as nat);
        }
    }
}

/// The square root of a wide number, rounded down.
fn root_of(x: u128) -> (r: u64)
    requires
        x < 0x4000_0000_0000_0000_0000_0000,
    ensures
        r == floor_sqrt(x as nat),
        r < 0x8000_0000_0000,
{
    let mut lo: u64 = 0;
    let mut hi: u64 = 0x8000_0000_0000;
    while lo + 1 < hi
        invariant
            lo < hi <= 0x8000_0000_0000,
            lo * lo <= x < hi * hi,
        decreases hi - lo,
    {
        let mid: u64 = lo + (hi - lo) / 2;
        proof {
            assert(mid * mid <= 0x8000_0000_0000 * 0x8000_0000_0000) by (nonlinear_arith)
                requires
                    0 <= mid <= 0x8000_0000_0000,
            ;
        }
        if (mid as u128) * (mid as u128) <= x {
            lo = mid;
        } else {
            hi = mid;
        }
    }
    proof {
        assert(hi == lo + 1);
        lemma_floor_sqrt_unique(lo as nat, x as nat);
    }
    lo
}

impl Channel for Fixed {
    open spec fn zero_spec() -> Self {
        Fixed { raw: 0 }
    }

    open spec fn plus_spec(self, other: Self) -> Self {
        Fixed { raw: wrap_signed(self.raw + other.raw) }
    }

    fn zero() -> (r: Self) {
        Fixed { raw: 0 }
    }

    fn plus(self, other: Self) -> (r: Self) {
        Fixed { raw: wrap_wide(self.raw as i128 + other.raw as i128) }
    }
}

/// The wrapped word of a wrapped number.
pub(crate) proof fn lemma_wrap_signed(x: int)
    ensures
        wrap(wrap_signed(x) as int) == wrap(x),
{
    lemma_wrap_small(wrap(x));
    if wrap(x) >= 0x8000_0000_0000_0000 {
        lemma_wrap_shift(wrap(x) as int, -1);
    }
}

/// Numbers that wrap to the same word wrap to the same number.
proof fn lemma_wrap_signed_same(x: int, y: int)
    requires
        wrap(x) == wrap(y),
    ensures
        wrap_signed(x) == wrap_signed(y),
{
}

/// A number in range wraps to itself.
pub(crate) proof fn lemma_wrap_signed_small(x: i64)
    ensures
        wrap_signed(x as int) == x,
{
    if x >= 0 {
        lemma_wrap_small(x as u64);
    } else {
        lemma_wrap_shift(x as int, 1);
        lemma_wrap_small((x + 0x1_0000_0000_0000_0000) as u64);
    }
}

/// Wrapping a summand first does not change a wrapped sum.
proof fn lemma_wrap_signed_add(x: int, y: int)
    ensures
        wrap_signed(wrap_signed(x) + y) == wrap_signed(x + y),
{
    lemma_wrap_signed(x);
    lemma_wrap_add(x, y);
    lemma_wrap_add(wrap_signed(x) as int, y);
    lemma_wrap_signed_same(wrap_signed(x) + y, x + y);
}

impl Additive for Fixed {
    open spec fn less_spec(self, other: Self) -> Self {
        self.minus_spec(other)
    }

    proof fn sum_laws(a: Self, b: Self, c: Self) {
        lemma_wrap_signed_add(b.raw + c.raw, a.raw as int);
        lemma_wrap_signed_add(a.raw + b.raw, c.raw as int);
        lemma_wrap_signed_add(a.raw + b.raw, -(b.raw as int));
        lemma_wrap_signed_small(a.raw);
    }

    fn less(self, other: Self) -> (r: Self) {
        self.minus(other)
    }
}

/// A fixed-point number is its word exactly, and the words add up as the numbers do.
pub proof fn law_fixed_words_are_exact(a: Fixed, b: Fixed)
    ensures
        Fixed::decode_spec(a.encode_spec()) == a,
        Fixed::decode_spec(a.encode_spec().plus_spec(b.encode_spec())) == a.plus_spec(b),
{
    lemma_wrap_small(a.encode_spec());
    lemma_wrap_signed_small(a.raw);
    lemma_wrap_signed_same(a.encode_spec() as int, a.raw as int);
    lemma_wrap_add(a.raw as int, b.raw as int);
    lemma_wrap_small(a.encode_spec().plus_spec(b.encode_spec()));
    lemma_wrap_signed_same(a.encode_spec().plus_spec(b.encode_spec()) as int, a.raw + b.raw);
}

impl Real for Fixed {
    open spec fn one_spec() -> Self {
        Fixed { raw: REDUCE_FIXEDPOINT_SCALE }
    }

    open spec fn bottom_spec() -> Self {
        Fixed { raw: i64::MIN }
    }

    open spec fn floor_spec() -> Self {
        Fixed { raw: i64::MIN }
    }

    open spec fn tiny_spec() -> Self {
        Fixed { raw: 1 }
    }

    open spec fn eps_spec() -> Self {
        Fixed { raw: 0 }
    }

    open spec fn negated_spec(self) -> Self {
        Fixed { raw: wrap_signed(-(self.raw as int)) }
    }

    /// The square root rounded down; zero where the number is negative.
    open spec fn sqrt_spec(self) -> Self {
        if self.raw <= 0 {
            Fixed { raw: 0 }
        } else {
            Fixed { raw: floor_sqrt((self.raw * REDUCE_FIXEDPOINT_SCALE) as nat) as i64 }
        }
    }

    /// The logarithm of the largest power of two that is not above the number; zero where
    /// the number is not positive.
    open spec fn ln_spec(self) -> Self {
        if self.raw <= 0 {
            Fixed { raw: 0 }
        } else {
            Fixed { raw: ((floor_log2(self.raw as nat) - 30) * FIXED_LN_TWO) as i64 }
        }
    }

    open spec fn minus_spec(self, other: Self) -> Self {
        Fixed { raw: wrap_signed(self.raw - other.raw) }
    }

    open spec fn times_spec(self, other: Self) -> Self {
        Fixed { raw: wrap_signed((self.raw * other.raw) / (REDUCE_FIXEDPOINT_SCALE as int)) }
    }

    /// The quotient rounded down; zero where the divisor is zero.
    open spec fn over_spec(self, other: Self) -> Self {
        if other.raw == 0 {
            Fixed { raw: 0 }
        } else if other.raw > 0 {
            Fixed {
                raw: wrap_signed((self.raw * REDUCE_FIXEDPOINT_SCALE) / (other.raw as int)),
            }
        } else {
            Fixed {
                raw: wrap_signed((-(self.raw * REDUCE_FIXEDPOINT_SCALE)) / (-(other.raw as int))),
            }
        }
    }

    open spec fn narrow_spec(self) -> Self {
        self
    }

    open spec fn count_spec(n: usize) -> Self {
        Fixed { raw: wrap_signed(n * REDUCE_FIXEDPOINT_SCALE) }
    }

    open spec fn decode_spec(raw: u64) -> Self {
        Fixed { raw: wrap_signed(raw as int) }
    }

    open spec fn encode_spec(self) -> u64 {
        wrap(self.raw as int)
    }

    open spec fn is_number(self) -> bool {
        true
    }

    open spec fn above_spec(self, other: Self) -> bool {
        self.raw > other.raw
    }

    proof fn order_laws(a: Self, b: Self, c: Self) {
    }

    fn one() -> (r: Self) {
        Fixed { raw: REDUCE_FIXEDPOINT_SCALE }
    }

    fn bottom() -> (r: Self) {
        Fixed { raw: i64::MIN }
    }

    fn floor() -> (r: Self) {
        Fixed { raw: i64::MIN }
    }

    fn tiny() -> (r: Self) {
        Fixed { raw: 1 }
    }

    fn eps() -> (r: Self) {
        Fixed { raw: 0 }
    }

    fn negated(self) -> (r: Self) {
        Fixed { raw: wrap_wide(-(self.raw as i128)) }
    }

    fn sqrt(self) -> (r: Self) {
        if self.raw <= 0 {
            Fixed { raw: 0 }
        } else {
            Fixed { raw: root_of(self.raw as u128 * 0x4000_0000) as i64 }
        }
    }

    fn ln(self) -> (r: Self) {
        if self.raw <= 0 {
            Fixed { raw: 0 }
        } else {
            let mut v: i64 = self.raw;
            proof {
                vstd::arithmetic::power2::lemma2_to64();
                lemma_floor_log2_bound(self.raw as nat, 64);
            }
            let mut k: i64 = 0;
            while v >= 2
                invariant
                    1 <= v,
                    0 <= k,
                    k + floor_log2(v as nat) == floor_log2(self.raw as nat),
                    floor_log2(self.raw as nat) < 64,
                decreases v,
            {
                v = v / 2;
                k = k + 1;
            }
            Fixed { raw: (k - 30) * 744261117 }
        }
    }

    fn minus(self, other: Self) -> (r: Self) {
        Fixed { raw: wrap_wide(self.raw as i128 - other.raw as i128) }
    }

    fn times(self, other: Self) -> (r: Self) {
        proof {
            let a = self.raw;
            let b = other.raw;
            assert(-0x4000_0000_0000_0000_0000_0000_0000_0000 <= a * b
                <= 0x4000_0000_0000_0000_0000_0000_0000_0000) by (nonlinear_arith)
                requires
                    -0x8000_0000_0000_0000 <= a <= 0x7fff_ffff_ffff_ffff,
                    -0x8000_0000_0000_0000 <= b <= 0x7fff_ffff_ffff_ffff,
            ;
        }
        let p: i128 = self.raw as i128 * other.raw as i128;
        Fixed { raw: wrap_wide(floor_div(p, 0x4000_0000)) }
    }

    fn over(self, other: Self) -> (r: Self) {
        if other.raw == 0 {
            Fixed { raw: 0 }
        } else {
            let p: i128 = self.raw as i128 * 0x4000_0000;
            let d: i128 = other.raw as i128;
            if d > 0 {
                Fixed { raw: wrap_wide(floor_div(p, d)) }
            } else {
                Fixed { raw: wrap_wide(floor_div(-p, -d)) }
            }
        }
    }

    fn narrow(self) -> (r: Self) {
        self
    }

    fn count(n: usize) -> (r: Self) {
        Fixed { raw: wrap_wide(n as i128 * 0x4000_0000) }
    }

    fn decode(raw: u64) -> (r: Self) {
        Fixed { raw: signed_of(raw) }
    }

    fn encode(self) -> (r: u64) {
        if self.raw >= 0 {
            proof {
                lemma_wrap_small(self.raw as u64);
            }
            self.raw as u64
        } else {
            proof {
                lemma_wrap_shift(self.raw as int, 1);
                lemma_wrap_small((self.raw + 0x1_0000_0000_0000_0000) as u64);
            }
            (self.raw as i128 + 0x1_0000_0000_0000_0000) as u64
        }
    }

    fn above(self, other: Self) -> (r: bool) {
        self.raw > other.raw
    }

    fn ties(self, other: Self) -> (r: bool) {
        self.raw == other.raw
    }
}

} // verus!
