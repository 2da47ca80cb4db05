//! Arithmetic modulo the `u64` range.

use vstd::prelude::*;
use vstd::arithmetic::div_mod::{lemma_mod_multiples_vanish, lemma_small_mod};

verus! {

/// The number of `u64` values.
pub open spec fn word_range() -> int {
    0x1_0000_0000_0000_0000
}

/// The `u64` that an integer wraps to.
pub open spec fn wrap(x: int) -> u64 {
    (x % word_range()) as u64
}

/// Whole multiples of the range do not change what an integer wraps to.
pub proof fn lemma_wrap_shift(x: int, k: int)
    ensures
        wrap(x + word_range() * k) == wrap(x),
{
    lemma_mod_multiples_vanish(k, x, word_range());
}

/// A wrapped integer differs from the integer by a multiple of the range.
pub proof fn lemma_wrap_gap(x: int) -> (k: int)
    ensures
        wrap(x) == x - word_range() * k,
{
    let k = x / word_range();
    vstd::arithmetic::div_mod::lemma_fundamental_div_mod(x, word_range());
    k
}

/// A `u64` wraps to itself.
pub proof fn lemma_wrap_small(x: u64)
    ensures
        wrap(x as int) == x,
{
    lemma_small_mod(x as nat, word_range() as nat);
}

/// Wrapping a summand first does not change a wrapped sum.
pub proof fn lemma_wrap_add(x: int, y: int)
    ensures
        wrap(wrap(x) + y) == wrap(x + y),
        wrap(x + wrap(y)) == wrap(x + y),
        wrap(wrap(x) + wrap(y)) == wrap(x + y),
{
    let i = lemma_wrap_gap(x);
    let j = lemma_wrap_gap(y);
    lemma_wrap_shift(x + y, -i);
    lemma_wrap_shift(x + y, -j);
    lemma_wrap_shift(x + y, -i - j);
    assert(word_range() * (-i) == -(word_range() * i)) by (nonlinear_arith);
    assert(word_range() * (-j) == -(word_range() * j)) by (nonlinear_arith);
    assert(word_range() * (-i - j) == -(word_range() * i) - (word_range() * j)) by (nonlinear_arith);
}

/// Wrapping a factor first does not change a wrapped product.
pub proof fn lemma_wrap_mul(x: int, y: int)
    ensures
        wrap(wrap(x) * y) == wrap(x * y),
        wrap(y * wrap(x)) == wrap(y * x),
{
    let i = lemma_wrap_gap(x);
    let w = word_range();
    lemma_wrap_shift(x * y, -(i * y));
    assert((x - w * i) * y == x * y + w * (-(i * y))) by (nonlinear_arith);
    assert(y * (x - w * i) == x * y + w * (-(i * y))) by (nonlinear_arith);
    assert(y * x == x * y) by (nonlinear_arith);
}

/// The wrapping sum of two words is what their sum wraps to.
pub proof fn lemma_wrapping_add(x: u64, y: u64)
    ensures
        vstd::wrapping::u64_specs::wrapping_add(x, y) == wrap(x + y),
{
    if x + y > u64::MAX {
        lemma_wrap_shift(x + y - word_range(), 1);
        lemma_wrap_small((x + y - word_range()) as u64);
    } else {
        lemma_wrap_small((x + y) as u64);
    }
}

/// Adds two words modulo the range.
pub fn word_add(x: u64, y: u64) -> (r: u64)
    ensures
        r == wrap(x + y),
{
    proof {
        lemma_wrapping_add(x, y);
    }
    x.wrapping_add(y)
}

/// Subtracts two words modulo the range.
pub fn word_sub(x: u64, y: u64) -> (r: u64)
    ensures
        r == wrap(x - y),
{
    proof {
        if x - y < 0 {
            lemma_wrap_shift(x - y, 1);
            lemma_wrap_small((x - y + word_range()) as u64);
        } else {
            lemma_wrap_small((x - y) as u64);
        }
    }
    x.wrapping_sub(y)
}

/// Multiplies two words modulo the range.
pub fn word_mul(x: u64, y: u64) -> (r: u64)
    ensures
        r == wrap(x * y),
{
    x.wrapping_mul(y)
}

} // verus!
