//! The two-stream congruential generator behind the sampling draws.

use vstd::prelude::*;
use crate::modular::{lemma_wrap_add, lemma_wrap_gap, lemma_wrap_mul, lemma_wrap_shift, lemma_wrap_small, word_add, word_mul, word_range, wrap};

verus! {

/// The multiplier of both streams.
pub const MULTIPLIER: u64 = 6364136223846793005;

/// The next state of a stream with increment `c`.
pub open spec fn stream_step(x: u64, c: u64) -> u64 {
    wrap(x * MULTIPLIER + c)
}

/// The state of a stream after `n` steps.
pub open spec fn stream_after(x: u64, c: u64, n: nat) -> u64
    decreases n,
{
    if n == 0 {
        x
    } else {
        stream_step(stream_after(x, c, (n - 1) as nat), c)
    }
}

/// `v` rotated right by `r` places.
pub open spec fn rotated(v: u32, r: u32) -> u32 {
    (v >> r) | (v << (((32 - r) as u32) & 31))
}

/// The output that a stream state is mixed to.
pub open spec fn stream_output(x: u64) -> u32 {
    rotated(#[verifier::truncate] ((((x >> 18) ^ x) >> 27) as u32), (x >> 59) as u32)
}

/// Two 32-bit draws as one word, the first in the low half.
pub open spec fn low_high(low: u32, high: u32) -> u64 {
    (low as u64) | ((high as u64) << 32)
}

/// The increment of the stream numbered `seq`.
pub open spec fn increment_of(seq: u32) -> u64 {
    ((seq as u64) << 1) | 1
}

/// The second stream's number, told apart from the first's.
pub open spec fn distinct_seq(seq1: u32, seq2: u32) -> u32 {
    if seq1 & 0x7fff_ffff == seq2 & 0x7fff_ffff {
        !seq2
    } else {
        seq2
    }
}

/// The `k`th output of the seeding stream.
pub open spec fn seed_draw(seed: u64, k: nat) -> u32 {
    stream_output(stream_after(seed, 1, k))
}

/// The state that a seed expands to: first stream, its increment, second stream, its
/// increment.
pub open spec fn seeded_state(seed: u64) -> Seq<u64> {
    seq![
        low_high(seed_draw(seed, 1), seed_draw(seed, 2)),
        increment_of(seed_draw(seed, 3)),
        low_high(seed_draw(seed, 4), seed_draw(seed, 5)),
        increment_of(distinct_seq(seed_draw(seed, 3), seed_draw(seed, 6))),
    ]
}

/// The state after `n` draws.
pub open spec fn state_after(s: Seq<u64>, n: nat) -> Seq<u64> {
    seq![stream_after(s[0], s[1], n), s[1], stream_after(s[2], s[3], n), s[3]]
}

/// The draw that the `n`th state (counting from the first draw as one) gives.
pub open spec fn draw_of(s: Seq<u64>, n: nat) -> u64 {
    ((stream_output(stream_after(s[0], s[1], n)) as u64) << 32) | (stream_output(
        stream_after(s[2], s[3], n),
    ) as u64)
}

/// The value of an affine map modulo the word range.
pub open spec fn affine(m: u64, p: u64, y: u64) -> u64 {
    wrap(m * y + p)
}

/// The affine map `m * y + p` is `k` steps of a stream with increment `c`.
pub open spec fn jumps(m: u64, p: u64, c: u64, k: nat) -> bool {
    forall|y: u64| #[trigger] affine(m, p, y) == stream_after(y, c, k)
}

/// Steps add up.
pub proof fn lemma_stream_after_add(x: u64, c: u64, a: nat, b: nat)
    ensures
        stream_after(stream_after(x, c, a), c, b) == stream_after(x, c, a + b),
    decreases b,
{
    if b > 0 {
        lemma_stream_after_add(x, c, a, (b - 1) as nat);
    }
}

/// One affine map after another is an affine map.
proof fn lemma_affine_compose(m1: u64, p1: u64, m2: u64, p2: u64, y: u64)
    ensures
        affine(wrap(m1 * m2), wrap(p1 * m2 + p2), y) == affine(m2, p2, affine(m1, p1, y)),
{
    let inner = m1 * y + p1;
    let i = lemma_wrap_gap(inner);
    let w = word_range();
    assert(m2 * (inner - w * i) + p2 == (m1 * m2) * y + (p1 * m2 + p2) + w * (-(m2 * i))) by (nonlinear_arith)
        requires
            inner == m1 * y + p1,
    ;
    lemma_wrap_shift((m1 * m2) * y + (p1 * m2 + p2), -(m2 * i));
    lemma_wrap_mul(m1 * m2, y as int);
    lemma_wrap_add(wrap(m1 * m2) * y, p1 * m2 + p2);
    lemma_wrap_add((m1 * m2) * y, p1 * m2 + p2);
}

/// Jumps compose.
proof fn lemma_jumps_compose(m1: u64, p1: u64, k1: nat, m2: u64, p2: u64, k2: nat, c: u64)
    requires
        jumps(m1, p1, c, k1),
        jumps(m2, p2, c, k2),
    ensures
        jumps(wrap(m1 * m2), wrap(p1 * m2 + p2), c, k1 + k2),
{
    assert forall|y: u64| #[trigger]
        affine(wrap(m1 * m2), wrap(p1 * m2 + p2), y) == stream_after(y, c, k1 + k2) by {
        lemma_affine_compose(m1, p1, m2, p2, y);
        assert(affine(m1, p1, y) == stream_after(y, c, k1));
        assert(affine(m2, p2, affine(m1, p1, y)) == stream_after(affine(m1, p1, y), c, k2));
        lemma_stream_after_add(y, c, k1, k2);
    }
}

/// Steps a stream `n` times, in a number of multiplications logarithmic in `n`.
fn stream_jump(x: u64, c: u64, n: u64) -> (r: u64)
    ensures
        r == stream_after(x, c, n as nat),
{
    let mut acc_mul: u64 = 1;
    let mut acc_add: u64 = 0;
    let mut cur_mul: u64 = MULTIPLIER;
    let mut cur_add: u64 = c;
    let mut left: u64 = n;
    let ghost mut done: nat = 0;
    let ghost mut stride: nat = 1;
    proof {
        assert forall|y: u64| #[trigger] affine(1, 0, y) == stream_after(y, c, 0) by {
            lemma_wrap_small(y);
        }
        assert forall|y: u64| #[trigger] affine(MULTIPLIER, c, y) == stream_after(y, c, 1) by {
            reveal_with_fuel(stream_after, 2);
            assert(MULTIPLIER * y == y * MULTIPLIER) by (nonlinear_arith);
        }
        assert(left * stride == left) by (nonlinear_arith)
            requires
                stride == 1,
        ;
    }
    while left > 0
        invariant
            jumps(acc_mul, acc_add, c, done),
            jumps(cur_mul, cur_add, c, stride),
            done + left * stride == n,
        decreases left,
    {
        if left % 2 == 1 {
            proof {
                lemma_jumps_compose(acc_mul, acc_add, done, cur_mul, cur_add, stride, c);
                lemma_wrap_add(acc_add * cur_mul, cur_add as int);
                done = done + stride;
            }
            acc_add = word_add(word_mul(acc_add, cur_mul), cur_add);
            acc_mul = word_mul(acc_mul, cur_mul);
        }
        proof {
            lemma_jumps_compose(cur_mul, cur_add, stride, cur_mul, cur_add, stride, c);
            lemma_wrap_add(cur_add * cur_mul, cur_add as int);
            assert(left * stride == (left / 2) * (stride + stride) + (left % 2) * stride)
                by (nonlinear_arith)
                requires
                    left == (left / 2) * 2 + left % 2,
            ;
            assert((left % 2) * stride == if left % 2 == 1 { stride as int } else { 0 })
                by (nonlinear_arith)
                requires
                    left % 2 == 0 || left % 2 == 1,
            ;
            stride = stride + stride;
        }
        cur_add = word_add(word_mul(cur_add, cur_mul), cur_add);
        cur_mul = word_mul(cur_mul, cur_mul);
        left = left / 2;
    }
    proof {
        assert(left * stride == 0) by (nonlinear_arith)
            requires
                left == 0,
        ;
        assert(affine(acc_mul, acc_add, x) == stream_after(x, c, n as nat));
        lemma_wrap_add(acc_mul * x, acc_add as int);
    }
    word_add(word_mul(acc_mul, x), acc_add)
}

/// Steps a stream once.
fn stream_next(x: u64, c: u64) -> (r: u64)
    ensures
        r == stream_step(x, c),
{
    proof {
        lemma_wrap_add(x * MULTIPLIER, c as int);
    }
    word_add(word_mul(x, MULTIPLIER), c)
}

/// Mixes a stream state to its output.
fn stream_mix(x: u64) -> (r: u32)
    ensures
        r == stream_output(x),
{
    proof {
        assert(x >> 59 <= 31) by (bit_vector);
        assert(forall|k: u32| #[trigger] (k & 31) <= 31) by (bit_vector);
    }
    let v: u32 = #[verifier::truncate] ((((x >> 18) ^ x) >> 27) as u32);
    let r: u32 = (x >> 59) as u32;
    let back: u32 = (32 - r) & 31;
    (v >> r) | (v << back)
}

/// A 64-bit generator made of two 32-bit streams.
pub struct TFastRng64 {
    x1: u64,
    c1: u64,
    x2: u64,
    c2: u64,
}

impl View for TFastRng64 {
    type V = Seq<u64>;

    closed spec fn view(&self) -> Seq<u64> {
        seq![self.x1, self.c1, self.x2, self.c2]
    }
}

impl Clone for TFastRng64 {
    fn clone(&self) -> (r: Self)
        ensures
            r@ == self@,
    {
        TFastRng64 { x1: self.x1, c1: self.c1, x2: self.x2, c2: self.c2 }
    }
}

impl TFastRng64 {
    /// The generator that `seed` expands to.
    pub fn from_seed(seed: u64) -> (r: Self)
        ensures
            r@ == seeded_state(seed),
    {
        proof {
            reveal_with_fuel(stream_after, 7);
        }
        let s1: u64 = stream_next(seed, 1);
        let s2: u64 = stream_next(s1, 1);
        let s3: u64 = stream_next(s2, 1);
        let s4: u64 = stream_next(s3, 1);
        let s5: u64 = stream_next(s4, 1);
        let s6: u64 = stream_next(s5, 1);
        let d1: u32 = stream_mix(s1);
        let d2: u32 = stream_mix(s2);
        let d3: u32 = stream_mix(s3);
        let d4: u32 = stream_mix(s4);
        let d5: u32 = stream_mix(s5);
        let d6: u32 = stream_mix(s6);
        let seq2: u32 = if d3 & 0x7fff_ffff == d6 & 0x7fff_ffff {
            !d6
        } else {
            d6
        };
        let r = TFastRng64 {
            x1: (d1 as u64) | ((d2 as u64) << 32),
            c1: ((d3 as u64) << 1) | 1,
            x2: (d4 as u64) | ((d5 as u64) << 32),
            c2: ((seq2 as u64) << 1) | 1,
        };
        assert(r@ =~= seeded_state(seed));
        r
    }

    /// The four words of the state.
    pub fn raw_state(&self) -> (r: [u64; 4])
        ensures
            r@ == self@,
            self@.len() == 4,
    {
        let r: [u64; 4] = [self.x1, self.c1, self.x2, self.c2];
        assert(r@ =~= self@);
        r
    }

    /// Draws the next word.
    pub fn gen_rand(&mut self) -> (r: u64)
        ensures
            r == draw_of(old(self)@, 1),
            final(self)@ == state_after(old(self)@, 1),
    {
        proof {
            reveal_with_fuel(stream_after, 2);
        }
        self.x1 = stream_next(self.x1, self.c1);
        self.x2 = stream_next(self.x2, self.c2);
        assert(self@ =~= state_after(old(self)@, 1));
        ((stream_mix(self.x1) as u64) << 32) | (stream_mix(self.x2) as u64)
    }

    /// Skips `n` draws.
    pub fn advance(&mut self, n: u64)
        ensures
            final(self)@ == state_after(old(self)@, n as nat),
    {
        self.x1 = stream_jump(self.x1, self.c1, n);
        self.x2 = stream_jump(self.x2, self.c2, n);
        assert(self@ =~= state_after(old(self)@, n as nat));
    }
}

/// Skipping `a` draws and then `b` is skipping `a + b`.
pub proof fn law_advance_adds_up(s: Seq<u64>, a: nat, b: nat)
    ensures
        state_after(state_after(s, a), b) == state_after(s, a + b),
{
    lemma_stream_after_add(s[0], s[1], a, b);
    lemma_stream_after_add(s[2], s[3], a, b);
}

/// The draw after `n` skipped ones is the draw after `n` taken ones.
pub proof fn law_draw_after_advance(s: Seq<u64>, n: nat)
    ensures
        draw_of(state_after(s, n), 1) == draw_of(s, n + 1),
{
    lemma_stream_after_add(s[0], s[1], n, 1);
    lemma_stream_after_add(s[2], s[3], n, 1);
}

/// Whatever the seed, the two streams step by odd increments that differ in their low half,
/// so that they never run alike: where the draws of the two numbers clash, the second number
/// is turned over.
pub proof fn law_streams_are_told_apart(seed: u64)
    ensures
        seeded_state(seed)[1] & 1 == 1,
        seeded_state(seed)[3] & 1 == 1,
        (seeded_state(seed)[1] ^ seeded_state(seed)[3]) & 0xffff_ffff != 0,
        ({
            let (first, second) = (seed_draw(seed, 3), seed_draw(seed, 6));
            let own: u32 = if first & 0x7fff_ffff == second & 0x7fff_ffff { !second } else { second };
            &&& seeded_state(seed)[1] == ((first as u64) << 1) | 1
            &&& seeded_state(seed)[3] == ((own as u64) << 1) | 1
        }),
{
    let a = seed_draw(seed, 3);
    let b = seed_draw(seed, 6);
    let c: u32 = !b;
    let (x, y, z): (u64, u64, u64) = (((a as u64) << 1) | 1, ((b as u64) << 1) | 1, ((c as u64) << 1) | 1);
    assert(x & 1 == 1 && y & 1 == 1 && z & 1 == 1 && (a & 0x7fff_ffff != b & 0x7fff_ffff ==> (x ^ y) & 0xffff_ffff != 0) && (a
        & 0x7fff_ffff == b & 0x7fff_ffff ==> (x ^ z) & 0xffff_ffff != 0)) by (bit_vector)
        requires
            c == !b,
            x == ((a as u64) << 1u64) | 1,
            y == ((b as u64) << 1u64) | 1,
            z == ((c as u64) << 1u64) | 1,
    ;
}

} // verus!
