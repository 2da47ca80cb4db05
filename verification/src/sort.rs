//! Stable radix ordering, one bit per pass.

use vstd::prelude::*;
use crate::elementwise::gather_kernel;
use crate::histogram::all_below;
use crate::modular::lemma_wrap_small;
use crate::scan::{full_scan, lemma_fold_is_wrapped, range_sum, running_sums};

verus! {

/// Whether a bit of a key is set.
pub open spec fn bit_set(key: u32, bit: u32) -> bool {
    (key >> bit) & 1 == 1
}

/// The number of keys with the bit set among the first `upto`.
pub open spec fn ones(keys: Seq<u32>, bit: u32, upto: int) -> int
    decreases upto,
{
    if upto <= 0 {
        0
    } else {
        ones(keys, bit, upto - 1) + if bit_set(keys[upto - 1], bit) {
            1int
        } else {
            0int
        }
    }
}

/// Counts grow by at most one per key.
proof fn lemma_ones(keys: Seq<u32>, bit: u32, a: int, b: int)
    requires
        0 <= a <= b,
    ensures
        0 <= ones(keys, bit, a) <= ones(keys, bit, b) <= ones(keys, bit, a) + (b - a),
        ones(keys, bit, a) <= a,
    decreases b,
{
    if a < b {
        lemma_ones(keys, bit, a, b - 1);
    } else if a > 0 {
        lemma_ones(keys, bit, a - 1, a - 1);
    }
}

/// Flags the keys with the bit set.
pub fn radix_bit_flag_kernel(keys: &[u32], bit: u32) -> (r: Vec<u64>)
    requires
        bit < 32,
    ensures
        r@.len() == keys@.len(),
        forall|i: int| 0 <= i < r@.len() ==> #[trigger] r@[i] == if bit_set(keys@[i], bit) { 1u64 } else { 0u64 },
{
    let n: usize = keys.len();
    let mut flags: Vec<u64> = Vec::new();
    let mut i: usize = 0;
    while i < n
        invariant
            i <= n,
            bit < 32,
            n == keys@.len(),
            flags@.len() == i,
            forall|k: int| 0 <= k < i ==> #[trigger] flags@[k] == if bit_set(keys@[k], bit) { 1u64 } else { 0u64 },
        decreases n - i,
    {
        let f: u64 = if (keys[i] >> bit) & 1 == 1 {
            1
        } else {
            0
        };
        flags.push(f);
        i = i + 1;
    }
    flags
}

/// The flags before a position count the keys before it.
proof fn lemma_flag_sum(keys: Seq<u32>, flags: Seq<u64>, bit: u32, upto: int)
    requires
        0 <= upto <= keys.len(),
        flags.len() == keys.len(),
        forall|i: int| 0 <= i < flags.len() ==> #[trigger] flags[i] == if bit_set(keys[i], bit) { 1u64 } else { 0u64 },
    ensures
        range_sum(flags, 0, upto) == ones(keys, bit, upto),
    decreases upto,
{
    if upto > 0 {
        lemma_flag_sum(keys, flags, bit, upto - 1);
    }
}

/// Where a pass on one bit puts the key at `i`: the keys with the bit clear first.
pub open spec fn bit_position(keys: Seq<u32>, bit: u32, i: int) -> int {
    if bit_set(keys[i], bit) {
        keys.len() - ones(keys, bit, keys.len() as int) + ones(keys, bit, i)
    } else {
        i - ones(keys, bit, i)
    }
}

/// A pass is stable and separates the bit.
pub proof fn law_bit_position_order(keys: Seq<u32>, bit: u32, i: int, j: int)
    requires
        0 <= i < j < keys.len(),
    ensures
        bit_set(keys[i], bit) == bit_set(keys[j], bit) ==> bit_position(keys, bit, i) < bit_position(keys, bit, j),
        !bit_set(keys[i], bit) && bit_set(keys[j], bit) ==> bit_position(keys, bit, i) < bit_position(keys, bit, j),
        bit_set(keys[i], bit) && !bit_set(keys[j], bit) ==> bit_position(keys, bit, j) < bit_position(keys, bit, i),
        0 <= bit_position(keys, bit, i) < keys.len(),
        0 <= bit_position(keys, bit, j) < keys.len(),
{
    let n = keys.len() as int;
    lemma_ones(keys, bit, i, i + 1);
    lemma_ones(keys, bit, j, j + 1);
    lemma_ones(keys, bit, i + 1, j);
    lemma_ones(keys, bit, i + 1, n);
    lemma_ones(keys, bit, j + 1, n);
    lemma_ones(keys, bit, j, n);
    lemma_ones(keys, bit, 0, n);
}

/// A position lies inside the column.
proof fn lemma_bit_position(keys: Seq<u32>, bit: u32, i: int)
    requires
        0 <= i < keys.len(),
    ensures
        0 <= bit_position(keys, bit, i) < keys.len(),
{
    let n = keys.len() as int;
    lemma_ones(keys, bit, i, i + 1);
    lemma_ones(keys, bit, i + 1, n);
}

/// Moves the keys with the bit clear before those with the bit set, each group in its
/// order, and the values along with them.
pub fn reorder_one_bit_scatter_kernel(
    keys: &[u32],
    values: &[u32],
    ones_before: &[u64],
    bit: u32,
    total_zeros: usize,
) -> (r: (Vec<u32>, Vec<u32>))
    requires
        bit < 32,
        keys@.len() == values@.len(),
        keys@.len() == ones_before@.len(),
        forall|i: int| 0 <= i < keys@.len() ==> #[trigger] ones_before@[i] == ones(keys@, bit, i),
        total_zeros == keys@.len() - ones(keys@, bit, keys@.len() as int),
    ensures
        r.0@.len() == keys@.len(),
        r.1@.len() == keys@.len(),
        forall|i: int| 0 <= i < keys@.len() ==> r.0@[#[trigger] bit_position(keys@, bit, i)] == keys@[i],
        forall|i: int| 0 <= i < keys@.len() ==> r.1@[#[trigger] bit_position(keys@, bit, i)] == values@[i],
{
    let n: usize = keys.len();
    let mut out_keys: Vec<u32> = vec![0; n];
    let mut out_values: Vec<u32> = vec![0; n];
    let mut i: usize = 0;
    while i < n
        invariant
            i <= n,
            bit < 32,
            n == keys@.len(),
            n == values@.len(),
            n == ones_before@.len(),
            out_keys@.len() == n,
            out_values@.len() == n,
            forall|k: int| 0 <= k < n ==> #[trigger] ones_before@[k] == ones(keys@, bit, k),
            total_zeros == n - ones(keys@, bit, n as int),
            forall|k: int| 0 <= k < i ==> out_keys@[#[trigger] bit_position(keys@, bit, k)] == keys@[k],
            forall|k: int| 0 <= k < i ==> out_values@[#[trigger] bit_position(keys@, bit, k)] == values@[k],
        decreases n - i,
    {
        proof {
            lemma_bit_position(keys@, bit, i as int);
            lemma_ones(keys@, bit, i as int, i as int);
            assert forall|k: int| 0 <= k < i implies {
                let p = #[trigger] bit_position(keys@, bit, k);
                p != bit_position(keys@, bit, i as int) && 0 <= p < n
            } by {
                law_bit_position_order(keys@, bit, k, i as int);
            }
            assert(ones_before@[i as int] == ones(keys@, bit, i as int));
        }
        let ones_b: usize = ones_before[i] as usize;
        let pos: usize = if (keys[i] >> bit) & 1 == 1 {
            total_zeros + ones_b
        } else {
            i - ones_b
        };
        out_keys.set(pos, keys[i]);
        out_values.set(pos, values[i]);
        i = i + 1;
    }
    (out_keys, out_values)
}

/// The bits of a key below `b`.
pub open spec fn low_bits(x: u64, b: u64) -> u64 {
    if b >= 64 {
        x
    } else {
        x & (((1u64 << b) - 1) as u64)
    }
}

/// One more bit decides before the bits below it.
proof fn lemma_low_bits(x: u64, y: u64, b: u64)
    requires
        b < 64,
    ensures
        (x >> b) & 1 == (y >> b) & 1 && low_bits(x, b) < low_bits(y, b) ==> low_bits(x, (b + 1) as u64) < low_bits(y, (b + 1) as u64),
        (x >> b) & 1 == (y >> b) & 1 && low_bits(x, b) == low_bits(y, b) ==> low_bits(x, (b + 1) as u64) == low_bits(y, (b + 1) as u64),
        (x >> b) & 1 != 1 && (y >> b) & 1 == 1 ==> low_bits(x, (b + 1) as u64) < low_bits(y, (b + 1) as u64),
{
    let bx = (x >> b) & 1;
    let by = (y >> b) & 1;
    let lx = x & (((1u64 << b) - 1) as u64);
    let ly = y & (((1u64 << b) - 1) as u64);
    if b < 63 {
        let c = (b + 1) as u64;
        let hx = x & (((1u64 << c) - 1) as u64);
        let hy = y & (((1u64 << c) - 1) as u64);
        assert((bx == by && lx < ly ==> hx < hy) && (bx == by && lx == ly ==> hx == hy) && (bx != 1 && by == 1 ==> hx < hy))
            by (bit_vector)
            requires
                b < 63,
                c == b + 1,
                bx == (x >> b) & 1,
                by == (y >> b) & 1,
                lx == x & (((1u64 << b) - 1) as u64),
                ly == y & (((1u64 << b) - 1) as u64),
                hx == x & (((1u64 << c) - 1) as u64),
                hy == y & (((1u64 << c) - 1) as u64),
        ;
    } else {
        assert((bx == by && lx < ly ==> x < y) && (bx == by && lx == ly ==> x == y) && (bx != 1 && by == 1 ==> x < y))
            by (bit_vector)
            requires
                b == 63,
                bx == (x >> b) & 1,
                by == (y >> b) & 1,
                lx == x & (((1u64 << b) - 1) as u64),
                ly == y & (((1u64 << b) - 1) as u64),
        ;
    }
}

/// The bits of a key's words are the bits of the key.
proof fn lemma_word_bits(key: u64, b: u64)
    requires
        b < 64,
    ensures
        b < 32 ==> bit_set(key as u32, b as u32) == ((key >> b) & 1 == 1),
        b >= 32 ==> bit_set((key >> 32) as u32, (b - 32) as u32) == ((key >> b) & 1 == 1),
{
    if b < 32 {
        let c = b as u32;
        assert((((key as u32) >> c) & 1 == 1) == ((key >> b) & 1 == 1)) by (bit_vector)
            requires
                b < 32,
                c == b as u32,
        ;
    } else {
        let c = (b - 32) as u32;
        let h = (key >> 32) as u32;
        assert(((h >> c) & 1 == 1) == ((key >> b) & 1 == 1)) by (bit_vector)
            requires
                32 <= b < 64,
                c == b - 32,
                h == (key >> 32) as u32,
        ;
    }
}

/// `order` lists each position once, ascending in the low bits of the keys, equal ones in
/// ascending position.
pub open spec fn ordered_by(keys: Seq<u64>, order: Seq<u32>, b: u64) -> bool {
    &&& order.len() == keys.len()
    &&& all_below(order, keys.len() as int)
    &&& forall|i: int, j: int|
        0 <= i < j < order.len() ==> precedes(keys, b, #[trigger] order[i] as int, #[trigger] order[j] as int)
}

/// A position comes before another in the order by the low bits.
pub open spec fn precedes(keys: Seq<u64>, b: u64, p: int, q: int) -> bool {
    low_bits(keys[p], b) < low_bits(keys[q], b) || (low_bits(keys[p], b) == low_bits(keys[q], b) && p < q)
}

/// Each position of the reordered column holds the key of some position before.
proof fn lemma_positions_onto(keys: Seq<u32>, bit: u32, p: int) -> (i: int)
    requires
        0 <= p < keys.len(),
    ensures
        0 <= i < keys.len(),
        bit_position(keys, bit, i) == p,
{
    let n = keys.len() as int;
    let zeros = n - ones(keys, bit, n);
    lemma_ones(keys, bit, 0, n);
    if p < zeros {
        lemma_find_zero(keys, bit, p, n)
    } else {
        lemma_find_one(keys, bit, p - zeros, n)
    }
}

/// The zero key numbered `k` exists.
proof fn lemma_find_zero(keys: Seq<u32>, bit: u32, k: int, upto: int) -> (i: int)
    requires
        0 <= k < upto - ones(keys, bit, upto),
        0 <= upto <= keys.len(),
    ensures
        0 <= i < upto,
        !bit_set(keys[i], bit),
        i - ones(keys, bit, i) == k,
    decreases upto,
{
    if upto <= 0 {
        0
    } else {
        let last = upto - 1;
        if !bit_set(keys[last], bit) && last - ones(keys, bit, last) == k {
            last
        } else {
            lemma_find_zero(keys, bit, k, last)
        }
    }
}

/// The one key numbered `k` exists.
proof fn lemma_find_one(keys: Seq<u32>, bit: u32, k: int, upto: int) -> (i: int)
    requires
        0 <= k < ones(keys, bit, upto),
        0 <= upto <= keys.len(),
    ensures
        0 <= i < upto,
        bit_set(keys[i], bit),
        ones(keys, bit, i) == k,
    decreases upto,
{
    if upto <= 0 {
        0
    } else {
        let last = upto - 1;
        if bit_set(keys[last], bit) && ones(keys, bit, last) == k {
            last
        } else {
            lemma_find_one(keys, bit, k, last)
        }
    }
}

/// One pass of the ordering, on bit `b` of the keys.
fn order_pass(keys: &Vec<u64>, words: &Vec<u32>, order: &Vec<u32>, b: u64, bit: u32) -> (r: Vec<u32>)
    requires
        b < 64,
        bit < 32,
        keys@.len() == words@.len(),
        keys@.len() <= u32::MAX,
        ordered_by(keys@, order@, b),
        forall|p: int| 0 <= p < keys@.len() ==> bit_set(#[trigger] words@[p], bit) == ((keys@[p] >> b) & 1 == 1),
    ensures
        ordered_by(keys@, r@, (b + 1) as u64),
{
    let n: usize = keys.len();
    let moved: Vec<u32> = gather_kernel(words.as_slice(), order.as_slice());
    let flags: Vec<u64> = radix_bit_flag_kernel(moved.as_slice(), bit);
    let ones_before: Vec<u64> = full_scan(flags.as_slice(), false);
    proof {
        assert forall|i: int| 0 <= i < n implies #[trigger] ones_before@[i] == ones(moved@, bit, i) by {
            lemma_flag_sum(moved@, flags@, bit, i);
            lemma_ones(moved@, bit, i, i);
            lemma_wrap_small(ones(moved@, bit, i) as u64);
            assert(ones_before@[i] == running_sums(flags@, false)[i]);
            lemma_fold_is_wrapped(flags@, 0, i);
        }
        lemma_ones(moved@, bit, 0, n as int);
    }
    let total_ones: usize = if n == 0 {
        0
    } else {
        proof {
            lemma_ones(moved@, bit, n - 1, n as int);
            assert(ones_before@[n - 1] == ones(moved@, bit, n - 1));
            assert(flags@[n - 1] == if bit_set(moved@[n - 1], bit) { 1u64 } else { 0u64 });
        }
        ones_before[n - 1] as usize + flags[n - 1] as usize
    };
    let (_keys, next) = reorder_one_bit_scatter_kernel(moved.as_slice(), order.as_slice(), ones_before.as_slice(), bit, n - total_ones);
    proof {
        assert forall|p: int| 0 <= p < n implies (#[trigger] next@[p]) < n by {
            let i = lemma_positions_onto(moved@, bit, p);
            assert(next@[bit_position(moved@, bit, i)] == order@[i]);
        }
        assert forall|p: int, q: int| 0 <= p < q < n implies precedes(keys@, (b + 1) as u64, #[trigger] next@[p] as int, #[trigger] next@[q] as int) by {
            let i = lemma_positions_onto(moved@, bit, p);
            let j = lemma_positions_onto(moved@, bit, q);
            assert(next@[bit_position(moved@, bit, i)] == order@[i]);
            assert(next@[bit_position(moved@, bit, j)] == order@[j]);
            let x = keys@[order@[i] as int];
            let y = keys@[order@[j] as int];
            assert(moved@[i] == words@[order@[i] as int]);
            assert(moved@[j] == words@[order@[j] as int]);
            if i < j {
                law_bit_position_order(moved@, bit, i, j);
            } else if j < i {
                law_bit_position_order(moved@, bit, j, i);
            }
            lemma_low_bits(x, y, b);
            if bit_set(moved@[i], bit) == bit_set(moved@[j], bit) {
                assert(i < j);
                assert(precedes(keys@, b, order@[i] as int, order@[j] as int));
                assert((x >> b) & 1 == 0 || (x >> b) & 1 == 1) by (bit_vector);
                assert((y >> b) & 1 == 0 || (y >> b) & 1 == 1) by (bit_vector);
            }
        }
    }
    next
}

/// `order` lists each position once, ascending in the keys, equal ones in ascending
/// position.
pub open spec fn ascending_order(keys: Seq<u64>, order: Seq<u32>) -> bool {
    &&& order.len() == keys.len()
    &&& all_below(order, keys.len() as int)
    &&& forall|i: int, j: int|
        0 <= i < j < order.len() ==> {
            let p = #[trigger] order[i] as int;
            let q = #[trigger] order[j] as int;
            keys[p] < keys[q] || (keys[p] == keys[q] && p < q)
        }
}

/// The stable ascending order of a column of keys, by sixty-four one-bit passes.
pub fn radix_order(keys: &Vec<u64>) -> (r: Vec<u32>)
    requires
        keys@.len() <= u32::MAX,
    ensures
        ascending_order(keys@, r@),
{
    let n: usize = keys.len();
    let mut low: Vec<u32> = Vec::new();
    let mut high: Vec<u32> = Vec::new();
    let mut order: Vec<u32> = Vec::new();
    let mut i: usize = 0;
    while i < n
        invariant
            i <= n,
            n == keys@.len(),
            n <= u32::MAX,
            low@.len() == i,
            high@.len() == i,
            order@.len() == i,
            forall|k: int| 0 <= k < i ==> #[trigger] low@[k] == keys@[k] as u32,
            forall|k: int| 0 <= k < i ==> #[trigger] high@[k] == (keys@[k] >> 32) as u32,
            forall|k: int| 0 <= k < i ==> #[trigger] order@[k] == k,
        decreases n - i,
    {
        low.push(#[verifier::truncate] (keys[i] as u32));
        high.push(#[verifier::truncate] ((keys[i] >> 32) as u32));
        order.push(i as u32);
        i = i + 1;
    }
    proof {
        assert forall|i: int, j: int| 0 <= i < j < n implies precedes(keys@, 0, #[trigger] order@[i] as int, #[trigger] order@[j] as int) by {
            let x = keys@[i];
            let y = keys@[j];
            assert(x & (((1u64 << 0u64) - 1) as u64) == y & (((1u64 << 0u64) - 1) as u64)) by (bit_vector);
        }
    }
    let mut b: u64 = 0;
    while b < 64
        invariant
            b <= 64,
            n == keys@.len(),
            n <= u32::MAX,
            low@.len() == n,
            high@.len() == n,
            forall|k: int| 0 <= k < n ==> #[trigger] low@[k] == keys@[k] as u32,
            forall|k: int| 0 <= k < n ==> #[trigger] high@[k] == (keys@[k] >> 32) as u32,
            ordered_by(keys@, order@, b),
        decreases 64 - b,
    {
        proof {
            assert forall|p: int| 0 <= p < n && b < 32 implies bit_set(#[trigger] low@[p], b as u32) == ((keys@[p] >> b) & 1 == 1) by {
                lemma_word_bits(keys@[p], b);
            }
            assert forall|p: int| 0 <= p < n && b >= 32 implies bit_set(#[trigger] high@[p], (b - 32) as u32) == ((keys@[p] >> b) & 1 == 1) by {
                lemma_word_bits(keys@[p], b);
            }
        }
        order = if b < 32 {
            order_pass(keys, &low, &order, b, b as u32)
        } else {
            order_pass(keys, &high, &order, b, (b - 32) as u32)
        };
        b = b + 1;
    }
    assert forall|i: int, j: int| 0 <= i < j < n implies precedes(keys@, 64, #[trigger] order@[i] as int, #[trigger] order@[j] as int) by {}
    order
}

} // verus!
