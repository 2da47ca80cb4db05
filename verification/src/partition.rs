//! Partitions: routing objects to leaves, and where each partition lies.

use vstd::prelude::*;
use crate::histogram::{all_below, lemma_row};
use crate::modular::lemma_wrap_small;
use crate::scan::{full_scan, lemma_fold_is_wrapped, range_sum, running_sums};
use crate::segment::{is_head, key_head_flag_kernel};

verus! {

/// The leaf of an object one level down: a passed test sets the level's bit.
pub open spec fn routed(leaf: u32, passes: bool, level_bit: u32) -> u32 {
    if passes {
        leaf | (1u32 << level_bit)
    } else {
        leaf
    }
}

/// Whether a bin passes a split: a one-hot split tests for equality, a threshold split for
/// being above the border.
pub open spec fn passes_split(value: u32, bin: u32, one_hot: bool) -> bool {
    if one_hot {
        value == bin
    } else {
        value > bin
    }
}

fn test_split(value: u32, bin: u32, one_hot: bool) -> (r: bool)
    ensures
        r == passes_split(value, bin, one_hot),
{
    if one_hot {
        value == bin
    } else {
        value > bin
    }
}

/// Routes the objects of `indices` one level down: those whose bin passes the split. Other
/// objects keep their slot.
pub fn partition_split_kernel(
    cindex: &[u32],
    indices: &[u32],
    leaf_of: &[u32],
    new_leaf_of: &mut Vec<u32>,
    feature: usize,
    bin: u32,
    level_bit: u32,
    one_hot: bool,
)
    requires
        level_bit < 32,
        all_below(indices@, indices@.len() as int),
        leaf_of@.len() >= indices@.len(),
        old(new_leaf_of)@.len() >= indices@.len(),
        (feature + 1) * indices@.len() <= cindex@.len(),
    ensures
        final(new_leaf_of)@.len() == old(new_leaf_of)@.len(),
        forall|i: int|
            0 <= i < indices@.len() ==> {
                let obj = #[trigger] indices@[i] as int;
                final(new_leaf_of)@[obj] == routed(
                    leaf_of@[obj],
                    passes_split(cindex@[feature * indices@.len() + obj], bin, one_hot),
                    level_bit,
                )
            },
        forall|obj: int|
            0 <= obj < old(new_leaf_of)@.len() && (forall|i: int| 0 <= i < indices@.len() ==> indices@[i] != obj)
                ==> #[trigger] final(new_leaf_of)@[obj] == old(new_leaf_of)@[obj],
{
    let ghost init = new_leaf_of@;
    let n: usize = indices.len();
    let total: usize = cindex.len();
    let mut i: usize = 0;
    while i < n
        invariant
            i <= n,
            n == indices@.len(),
            total == cindex@.len(),
            level_bit < 32,
            all_below(indices@, indices@.len() as int),
            leaf_of@.len() >= n,
            new_leaf_of@.len() == init.len(),
            init.len() >= n,
            (feature + 1) * n <= cindex@.len(),
            forall|k: int|
                0 <= k < i ==> {
                    let obj = #[trigger] indices@[k] as int;
                    new_leaf_of@[obj] == routed(leaf_of@[obj], passes_split(cindex@[feature * n + obj], bin, one_hot), level_bit)
                },
            forall|obj: int|
                0 <= obj < init.len() && (forall|k: int| 0 <= k < n ==> indices@[k] != obj) ==> #[trigger] new_leaf_of@[obj] == init[obj],
        decreases n - i,
    {
        let obj: usize = indices[i] as usize;
        proof {
            lemma_row(feature as int, feature + 1, n as int, obj as int);
        }
        let mut new_leaf: u32 = leaf_of[obj];
        if test_split(cindex[feature * n + obj], bin, one_hot) {
            new_leaf = new_leaf | (1u32 << level_bit);
        }
        new_leaf_of.set(obj, new_leaf);
        i = i + 1;
    }
}

/// The field of a packed word.
pub open spec fn field_of(word: u32, shift: u32, mask: u32) -> u32 {
    (word >> shift) & mask
}

/// Routes every object one level down by a field of its packed word.
pub fn partition_split_packed(
    words: &[u32],
    leaf_of: &[u32],
    offset: usize,
    shift: u32,
    mask: u32,
    bin: u32,
    level_bit: u32,
    one_hot: bool,
) -> (r: Vec<u32>)
    requires
        level_bit < 32,
        shift < 32,
        offset + leaf_of@.len() <= words@.len(),
    ensures
        r@ == Seq::new(
            leaf_of@.len(),
            |obj: int|
                routed(
                    leaf_of@[obj],
                    passes_split(field_of(words@[offset + obj], shift, mask), bin, one_hot),
                    level_bit,
                ),
        ),
{
    let n: usize = leaf_of.len();
    let total: usize = words.len();
    let mut out: Vec<u32> = Vec::new();
    let mut obj: usize = 0;
    while obj < n
        invariant
            obj <= n,
            n == leaf_of@.len(),
            total == words@.len(),
            level_bit < 32,
            shift < 32,
            offset + n <= total,
            out@.len() == obj,
            forall|k: int|
                0 <= k < obj ==> #[trigger] out@[k] == routed(
                    leaf_of@[k],
                    passes_split(field_of(words@[offset + k], shift, mask), bin, one_hot),
                    level_bit,
                ),
        decreases n - obj,
    {
        let value: u32 = (words[offset + obj] >> shift) & mask;
        let leaf: u32 = leaf_of[obj];
        out.push(
            if test_split(value, bin, one_hot) {
                leaf | (1u32 << level_bit)
            } else {
                leaf
            },
        );
        obj = obj + 1;
    }
    assert(out@ =~= Seq::new(
        leaf_of@.len(),
        |obj: int|
            routed(
                leaf_of@[obj],
                passes_split(field_of(words@[offset + obj], shift, mask), bin, one_hot),
                level_bit,
            ),
    ));
    out
}

/// The leaf that the tests of the first `depth` levels lead to.
pub open spec fn leaf_after(passes: Seq<bool>, depth: nat) -> u32
    decreases depth,
{
    if depth == 0 {
        0
    } else {
        routed(leaf_after(passes, (depth - 1) as nat), passes[depth - 1], (depth - 1) as u32)
    }
}

/// The leaf index after the tests of the first `depth` levels: a passed test sets the bit
/// of its level.
pub open spec fn leaf_index_after(passes: Seq<bool>, depth: nat) -> usize
    decreases depth,
{
    if depth == 0 {
        0
    } else {
        let rest = leaf_index_after(passes, (depth - 1) as nat);
        if passes[depth - 1] {
            rest | (1usize << ((depth - 1) as usize))
        } else {
            rest
        }
    }
}

/// The leaf index of a sequence of tests.
pub fn cpu_leaf_index(passes: &[bool]) -> (r: usize)
    requires
        passes@.len() <= usize::BITS,
    ensures
        r == leaf_index_after(passes@, passes@.len()),
{
    let n: usize = passes.len();
    let mut idx: usize = 0;
    let mut i: usize = 0;
    while i < n
        invariant
            i <= n,
            n == passes@.len(),
            n <= usize::BITS,
            idx == leaf_index_after(passes@, i as nat),
        decreases n - i,
    {
        if passes[i] {
            idx = idx | (1usize << i);
        }
        i = i + 1;
    }
    idx
}

/// Routing an object level by level leads it to the leaf index of its tests.
pub proof fn law_routing_reaches_the_leaf_index(passes: Seq<bool>, depth: nat)
    requires
        depth <= 32,
    ensures
        leaf_after(passes, depth) as usize == leaf_index_after(passes, depth),
    decreases depth,
{
    if depth > 0 {
        law_routing_reaches_the_leaf_index(passes, (depth - 1) as nat);
        let leaf = leaf_after(passes, (depth - 1) as nat);
        let level = (depth - 1) as u32;
        let i = (depth - 1) as usize;
        assert((leaf as usize) | (1usize << i) == (leaf | (1u32 << level)) as usize) by (bit_vector)
            requires
                i < 32,
                level == i,
        ;
    }
}

/// A level only sets its own bit.
pub proof fn law_routing_sets_one_bit(leaf: u32, passes: bool, level_bit: u32, other: u32)
    requires
        level_bit < 32,
        other < 32,
        other != level_bit,
    ensures
        (routed(leaf, passes, level_bit) >> other) & 1 == (leaf >> other) & 1,
        passes ==> (routed(leaf, passes, level_bit) >> level_bit) & 1 == 1,
{
    let r = leaf | (1u32 << level_bit);
    assert((r >> other) & 1 == (leaf >> other) & 1 && (r >> level_bit) & 1 == 1) by (bit_vector)
        requires
            level_bit < 32,
            other < 32,
            other != level_bit,
            r == leaf | (1u32 << level_bit),
    ;
}

/// Each bit of a leaf index is the test of its level, and no higher bit is set: different
/// tests lead to different leaves.
pub proof fn law_leaf_index_holds_the_tests(passes: Seq<bool>, depth: nat, level: u32)
    requires
        depth <= passes.len(),
        depth <= 32,
        level < 32,
    ensures
        ((leaf_after(passes, depth) >> level) & 1 == 1) == (level < depth && passes[level as int]),
    decreases depth,
{
    if depth == 0 {
        assert((0u32 >> level) & 1 == 0) by (bit_vector);
    } else {
        law_leaf_index_holds_the_tests(passes, (depth - 1) as nat, level);
        let leaf = leaf_after(passes, (depth - 1) as nat);
        let last = (depth - 1) as u32;
        if level != last {
            law_routing_sets_one_bit(leaf, passes[depth - 1], last, level);
        } else if passes[depth - 1] {
            let r = leaf | (1u32 << last);
            assert((r >> last) & 1 == 1) by (bit_vector)
                requires
                    last < 32,
                    r == leaf | (1u32 << last),
            ;
        }
    }
}

/// Each bit of a leaf index is the test of its level, and no other bit is set, for as many
/// tests as an index has bits.
pub proof fn law_leaf_index_bits(passes: Seq<bool>, depth: nat, level: usize)
    requires
        depth <= passes.len(),
        depth <= usize::BITS,
        level < usize::BITS,
    ensures
        ((leaf_index_after(passes, depth) >> level) & 1 == 1) == (level < depth && passes[level as int]),
    decreases depth,
{
    if depth == 0 {
        assert((0usize >> level) & 1 == 0) by (bit_vector);
    } else {
        law_leaf_index_bits(passes, (depth - 1) as nat, level);
        let rest = leaf_index_after(passes, (depth - 1) as nat);
        let last = (depth - 1) as usize;
        let r = rest | (1usize << last);
        assert((r >> level) & 1 == if level == last { 1 } else { (rest >> level) & 1 }) by (bit_vector)
            requires
                last < usize::BITS,
                level < usize::BITS,
                r == rest | (1usize << last),
        ;
    }
}

/// No flagged position after `i`, among the first `upto`, has the id of `i`.
pub open spec fn last_of_part(part_ids: Seq<u32>, flags: Seq<u64>, i: int, upto: int) -> bool {
    forall|j: int| i < j < upto && flags[j] != 0 ==> #[trigger] part_ids[j] != part_ids[i]
}

/// No flagged position, among the first `upto`, has the id `p`.
pub open spec fn part_unnamed(part_ids: Seq<u32>, flags: Seq<u64>, p: int, upto: int) -> bool {
    forall|i: int| 0 <= i < upto && flags[i] != 0 ==> #[trigger] part_ids[i] != p
}

/// Writes where each run of equal partition ids starts. Where several runs have one id, the
/// last of them gives the partition's offset.
pub fn update_partition_offsets_kernel(
    part_ids: &[u32],
    flags: &[u64],
    run_ids: &[u64],
    offsets: &mut Vec<u32>,
    run_keys: &mut Vec<u32>,
    run_starts: &mut Vec<u32>,
)
    requires
        part_ids@.len() == flags@.len(),
        part_ids@.len() == run_ids@.len(),
        part_ids@.len() <= u32::MAX,
        all_below(part_ids@, old(offsets)@.len() as int),
        old(run_keys)@.len() == old(run_starts)@.len(),
        forall|i: int| 0 <= i < flags@.len() && flags@[i] != 0 ==> #[trigger] run_ids@[i] < old(run_keys)@.len(),
        forall|i: int, j: int|
            0 <= i < j < flags@.len() && flags@[i] != 0 && flags@[j] != 0 ==> #[trigger] run_ids@[i] != #[trigger] run_ids@[j],
    ensures
        final(offsets)@.len() == old(offsets)@.len(),
        final(run_keys)@.len() == old(run_keys)@.len(),
        final(run_starts)@.len() == old(run_starts)@.len(),
        forall|i: int|
            0 <= i < flags@.len() && flags@[i] != 0 ==> final(run_keys)@[#[trigger] run_ids@[i] as int] == part_ids@[i]
                && final(run_starts)@[run_ids@[i] as int] == i,
        forall|i: int|
            0 <= i < flags@.len() && flags@[i] != 0 && #[trigger] last_of_part(part_ids@, flags@, i, flags@.len() as int)
                ==> final(offsets)@[part_ids@[i] as int] == i,
        forall|p: int|
            0 <= p < old(offsets)@.len() && #[trigger] part_unnamed(part_ids@, flags@, p, flags@.len() as int)
                ==> final(offsets)@[p] == old(offsets)@[p],
{
    let ghost init = offsets@;
    let n: usize = part_ids.len();
    let slots: usize = run_keys.len();
    let mut i: usize = 0;
    while i < n
        invariant
            i <= n,
            n == part_ids@.len(),
            n == flags@.len(),
            n == run_ids@.len(),
            n <= u32::MAX,
            offsets@.len() == init.len(),
            run_keys@.len() == slots,
            run_starts@.len() == slots,
            all_below(part_ids@, init.len() as int),
            forall|k: int| 0 <= k < flags@.len() && flags@[k] != 0 ==> #[trigger] run_ids@[k] < slots,
            forall|k: int, j: int|
                0 <= k < j < flags@.len() && flags@[k] != 0 && flags@[j] != 0 ==> #[trigger] run_ids@[k] != #[trigger] run_ids@[j],
            forall|k: int|
                0 <= k < i && flags@[k] != 0 ==> run_keys@[#[trigger] run_ids@[k] as int] == part_ids@[k]
                    && run_starts@[run_ids@[k] as int] == k,
            forall|k: int|
                0 <= k < i && flags@[k] != 0 && #[trigger] last_of_part(part_ids@, flags@, k, i as int) ==> offsets@[part_ids@[k] as int] == k,
            forall|p: int|
                0 <= p < init.len() && #[trigger] part_unnamed(part_ids@, flags@, p, i as int) ==> offsets@[p] == init[p],
        decreases n - i,
    {
        let ghost before = offsets@;
        if flags[i] != 0 {
            assert(run_ids@[i as int] < slots);
            let r: usize = run_ids[i] as usize;
            let p: u32 = part_ids[i];
            run_keys.set(r, p);
            run_starts.set(r, i as u32);
            offsets.set(p as usize, i as u32);
        }
        proof {
            assert forall|k: int| 0 <= k < i + 1 && flags@[k] != 0 && #[trigger] last_of_part(part_ids@, flags@, k, i + 1)
                implies offsets@[part_ids@[k] as int] == k by {
                if k < i {
                    assert(last_of_part(part_ids@, flags@, k, i as int));
                    assert(before[part_ids@[k] as int] == k);
                    assert(flags@[i as int] != 0 ==> part_ids@[i as int] != part_ids@[k]);
                }
            }
            assert forall|p: int| 0 <= p < init.len() && #[trigger] part_unnamed(part_ids@, flags@, p, i + 1)
                implies offsets@[p] == init[p] by {
                assert(part_unnamed(part_ids@, flags@, p, i as int));
                assert(flags@[i as int] != 0 ==> part_ids@[i as int] != p);
            }
        }
        i = i + 1;
    }
}

/// The end of the run `r`: where the next one starts, or the end of the column.
pub open spec fn run_end(run_starts: Seq<u32>, n: int, r: int) -> int {
    if r + 1 < run_starts.len() {
        run_starts[r + 1] as int
    } else {
        n
    }
}

/// No run after `r`, among the first `upto`, has its key.
pub open spec fn last_of_key(run_keys: Seq<u32>, r: int, upto: int) -> bool {
    forall|q: int| r < q < upto ==> #[trigger] run_keys[q] != run_keys[r]
}

/// No run, among the first `upto`, has the key `p`.
pub open spec fn key_unnamed(run_keys: Seq<u32>, p: int, upto: int) -> bool {
    forall|r: int| 0 <= r < upto ==> #[trigger] run_keys[r] != p
}

/// Writes the size of the partition of each run. Where several runs have one key, the last
/// of them gives the size.
pub fn update_partition_sizes_kernel(run_keys: &[u32], run_starts: &[u32], sizes: &mut Vec<u32>, n: u32)
    requires
        run_keys@.len() == run_starts@.len(),
        all_below(run_keys@, old(sizes)@.len() as int),
        forall|r: int| 0 <= r < run_starts@.len() ==> run_starts@[r] <= #[trigger] run_end(run_starts@, n as int, r),
    ensures
        final(sizes)@.len() == old(sizes)@.len(),
        forall|r: int|
            0 <= r < run_keys@.len() && #[trigger] last_of_key(run_keys@, r, run_keys@.len() as int)
                ==> final(sizes)@[run_keys@[r] as int] == run_end(run_starts@, n as int, r) - run_starts@[r],
        forall|p: int|
            0 <= p < old(sizes)@.len() && #[trigger] key_unnamed(run_keys@, p, run_keys@.len() as int)
                ==> final(sizes)@[p] == old(sizes)@[p],
{
    let ghost init = sizes@;
    let runs: usize = run_keys.len();
    let mut r: usize = 0;
    while r < runs
        invariant
            r <= runs,
            runs == run_keys@.len(),
            runs == run_starts@.len(),
            sizes@.len() == init.len(),
            all_below(run_keys@, init.len() as int),
            forall|q: int| 0 <= q < run_starts@.len() ==> run_starts@[q] <= #[trigger] run_end(run_starts@, n as int, q),
            forall|k: int|
                0 <= k < r && #[trigger] last_of_key(run_keys@, k, r as int)
                    ==> sizes@[run_keys@[k] as int] == run_end(run_starts@, n as int, k) - run_starts@[k],
            forall|p: int|
                0 <= p < init.len() && #[trigger] key_unnamed(run_keys@, p, r as int) ==> sizes@[p] == init[p],
        decreases runs - r,
    {
        let ghost before = sizes@;
        assert(run_starts@[r as int] <= run_end(run_starts@, n as int, r as int));
        let start: u32 = run_starts[r];
        let end: u32 = if r + 1 < runs {
            run_starts[r + 1]
        } else {
            n
        };
        let p: u32 = run_keys[r];
        sizes.set(p as usize, end - start);
        proof {
            assert forall|k: int| 0 <= k < r + 1 && #[trigger] last_of_key(run_keys@, k, r + 1)
                implies sizes@[run_keys@[k] as int] == run_end(run_starts@, n as int, k) - run_starts@[k] by {
                if k < r {
                    assert(last_of_key(run_keys@, k, r as int));
                    assert(run_keys@[r as int] != run_keys@[k]);
                    assert(before[run_keys@[k] as int] == run_end(run_starts@, n as int, k) - run_starts@[k]);
                }
            }
            assert forall|p: int| 0 <= p < init.len() && #[trigger] key_unnamed(run_keys@, p, r + 1) implies sizes@[p] == init[p] by {
                assert(key_unnamed(run_keys@, p, r as int));
                assert(run_keys@[r as int] != p);
            }
        }
        r = r + 1;
    }
}

/// Objects of one partition lie next to each other.
#[verifier::opaque]
pub open spec fn grouped(part_ids: Seq<u32>) -> bool {
    forall|i: int, j: int, k: int|
        0 <= i <= j <= k < part_ids.len() && #[trigger] part_ids[i] == #[trigger] part_ids[k] ==> #[trigger] part_ids[j] == part_ids[i]
}

/// Whether a position lies in the range of a partition.
pub open spec fn in_part(offsets: Seq<u32>, sizes: Seq<u32>, p: int, k: int) -> bool {
    offsets[p] <= k < offsets[p] + sizes[p]
}

/// Whether a partition has no objects.
pub open spec fn absent(part_ids: Seq<u32>, p: int) -> bool {
    forall|i: int| 0 <= i < part_ids.len() ==> #[trigger] part_ids[i] != p
}

/// Each partition's range holds its objects and no others; a partition without objects has
/// an empty range.
pub open spec fn tiles(part_ids: Seq<u32>, offsets: Seq<u32>, sizes: Seq<u32>) -> bool {
    &&& forall|i: int| 0 <= i < part_ids.len() ==> in_part(offsets, sizes, #[trigger] part_ids[i] as int, i)
    &&& forall|p: int, k: int|
        0 <= p < offsets.len() && #[trigger] in_part(offsets, sizes, p, k) ==> k < part_ids.len() && part_ids[k] == p
    &&& forall|p: int| 0 <= p < offsets.len() && #[trigger] absent(part_ids, p) ==> offsets[p] == 0 && sizes[p] == 0
}

/// Head flags count the runs before a position.
proof fn lemma_head_sums(part_ids: Seq<u32>, flags: Seq<u64>, a: int, b: int)
    requires
        0 <= a <= b <= part_ids.len(),
        flags.len() == part_ids.len(),
        forall|i: int| 0 <= i < flags.len() ==> #[trigger] flags[i] == if is_head(part_ids, i) { 1u64 } else { 0u64 },
    ensures
        0 <= range_sum(flags, 0, a) <= range_sum(flags, 0, b) <= range_sum(flags, 0, a) + (b - a),
        range_sum(flags, 0, a) <= a,
    decreases b,
{
    if a < b {
        lemma_head_sums(part_ids, flags, a, b - 1);
    } else if a > 0 {
        lemma_head_sums(part_ids, flags, a - 1, a - 1);
    }
}

/// The head of the run numbered `r`.
proof fn lemma_find_head(part_ids: Seq<u32>, flags: Seq<u64>, r: int, upto: int) -> (i: int)
    requires
        0 <= r < range_sum(flags, 0, upto),
        0 <= upto <= part_ids.len(),
        flags.len() == part_ids.len(),
        forall|i: int| 0 <= i < flags.len() ==> #[trigger] flags[i] == if is_head(part_ids, i) { 1u64 } else { 0u64 },
    ensures
        0 <= i < upto,
        flags[i] != 0,
        range_sum(flags, 0, i) == r,
    decreases upto,
{
    if upto <= 0 {
        0
    } else {
        let last = upto - 1;
        if flags[last] != 0 && range_sum(flags, 0, last) == r {
            last
        } else {
            lemma_find_head(part_ids, flags, r, last)
        }
    }
}

/// The last head up to a position, and the ids from it on.
proof fn lemma_run_of(part_ids: Seq<u32>, i: int) -> (h: int)
    requires
        0 <= i < part_ids.len(),
    ensures
        0 <= h <= i,
        is_head(part_ids, h),
        forall|k: int| h < k <= i ==> !is_head(part_ids, k),
        part_ids[h] == part_ids[i],
    decreases i,
{
    if is_head(part_ids, i) {
        i
    } else {
        lemma_run_of(part_ids, i - 1)
    }
}

/// Positions from a head on without another head have the head's id.
proof fn lemma_run_ids(part_ids: Seq<u32>, h: int, k: int)
    requires
        0 <= h <= k < part_ids.len(),
        forall|j: int| h < j <= k ==> !is_head(part_ids, j),
    ensures
        part_ids[k] == part_ids[h],
    decreases k - h,
{
    if h < k {
        lemma_run_ids(part_ids, h, k - 1);
        assert(!is_head(part_ids, k));
    }
}

/// No head lies between two neighbouring runs.
proof fn lemma_between_heads(part_ids: Seq<u32>, flags: Seq<u64>, h: int, next: int, k: int)
    requires
        0 <= h < k < next <= part_ids.len(),
        flags.len() == part_ids.len(),
        forall|i: int| 0 <= i < flags.len() ==> #[trigger] flags[i] == if is_head(part_ids, i) { 1u64 } else { 0u64 },
        is_head(part_ids, h),
        range_sum(flags, 0, next) == range_sum(flags, 0, h) + 1,
    ensures
        !is_head(part_ids, k),
{
    lemma_head_sums(part_ids, flags, h + 1, k);
    lemma_head_sums(part_ids, flags, k + 1, next);
}

/// Where each partition of a grouped column lies.
pub fn update_partitions(part_ids: &[u32], n_parts: usize) -> (r: (Vec<u32>, Vec<u32>))
    requires
        part_ids@.len() <= u32::MAX,
        all_below(part_ids@, n_parts as int),
        grouped(part_ids@),
    ensures
        r.0@.len() == n_parts,
        r.1@.len() == n_parts,
        tiles(part_ids@, r.0@, r.1@),
{
    let n: usize = part_ids.len();
    let flags: Vec<u64> = key_head_flag_kernel(part_ids);
    let run_ids: Vec<u64> = full_scan(flags.as_slice(), false);
    proof {
        assert forall|i: int| 0 <= i < n implies #[trigger] run_ids@[i] == range_sum(flags@, 0, i) by {
            lemma_head_sums(part_ids@, flags@, i, i);
            lemma_wrap_small(range_sum(flags@, 0, i) as u64);
            assert(run_ids@[i] == running_sums(flags@, false)[i]);
            lemma_fold_is_wrapped(flags@, 0, i);
        }
        lemma_head_sums(part_ids@, flags@, 0, n as int);
    }
    let num_runs: usize = if n == 0 {
        0
    } else {
        proof {
            lemma_head_sums(part_ids@, flags@, n - 1, n as int);
            assert(run_ids@[n - 1] == range_sum(flags@, 0, n - 1));
            assert(flags@[n - 1] == if is_head(part_ids@, n - 1) { 1u64 } else { 0u64 });
        }
        run_ids[n - 1] as usize + flags[n - 1] as usize
    };
    let ghost runs = range_sum(flags@, 0, n as int);
    assert(num_runs == runs);
    let mut offsets: Vec<u32> = vec![0; n_parts];
    let mut sizes: Vec<u32> = vec![0; n_parts];
    let mut run_keys: Vec<u32> = vec![0; num_runs];
    let mut run_starts: Vec<u32> = vec![0; num_runs];
    proof {
        assert forall|i: int| 0 <= i < n && flags@[i] != 0 implies #[trigger] run_ids@[i] < num_runs by {
            lemma_head_sums(part_ids@, flags@, i + 1, n as int);
            assert(run_ids@[i] == range_sum(flags@, 0, i));
        }
        assert forall|i: int, j: int| 0 <= i < j < n && flags@[i] != 0 && flags@[j] != 0 implies #[trigger] run_ids@[i] != #[trigger] run_ids@[j] by {
            lemma_head_sums(part_ids@, flags@, i + 1, j);
            assert(run_ids@[i] == range_sum(flags@, 0, i));
            assert(run_ids@[j] == range_sum(flags@, 0, j));
        }
    }
    update_partition_offsets_kernel(part_ids, flags.as_slice(), run_ids.as_slice(), &mut offsets, &mut run_keys, &mut run_starts);
    proof {
        assert forall|r: int| 0 <= r < num_runs implies #[trigger] run_holds(part_ids@, flags@, run_keys@, run_starts@, r) by {
            let i = lemma_find_head(part_ids@, flags@, r, n as int);
            assert(run_ids@[i] == r);
        }
        assert forall|r: int| 0 <= r < num_runs implies run_starts@[r] <= #[trigger] run_end(run_starts@, n as int, r) by {
            assert(run_holds(part_ids@, flags@, run_keys@, run_starts@, r));
            if r + 1 < num_runs {
                assert(run_holds(part_ids@, flags@, run_keys@, run_starts@, r + 1));
                let a = run_starts@[r] as int;
                let b = run_starts@[r + 1] as int;
                if b < a {
                    lemma_head_sums(part_ids@, flags@, b, a);
                }
            }
        }
        assert forall|r: int| 0 <= r < run_keys@.len() implies (#[trigger] run_keys@[r]) < n_parts by {
            assert(run_holds(part_ids@, flags@, run_keys@, run_starts@, r));
        }
    }
    update_partition_sizes_kernel(run_keys.as_slice(), run_starts.as_slice(), &mut sizes, n as u32);
    proof {
        lemma_tiles(part_ids@, flags@, run_keys@, run_starts@, offsets@, sizes@);
    }
    (offsets, sizes)
}

/// The run numbered `r` is recorded with the id and the position of its head.
spec fn run_holds(part_ids: Seq<u32>, flags: Seq<u64>, run_keys: Seq<u32>, run_starts: Seq<u32>, r: int) -> bool {
    &&& run_starts[r] < part_ids.len()
    &&& flags[run_starts[r] as int] != 0
    &&& range_sum(flags, 0, run_starts[r] as int) == r
    &&& run_keys[r] == part_ids[run_starts[r] as int]
}

/// A grouped column has one head per id.
proof fn lemma_one_head(part_ids: Seq<u32>, a: int, b: int)
    requires
        grouped(part_ids),
        0 <= a < part_ids.len(),
        0 <= b < part_ids.len(),
        is_head(part_ids, a),
        is_head(part_ids, b),
        part_ids[a] == part_ids[b],
    ensures
        a == b,
{
    reveal(grouped);
    if a < b {
        assert(part_ids[b - 1] == part_ids[a]);
    } else if b < a {
        assert(part_ids[a - 1] == part_ids[b]);
    }
}

/// What the kernels recorded of a grouped column.
spec fn recorded(
    part_ids: Seq<u32>,
    flags: Seq<u64>,
    run_keys: Seq<u32>,
    run_starts: Seq<u32>,
    offsets: Seq<u32>,
    sizes: Seq<u32>,
) -> bool {
    let n = part_ids.len() as int;
    &&& grouped(part_ids)
    &&& n <= u32::MAX
    &&& all_below(part_ids, offsets.len() as int)
    &&& offsets.len() == sizes.len()
    &&& flags.len() == n
    &&& forall|i: int| 0 <= i < n ==> #[trigger] flags[i] == if is_head(part_ids, i) { 1u64 } else { 0u64 }
    &&& run_keys.len() == range_sum(flags, 0, n)
    &&& run_starts.len() == run_keys.len()
    &&& forall|r: int| 0 <= r < run_keys.len() ==> #[trigger] run_holds(part_ids, flags, run_keys, run_starts, r)
    &&& forall|i: int| 0 <= i < n && flags[i] != 0 && #[trigger] last_of_part(part_ids, flags, i, n) ==> offsets[part_ids[i] as int] == i
    &&& forall|p: int| 0 <= p < offsets.len() && #[trigger] part_unnamed(part_ids, flags, p, n) ==> offsets[p] == 0
    &&& forall|r: int|
        0 <= r < run_keys.len() && #[trigger] last_of_key(run_keys, r, run_keys.len() as int)
            ==> sizes[run_keys[r] as int] == run_end(run_starts, n, r) - run_starts[r]
    &&& forall|p: int| 0 <= p < sizes.len() && #[trigger] key_unnamed(run_keys, p, run_keys.len() as int) ==> sizes[p] == 0
}

/// The range of a run starts at its head and ends where the next head is.
proof fn lemma_run_range(
    part_ids: Seq<u32>,
    flags: Seq<u64>,
    run_keys: Seq<u32>,
    run_starts: Seq<u32>,
    offsets: Seq<u32>,
    sizes: Seq<u32>,
    h: int,
)
    requires
        recorded(part_ids, flags, run_keys, run_starts, offsets, sizes),
        0 <= h < part_ids.len(),
        is_head(part_ids, h),
    ensures
        offsets[part_ids[h] as int] == h,
        sizes[part_ids[h] as int] > 0,
        h + sizes[part_ids[h] as int] <= part_ids.len(),
        range_sum(flags, 0, h + sizes[part_ids[h] as int]) == range_sum(flags, 0, h) + 1,
        h + sizes[part_ids[h] as int] < part_ids.len() ==> is_head(part_ids, h + sizes[part_ids[h] as int]),
{
    let n = part_ids.len() as int;
    let r = range_sum(flags, 0, h);
    assert(flags[h] != 0);
    assert forall|j: int| h < j < n && flags[j] != 0 implies #[trigger] part_ids[j] != part_ids[h] by {
        if part_ids[j] == part_ids[h] {
            lemma_one_head(part_ids, h, j);
        }
    }
    assert(last_of_part(part_ids, flags, h, n));
    lemma_head_sums(part_ids, flags, h, n);
    lemma_head_sums(part_ids, flags, h + 1, n);
    assert(run_holds(part_ids, flags, run_keys, run_starts, r));
    let s = run_starts[r] as int;
    if s < h {
        lemma_head_sums(part_ids, flags, s + 1, h);
    } else if h < s {
        lemma_head_sums(part_ids, flags, h + 1, s);
    }
    assert(s == h);
    assert forall|q: int| r < q < run_keys.len() implies #[trigger] run_keys[q] != run_keys[r] by {
        assert(run_holds(part_ids, flags, run_keys, run_starts, q));
        if run_keys[q] == run_keys[r] {
            lemma_one_head(part_ids, run_starts[q] as int, h);
        }
    }
    assert(last_of_key(run_keys, r, run_keys.len() as int));
    if r + 1 < run_starts.len() {
        assert(run_holds(part_ids, flags, run_keys, run_starts, r + 1));
        let end = run_starts[r + 1] as int;
        if end <= h {
            lemma_head_sums(part_ids, flags, end, h);
        }
    }
}

/// The recorded runs tile the column.
proof fn lemma_tiles(
    part_ids: Seq<u32>,
    flags: Seq<u64>,
    run_keys: Seq<u32>,
    run_starts: Seq<u32>,
    offsets: Seq<u32>,
    sizes: Seq<u32>,
)
    requires
        recorded(part_ids, flags, run_keys, run_starts, offsets, sizes),
    ensures
        tiles(part_ids, offsets, sizes),
{
    let n = part_ids.len() as int;
    assert forall|i: int| 0 <= i < n implies in_part(offsets, sizes, #[trigger] part_ids[i] as int, i) by {
        let h = lemma_run_of(part_ids, i);
        lemma_run_range(part_ids, flags, run_keys, run_starts, offsets, sizes, h);
        let end = h + sizes[part_ids[h] as int];
        if end <= i {
            assert(!is_head(part_ids, end));
        }
    }
    assert forall|p: int, k: int| 0 <= p < offsets.len() && #[trigger] in_part(offsets, sizes, p, k) implies k < n && part_ids[k] == p by {
        if key_unnamed(run_keys, p, run_keys.len() as int) {
            assert(sizes[p] == 0);
        } else {
            let r = choose|r: int| 0 <= r < run_keys.len() && #[trigger] run_keys[r] == p;
            assert(run_holds(part_ids, flags, run_keys, run_starts, r));
            let h = run_starts[r] as int;
            lemma_run_range(part_ids, flags, run_keys, run_starts, offsets, sizes, h);
            assert forall|j: int| h < j <= k implies !is_head(part_ids, j) by {
                lemma_between_heads(part_ids, flags, h, h + sizes[p], j);
            }
            lemma_run_ids(part_ids, h, k);
        }
    }
    assert forall|p: int| 0 <= p < offsets.len() && #[trigger] absent(part_ids, p) implies offsets[p] == 0 && sizes[p] == 0 by {
        assert(part_unnamed(part_ids, flags, p, n));
        assert forall|r: int| 0 <= r < run_keys.len() implies #[trigger] run_keys[r] != p by {
            assert(run_holds(part_ids, flags, run_keys, run_starts, r));
        }
        assert(key_unnamed(run_keys, p, run_keys.len() as int));
    }
}

} // verus!
