//! What the column kernels give, entry by entry, and how neighbouring entries relate.

use vstd::prelude::*;
use crate::cell_laws::run_total;
use crate::channel::{Additive, Channel, Real};
use crate::elementwise::{
    gradient_kernel, histogram_scatter_kernel, vector_add_kernel, vector_div_kernel, vector_mul_kernel,
    vector_sub_kernel,
};
use crate::exact::{exact, lemma_ratio};
use crate::histogram::{lemma_line_cell, lemma_row};
use crate::partition::partition_split_packed;
use crate::scan::{block_reduce_kernel, fold_sum, full_scan};
use crate::segment::{
    reduce_by_key_kernel, scattered, segment_start, segmented_reduce_kernel, segmented_scan_kernel,
};
use crate::warmup::{WarmupPool, cindex_feature_major, hinted_width, warmup_pool};

verus! {

/// A difference and what was taken away make up the first column, and a sum less the second
/// column is the first.
pub proof fn law_sums_and_differences<F: Real>(
    val: spec_fn(F) -> real,
    room: spec_fn(real) -> bool,
    a: &[F],
    b: &[F],
    sum: Vec<F>,
    gap: Vec<F>,
    i: int,
)
    requires
        exact(val, room),
        call_ensures(vector_add_kernel::<F>, (a, b), sum),
        call_ensures(vector_sub_kernel::<F>, (a, b), gap),
        0 <= i < a@.len(),
        room(val(a@[i]) + val(b@[i])),
        room(val(a@[i]) - val(b@[i])),
    ensures
        sum@.len() == a@.len(),
        gap@.len() == a@.len(),
        val(sum@[i]) - val(b@[i]) == val(a@[i]),
        val(gap@[i]) + val(b@[i]) == val(a@[i]),
{
}

/// A product is the product of the numbers, and a quotient times the second column is the
/// first. A weighted derivative is the derivative times the weight.
pub proof fn law_products_and_quotients<F: Real>(
    val: spec_fn(F) -> real,
    room: spec_fn(real) -> bool,
    a: &[F],
    b: &[F],
    product: Vec<F>,
    quotient: Vec<F>,
    scattered: Vec<F>,
    i: int,
)
    requires
        exact(val, room),
        call_ensures(vector_mul_kernel::<F>, (a, b), product),
        call_ensures(vector_div_kernel::<F>, (a, b), quotient),
        call_ensures(histogram_scatter_kernel::<F>, (a, b), scattered),
        0 <= i < a@.len(),
        val(b@[i]) != 0 as real,
        room(val(a@[i]) * val(b@[i])),
        room(val(a@[i]) / val(b@[i])),
    ensures
        val(product@[i]) == val(a@[i]) * val(b@[i]),
        val(scattered@[i]) == val(a@[i]) * val(b@[i]),
        val(quotient@[i]) * val(b@[i]) == val(a@[i]),
{
    lemma_ratio(val(a@[i]), val(b@[i]));
}

/// A squared-error gradient and its approximation make up the target.
pub proof fn law_residuals<F: Real>(
    val: spec_fn(F) -> real,
    room: spec_fn(real) -> bool,
    approx: &[F],
    target: &[F],
    r: Vec<F>,
    i: int,
)
    requires
        exact(val, room),
        call_ensures(gradient_kernel::<F>, (approx, target), r),
        0 <= i < approx@.len(),
        room(val(target@[i]) - val(approx@[i])),
    ensures
        r@.len() == approx@.len(),
        val(r@[i]) + val(approx@[i]) == val(target@[i]),
{
}

/// A segmented scan starts over at every flag and else goes on: an inclusive entry is its
/// element where a segment starts, and the entry before it plus its element elsewhere; an
/// exclusive entry is zero where a segment starts, and the entry before it plus the element
/// before it elsewhere.
pub proof fn law_segmented_scan_steps<F: Additive>(input: &[F], flags: &[u32], with: Vec<F>, without: Vec<F>, t: int)
    requires
        call_ensures(segmented_scan_kernel::<F>, (input, flags, true), with),
        call_ensures(segmented_scan_kernel::<F>, (input, flags, false), without),
        0 <= t < input@.len(),
    ensures
        t == 0 || flags@[t] != 0 ==> with@[t] == input@[t] && without@[t] == F::zero_spec(),
        t > 0 && flags@[t] == 0 ==> with@[t] == with@[t - 1].plus_spec(input@[t]) && without@[t] == without@[t - 1].plus_spec(
            input@[t - 1],
        ),
{
    if t == 0 || flags@[t] != 0 {
        assert(fold_sum(input@, t, t) == F::zero_spec());
        assert(fold_sum(input@, t, t + 1) == F::zero_spec().plus_spec(input@[t]));
        F::sum_laws(F::zero_spec(), input@[t], F::zero_spec());
        F::sum_laws(input@[t], F::zero_spec(), F::zero_spec());
    } else {
        assert(with@[t - 1] == fold_sum(input@, segment_start(flags@, t - 1), t));
        assert(without@[t - 1] == fold_sum(input@, segment_start(flags@, t - 1), t - 1));
        lemma_start_before(flags@, t - 1);
    }
}

proof fn lemma_start_before(flags: Seq<u32>, t: int)
    requires
        0 <= t,
    ensures
        segment_start(flags, t) <= t,
    decreases t,
{
    if t > 0 && flags[t] == 0 {
        lemma_start_before(flags, t - 1);
    }
}

/// Routing by a packed word sets the bit of the level exactly where the field passes the
/// split: it equals the bin of a one-hot split, or lies above the border of a threshold
/// split. Every other bit of the leaf stays.
pub proof fn law_packed_routing(
    words: &[u32],
    leaf_of: &[u32],
    offset: usize,
    shift: u32,
    mask: u32,
    bin: u32,
    level_bit: u32,
    one_hot: bool,
    r: Vec<u32>,
    obj: int,
    other: u32,
)
    requires
        call_ensures(partition_split_packed, (words, leaf_of, offset, shift, mask, bin, level_bit, one_hot), r),
        level_bit < 32,
        other < 32,
        other != level_bit,
        0 <= obj < leaf_of@.len(),
        (leaf_of@[obj] >> level_bit) & 1 == 0,
    ensures
        r@.len() == leaf_of@.len(),
        ({
            let field = (words@[offset + obj] >> shift) & mask;
            ((r@[obj] >> level_bit) & 1 == 1) == if one_hot { field == bin } else { field > bin }
        }),
        (r@[obj] >> other) & 1 == (leaf_of@[obj] >> other) & 1,
{
    crate::partition::law_routing_sets_one_bit(leaf_of@[obj], true, level_bit, other);
}

/// Every flagged element writes its position to the slot of its segment, unless a later one
/// names the same slot; a slot that no flagged element names keeps what it held.
pub proof fn law_scattered_offsets(init: Seq<u32>, flags: Seq<u64>, seg_ids: Seq<u64>, upto: nat, slot: int)
    requires
        0 <= slot < init.len(),
        upto <= u32::MAX,
        upto <= flags.len(),
        flags.len() == seg_ids.len(),
        forall|i: int| 0 <= i < upto && flags[i] != 0 ==> #[trigger] seg_ids[i] < init.len(),
    ensures
        scattered(init, flags, seg_ids, upto).len() == init.len(),
        (forall|i: int| 0 <= i < upto && flags[i] != 0 ==> #[trigger] seg_ids[i] != slot) ==> scattered(init, flags, seg_ids, upto)[slot]
            == init[slot],
        forall|i: int|
            0 <= i < upto && flags[i] != 0 && #[trigger] seg_ids[i] == slot && (forall|j: int|
                i < j < upto && flags[j] != 0 ==> #[trigger] seg_ids[j] != slot) ==> scattered(init, flags, seg_ids, upto)[slot] == i,
    decreases upto,
{
    if upto > 0 {
        let last = upto - 1;
        law_scattered_offsets(init, flags, seg_ids, last as nat, slot);
        let (before, after) = (scattered(init, flags, seg_ids, last as nat), scattered(init, flags, seg_ids, upto));
        assert(flags[last] != 0 ==> seg_ids[last] < init.len());
        assert(after[slot] == if flags[last] != 0 && seg_ids[last] == slot { last as u32 } else { before[slot] });
        assert forall|i: int|
            0 <= i < upto && flags[i] != 0 && #[trigger] seg_ids[i] == slot && (forall|j: int|
                i < j < upto && flags[j] != 0 ==> #[trigger] seg_ids[j] != slot) implies after[slot] == i by {
            if i < last {
                assert(flags[last] != 0 ==> seg_ids[last] != slot);
                assert(before[slot] == i);
            }
        }
        if forall|i: int| 0 <= i < upto && flags[i] != 0 ==> #[trigger] seg_ids[i] != slot {
            assert(flags[last] != 0 ==> seg_ids[last] != slot);
        }
    }
}

/// A pool is warmed up at the least power of two, among the widths of a line, above the
/// border count, or at the widest.
pub proof fn law_hinted_width(border_count: int)
    ensures
        ({
            let w = hinted_width(border_count) as int;
            &&& w == 32 || w == 64 || w == 128 || w == 256
            &&& w > border_count || w == 256
            &&& w == 32 || w / 2 <= border_count
        }),
{
}

/// A warm-up pool keeps a depth between one and eight, steps every feature through all bins
/// by its own stride, and alternates its target.
pub proof fn law_warmup_pool(depth: usize, n_bins: usize, r: WarmupPool, f: int, i: int)
    requires
        call_ensures(warmup_pool, (depth, n_bins), r),
        0 < n_bins <= u32::MAX,
        0 <= f < r.columns@.len(),
        0 <= i,
        i + 1 < r.target@.len(),
    ensures
        r.columns@.len() == 2 && r.target@.len() == 2048,
        1 <= r.depth <= 8,
        1 <= depth <= 8 ==> r.depth == depth,
        r.n_borders + 1 == n_bins || n_bins == 1,
        r.columns@[f]@.len() == r.target@.len(),
        r.columns@[f]@[0] == 0,
        r.columns@[f]@[i] < n_bins,
        r.columns@[f]@[i + 1] as int == (r.columns@[f]@[i] + f + 1) % (n_bins as int),
        r.target@[0] == 0,
        r.target@[i] + r.target@[i + 1] == 1,
{
    let n = n_bins as int;
    let a = i * (f + 1);
    assert((i + 1) * (f + 1) == a + (f + 1)) by (nonlinear_arith)
        requires
            a == i * (f + 1),
    ;
    assert(0 * (f + 1) == 0);
    vstd::arithmetic::div_mod::lemma_small_mod(0, n as nat);
    vstd::arithmetic::div_mod::lemma_mod_bound(a, n);
    vstd::arithmetic::div_mod::lemma_mod_bound(a + (f + 1), n);
    vstd::arithmetic::div_mod::lemma_add_mod_noop(a, f + 1, n);
    vstd::arithmetic::div_mod::lemma_add_mod_noop(a % n, f + 1, n);
    vstd::arithmetic::div_mod::lemma_mod_twice(a, n);
}

/// The bins of a spread pool lie below the bin count. The first feature climbs from the
/// first bin as the objects go on; every other feature steps by its own stride through all
/// bins.
pub proof fn law_spread_pool(n: usize, n_features: usize, n_bins: usize, r: Vec<u32>, f: int, i: int)
    requires
        call_ensures(cindex_feature_major, (n, n_features, n_bins), r),
        0 < n_bins <= u32::MAX,
        0 <= f < n_features,
        0 <= i,
        i + 1 < n,
    ensures
        r@.len() == n_features * n,
        r@[f * n + i] < n_bins,
        r@[0] == 0,
        f == 0 ==> r@[f * n + i] <= r@[f * n + (i + 1)],
        f == 0 ==> r@[i] * n <= i * n_bins < (r@[i] + 1) * n,
        f > 0 ==> r@[f * n + (i + 1)] as int == (r@[f * n + i] + (f + 2)) % (n_bins as int),
        f > 0 ==> r@[f * n] as int == f % (n_bins as int),
{
    let (m, b) = (n as int, n_bins as int);
    lemma_row(f, n_features as int, m, i);
    lemma_row(f, n_features as int, m, i + 1);
    lemma_row(f, n_features as int, m, 0);
    lemma_row(0, n_features as int, m, 0);
    lemma_line_cell(f, m, i);
    lemma_line_cell(f, m, i + 1);
    lemma_line_cell(f, m, 0);
    lemma_line_cell(0, m, 0);
    lemma_climb(i, m, b);
    lemma_climb(i + 1, m, b);
    lemma_climb(0, m, b);
    assert(i * b <= (i + 1) * b) by (nonlinear_arith)
        requires
            b >= 0,
    ;
    vstd::arithmetic::div_mod::lemma_div_is_ordered(i * b, (i + 1) * b, m);
    let a = i * (f + 2) + f;
    assert((i + 1) * (f + 2) + f == a + (f + 2)) by (nonlinear_arith)
        requires
            a == i * (f + 2) + f,
    ;
    vstd::arithmetic::div_mod::lemma_mod_bound(a, b);
    vstd::arithmetic::div_mod::lemma_mod_bound(a + (f + 2), b);
    vstd::arithmetic::div_mod::lemma_mod_bound(f, b);
    vstd::arithmetic::div_mod::lemma_add_mod_noop(a, f + 2, b);
    vstd::arithmetic::div_mod::lemma_add_mod_noop(a % b, f + 2, b);
    vstd::arithmetic::div_mod::lemma_mod_twice(a, b);
    assert(0 * (f + 2) + f == f);
}

/// Where the climbing feature of a pool puts an object.
proof fn lemma_climb(i: int, n: int, b: int)
    requires
        0 <= i < n,
        0 < b,
    ensures
        0 <= (i * b) / n < b,
        ((i * b) / n) * n <= i * b < ((i * b) / n + 1) * n,
        i == 0 ==> (i * b) / n == 0,
{
    vstd::arithmetic::div_mod::lemma_fundamental_div_mod(i * b, n);
    vstd::arithmetic::div_mod::lemma_mod_bound(i * b, n);
    let q = (i * b) / n;
    assert(q * n == n * q) by (nonlinear_arith);
    assert((q + 1) * n == q * n + n) by (nonlinear_arith);
    assert(i * b < n * b) by (nonlinear_arith)
        requires
            i < n,
            0 < b,
    ;
    assert(0 <= i * b) by (nonlinear_arith)
        requires
            0 <= i,
            0 < b,
    ;
    assert(0 <= q < b) by (nonlinear_arith)
        requires
            q * n <= i * b < (q + 1) * n,
            0 <= i * b < n * b,
            0 < n,
    ;
    if i == 0 {
        assert(q == 0) by (nonlinear_arith)
            requires
                q * n <= 0 < (q + 1) * n,
                n > 0,
        ;
    }
}

/// A sum over a stretch adds up the elements of the stretch in their order.
proof fn lemma_stretch<F: Channel>(s: Seq<F>, lo: int, hi: int)
    requires
        0 <= lo <= hi <= s.len(),
    ensures
        fold_sum(s, lo, hi) == run_total(s.subrange(lo, hi)),
    decreases hi - lo,
{
    let part = s.subrange(lo, hi);
    if lo < hi {
        lemma_stretch(s, lo, hi - 1);
        assert(part.drop_last() =~= s.subrange(lo, hi - 1));
        assert(part.last() == s[hi - 1]);
    }
}

/// A block is reduced to the sum of its own elements: the stretch of its length that starts
/// at its place, as far as the column reaches. Reducing by planes gives the same.
pub proof fn law_block_reduction<F: Additive>(input: &[F], cube_pos: usize, cube_dim: usize, use_plane: bool, r: F)
    requires
        call_ensures(block_reduce_kernel::<F>, (input, cube_pos, cube_dim, use_plane), r),
        cube_dim > 0,
        cube_pos * cube_dim <= input@.len(),
    ensures
        ({
            let start = cube_pos * cube_dim;
            let end = if start + cube_dim < input@.len() { start + cube_dim } else { input@.len() as int };
            r == run_total(input@.subrange(start, end))
        }),
{
    let start = cube_pos * cube_dim;
    assert((cube_pos + 1) * cube_dim == start + cube_dim) by (nonlinear_arith)
        requires
            start == cube_pos * cube_dim,
    ;
    assert(0 <= start) by (nonlinear_arith)
        requires
            start == cube_pos * cube_dim,
            cube_pos >= 0,
            cube_dim >= 0,
    ;
    let end = if start + cube_dim < input@.len() { start + cube_dim } else { input@.len() as int };
    lemma_stretch(input@, start, end);
}

/// A scan gives every element the sum of those before it, with itself where it is inclusive;
/// the first exclusive entry is zero.
pub proof fn law_full_scan<F: Additive>(input: &[F], with: Vec<F>, without: Vec<F>, i: int)
    requires
        call_ensures(full_scan::<F>, (input, true), with),
        call_ensures(full_scan::<F>, (input, false), without),
        0 <= i < input@.len(),
    ensures
        with@.len() == input@.len() && without@.len() == input@.len(),
        with@[i] == run_total(input@.take(i + 1)),
        without@[i] == run_total(input@.take(i)),
        with@[i] == without@[i].plus_spec(input@[i]),
        without@[0] == F::zero_spec(),
{
    lemma_stretch(input@, 0, i + 1);
    lemma_stretch(input@, 0, i);
    assert(without@[0] == fold_sum(input@, 0, 0));
}

/// A segment is reduced to the sum of its own elements, under the key it starts with.
pub proof fn law_segment_sums<F: Additive>(
    keys: &[u32],
    values: &[F],
    seg_offsets: &[u32],
    r: (Vec<u32>, Vec<F>),
    sums: Vec<F>,
    s: int,
)
    requires
        call_ensures(reduce_by_key_kernel::<F>, (keys, values, seg_offsets), r),
        call_ensures(segmented_reduce_kernel::<F>, (values, seg_offsets), sums),
        0 <= s < seg_offsets@.len() - 1,
        seg_offsets@[s] <= seg_offsets@[s + 1] <= values@.len(),
    ensures
        sums@.len() == seg_offsets@.len() - 1,
        sums@[s] == run_total(values@.subrange(seg_offsets@[s] as int, seg_offsets@[s + 1] as int)),
        r.1@[s] == sums@[s],
        r.0@[s] == keys@[seg_offsets@[s] as int],
{
    lemma_stretch(values@, seg_offsets@[s] as int, seg_offsets@[s + 1] as int);
}

} // verus!
