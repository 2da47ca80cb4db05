//! Histogram fills: every object, or every pair of objects, adds its contribution to one
//! line of cells per feature.

use vstd::prelude::*;
use crate::cell_laws::{bin_objects, law_partition_statistics, lemma_histogram_filled, part_objects, run_from};
use crate::channel::Channel;

verus! {

/// Cells per bin of a pairwise histogram.
pub const PAIR_HIST_CHANNELS: usize = 4;

/// Bins of a half-byte feature.
pub const HALF_BYTE_BINS: usize = 16;

/// The bin of an object in a feature-major column, after masking.
pub open spec fn bin_at(cindex: Seq<u32>, rows: int, feature: int, obj: int, mask: u32) -> int {
    (cindex[feature * rows + obj] & mask) as int
}

/// Every masked bin of the column lies below `n_bins`.
pub open spec fn bins_below(cindex: Seq<u32>, mask: u32, n_bins: int) -> bool {
    forall|k: int| 0 <= k < cindex.len() ==> (#[trigger] cindex[k] & mask) < n_bins
}

/// Every entry of the column lies below `bound`.
pub open spec fn all_below(s: Seq<u32>, bound: int) -> bool {
    forall|k: int| 0 <= k < s.len() ==> (#[trigger] s[k]) < bound
}

/// Where a flat index lies relative to lines of `line` cells.
pub proof fn lemma_line(c: int, line: int, feature: int)
    requires
        0 <= c,
        0 < line,
        0 <= feature,
    ensures
        (c < feature * line) <==> (c / line < feature),
        0 <= c % line < line,
        c == (c / line) * line + c % line,
        0 <= c / line,
{
    vstd::arithmetic::div_mod::lemma_fundamental_div_mod(c, line);
    let q = c / line;
    let r = c % line;
    assert(q >= 0) by (nonlinear_arith)
        requires
            c == line * q + r,
            0 <= c,
            r < line,
            0 < line,
    ;
    assert(line * q == q * line) by (nonlinear_arith);
    if q < feature {
        assert(c < feature * line) by (nonlinear_arith)
            requires
                c == line * q + r,
                r < line,
                q + 1 <= feature,
                0 < line,
        ;
    } else {
        assert(c >= feature * line) by (nonlinear_arith)
            requires
                c == line * q + r,
                0 <= r,
                q >= feature,
                0 < line,
        ;
    }
}

/// A cell of a line is found again from its flat index.
pub proof fn lemma_line_cell(feature: int, line: int, r: int)
    requires
        0 <= r < line,
        0 <= feature,
    ensures
        (feature * line + r) / line == feature,
        (feature * line + r) % line == r,
{
    vstd::arithmetic::div_mod::lemma_fundamental_div_mod_converse(feature * line + r, line, feature, r);
}

/// A row of a feature-major table lies inside it.
pub proof fn lemma_row(feature: int, n_features: int, rows: int, obj: int)
    requires
        0 <= feature < n_features,
        0 <= obj < rows,
    ensures
        0 <= feature * rows + obj < n_features * rows,
        0 <= feature * rows <= n_features * rows,
{
    assert(feature * rows + rows <= n_features * rows) by (nonlinear_arith)
        requires
            feature + 1 <= n_features,
            0 < rows,
    ;
    assert(0 <= feature * rows) by (nonlinear_arith)
        requires
            0 <= feature,
            0 < rows,
    ;
}

/// Adds `w` to one cell.
fn bump<F: Channel>(cells: &mut Vec<F>, cell: usize, w: F)
    requires
        cell < old(cells)@.len(),
    ensures
        final(cells)@ == old(cells)@.update(cell as int, old(cells)@[cell as int].plus_spec(w)),
{
    let v: F = cells[cell].plus(w);
    cells.set(cell, v);
}

/// The cell `c` of a two-channel histogram after one object: the derivative goes to the
/// even cell of the object's bin, the weight to the odd one.
pub open spec fn hist2_step<F: Channel>(
    acc: F,
    der1: Seq<F>,
    weight: Seq<F>,
    cindex: Seq<u32>,
    rows: int,
    obj: int,
    n_bins: int,
    mask: u32,
    c: int,
) -> F {
    let line = n_bins * 2;
    if bin_at(cindex, rows, c / line, obj, mask) == (c % line) / 2 {
        acc.plus_spec(if (c % line) % 2 == 0 { der1[obj] } else { weight[obj] })
    } else {
        acc
    }
}

/// The cell `c` of a two-channel histogram after the first `upto` objects of `indices`.
pub open spec fn hist2_fold<F: Channel>(
    init: F,
    der1: Seq<F>,
    weight: Seq<F>,
    cindex: Seq<u32>,
    indices: Seq<u32>,
    n_bins: int,
    mask: u32,
    c: int,
    upto: nat,
) -> F
    decreases upto,
{
    if upto == 0 {
        init
    } else {
        hist2_step(
            hist2_fold(init, der1, weight, cindex, indices, n_bins, mask, c, (upto - 1) as nat),
            der1,
            weight,
            cindex,
            indices.len() as int,
            indices[upto - 1] as int,
            n_bins,
            mask,
            c,
        )
    }
}

/// The columns that a two-channel fill reads and writes fit together.
pub open spec fn hist2_shapes<F: Channel>(
    der1: Seq<F>,
    weight: Seq<F>,
    cindex: Seq<u32>,
    indices: Seq<u32>,
    cells: int,
    n_features: int,
    n_bins: int,
    mask: u32,
) -> bool {
    &&& der1.len() >= indices.len()
    &&& weight.len() >= indices.len()
    &&& all_below(indices, indices.len() as int)
    &&& cindex.len() == n_features * indices.len()
    &&& bins_below(cindex, mask, n_bins)
    &&& cells == n_features * (n_bins * 2)
}

/// Fills a two-channel histogram with the bins masked by `mask`.
fn hist2_fill<F: Channel>(
    der1: &[F],
    weight: &[F],
    cindex: &[u32],
    indices: &[u32],
    bin_sums: &mut Vec<F>,
    n_features: usize,
    n_bins: usize,
    mask: u32,
)
    requires
        hist2_shapes(der1@, weight@, cindex@, indices@, old(bin_sums)@.len() as int, n_features as int, n_bins as int, mask),
    ensures
        final(bin_sums)@.len() == old(bin_sums)@.len(),
        forall|c: int|
            0 <= c < old(bin_sums)@.len() ==> #[trigger] final(bin_sums)@[c] == hist2_fold(
                old(bin_sums)@[c],
                der1@,
                weight@,
                cindex@,
                indices@,
                n_bins as int,
                mask,
                c,
                indices@.len(),
            ),
{
    let ghost init = bin_sums@;
    let ghost line = n_bins * 2;
    let n: usize = indices.len();
    let stride: usize = cindex.len();
    let total: usize = bin_sums.len();
    let mut i: usize = 0;
    while i < n
        invariant
            i <= n,
            n == indices@.len(),
            stride == cindex@.len(),
            total == init.len(),
            line == n_bins * 2,
            bin_sums@.len() == init.len(),
            hist2_shapes(der1@, weight@, cindex@, indices@, init.len() as int, n_features as int, n_bins as int, mask),
            forall|c: int|
                0 <= c < init.len() ==> #[trigger] bin_sums@[c] == hist2_fold(init[c], der1@, weight@, cindex@, indices@, n_bins as int, mask, c, i as nat),
        decreases n - i,
    {
        let obj: usize = indices[i] as usize;
        let d: F = der1[obj];
        let w: F = weight[obj];
        let mut feature: usize = 0;
        while feature < n_features
            invariant
                feature <= n_features,
                i < n,
                n == indices@.len(),
                stride == cindex@.len(),
                total == init.len(),
                line == n_bins * 2,
                obj == indices@[i as int],
                obj < n,
                d == der1@[obj as int],
                w == weight@[obj as int],
                bin_sums@.len() == init.len(),
                hist2_shapes(der1@, weight@, cindex@, indices@, init.len() as int, n_features as int, n_bins as int, mask),
                forall|c: int|
                    0 <= c < init.len() ==> #[trigger] bin_sums@[c] == hist2_fold(
                        init[c],
                        der1@,
                        weight@,
                        cindex@,
                        indices@,
                        n_bins as int,
                        mask,
                        c,
                        if c < feature * line { (i + 1) as nat } else { i as nat },
                    ),
            decreases n_features - feature,
        {
            proof {
                lemma_row(feature as int, n_features as int, n as int, obj as int);
            }
            let bin: usize = (cindex[feature * n + obj] & mask) as usize;
            proof {
                lemma_row(feature as int, n_features as int, line as int, bin * 2);
                lemma_row(feature as int, n_features as int, line as int, bin * 2 + 1);
                lemma_line_cell(feature as int, line as int, bin * 2);
                lemma_line_cell(feature as int, line as int, bin * 2 + 1);
                assert((feature * n_bins + bin) * 2 == feature * line + bin * 2) by (nonlinear_arith)
                    requires
                        line == n_bins * 2,
                ;
                assert(feature * n_bins <= feature * line) by (nonlinear_arith)
                    requires
                        line == n_bins * 2,
                        0 <= feature,
                        0 <= n_bins,
                ;
            }
            let cell: usize = (feature * n_bins + bin) * 2;
            let ghost before = bin_sums@;
            bump(bin_sums, cell, d);
            bump(bin_sums, cell + 1, w);
            proof {
                assert forall|c: int| 0 <= c < init.len() implies #[trigger] bin_sums@[c] == hist2_fold(
                    init[c],
                    der1@,
                    weight@,
                    cindex@,
                    indices@,
                    n_bins as int,
                    mask,
                    c,
                    if c < (feature + 1) * line { (i + 1) as nat } else { i as nat },
                ) by {
                    lemma_line(c, line as int, feature as int);
                    lemma_line(c, line as int, feature + 1);
                    assert(before[c] == hist2_fold(init[c], der1@, weight@, cindex@, indices@, n_bins as int, mask, c,
                        if c < feature * line { (i + 1) as nat } else { i as nat }));
                }
            }
            feature = feature + 1;
        }
        proof {
            assert forall|c: int| 0 <= c < init.len() implies #[trigger] bin_sums@[c] == hist2_fold(init[c], der1@, weight@, cindex@, indices@, n_bins as int, mask, c, (i + 1) as nat) by {
                assert(c < n_features * line);
            }
        }
        i = i + 1;
    }
}

/// Fills a two-channel histogram of one-byte features with `1 << bits` bins.
pub fn pointwise_hist2_nonbinary_kernel<F: Channel>(
    der1: &[F],
    weight: &[F],
    cindex: &[u32],
    indices: &[u32],
    bin_sums: &mut Vec<F>,
    n_features: usize,
    n_bins: usize,
)
    requires
        hist2_shapes(der1@, weight@, cindex@, indices@, old(bin_sums)@.len() as int, n_features as int, n_bins as int, u32::MAX),
    ensures
        final(bin_sums)@.len() == old(bin_sums)@.len(),
        forall|c: int|
            0 <= c < old(bin_sums)@.len() ==> #[trigger] final(bin_sums)@[c] == hist2_fold(
                old(bin_sums)@[c],
                der1@,
                weight@,
                cindex@,
                indices@,
                n_bins as int,
                u32::MAX,
                c,
                indices@.len(),
            ),
        forall|f: int, b: int|
            0 <= f < n_features && 0 <= b < n_bins ==> {
                let own = #[trigger] bin_objects(cindex@, indices@, u32::MAX, f, b);
                let cell = f * (n_bins * 2) + b * 2;
                &&& final(bin_sums)@[cell] == run_from(old(bin_sums)@[cell], own.map_values(|obj: u32| der1@[obj as int]))
                &&& final(bin_sums)@[cell + 1] == run_from(old(bin_sums)@[cell + 1], own.map_values(|obj: u32| weight@[obj as int]))
            },
{
    let ghost before = bin_sums@;
    hist2_fill(der1, weight, cindex, indices, bin_sums, n_features, n_bins, u32::MAX);
    proof {
        lemma_histogram_filled(before, bin_sums@, der1@, weight@, cindex@, indices@, n_features as int, n_bins as int, u32::MAX);
    }
}

/// Fills a two-channel histogram of half-byte features.
pub fn pointwise_hist2_half_byte_kernel<F: Channel>(
    der1: &[F],
    weight: &[F],
    cindex: &[u32],
    indices: &[u32],
    bin_sums: &mut Vec<F>,
    n_features: usize,
)
    requires
        der1@.len() >= indices@.len(),
        weight@.len() >= indices@.len(),
        all_below(indices@, indices@.len() as int),
        cindex@.len() == n_features * indices@.len(),
        old(bin_sums)@.len() == n_features * 32,
    ensures
        final(bin_sums)@.len() == old(bin_sums)@.len(),
        forall|c: int|
            0 <= c < old(bin_sums)@.len() ==> #[trigger] final(bin_sums)@[c] == hist2_fold(
                old(bin_sums)@[c],
                der1@,
                weight@,
                cindex@,
                indices@,
                16,
                15,
                c,
                indices@.len(),
            ),
        forall|f: int, b: int|
            0 <= f < n_features && 0 <= b < 16 ==> {
                let own = #[trigger] bin_objects(cindex@, indices@, 15, f, b);
                let cell = f * (32) + b * 2;
                &&& final(bin_sums)@[cell] == run_from(old(bin_sums)@[cell], own.map_values(|obj: u32| der1@[obj as int]))
                &&& final(bin_sums)@[cell + 1] == run_from(old(bin_sums)@[cell + 1], own.map_values(|obj: u32| weight@[obj as int]))
            },
{
    proof {
        assert(forall|x: u32| #[trigger] (x & 15) < 16) by (bit_vector);
    }
    let ghost before = bin_sums@;
    hist2_fill(der1, weight, cindex, indices, bin_sums, n_features, HALF_BYTE_BINS, 15);
    proof {
        lemma_histogram_filled(before, bin_sums@, der1@, weight@, cindex@, indices@, n_features as int, 16, 15);
    }
}

/// Fills a two-channel histogram of binary features.
pub fn pointwise_hist2_binary_kernel<F: Channel>(
    der1: &[F],
    weight: &[F],
    cindex: &[u32],
    indices: &[u32],
    bin_sums: &mut Vec<F>,
    n_features: usize,
)
    requires
        der1@.len() >= indices@.len(),
        weight@.len() >= indices@.len(),
        all_below(indices@, indices@.len() as int),
        cindex@.len() == n_features * indices@.len(),
        old(bin_sums)@.len() == n_features * 4,
    ensures
        final(bin_sums)@.len() == old(bin_sums)@.len(),
        forall|c: int|
            0 <= c < old(bin_sums)@.len() ==> #[trigger] final(bin_sums)@[c] == hist2_fold(
                old(bin_sums)@[c],
                der1@,
                weight@,
                cindex@,
                indices@,
                2,
                1,
                c,
                indices@.len(),
            ),
        forall|f: int, b: int|
            0 <= f < n_features && 0 <= b < 2 ==> {
                let own = #[trigger] bin_objects(cindex@, indices@, 1, f, b);
                let cell = f * (4) + b * 2;
                &&& final(bin_sums)@[cell] == run_from(old(bin_sums)@[cell], own.map_values(|obj: u32| der1@[obj as int]))
                &&& final(bin_sums)@[cell + 1] == run_from(old(bin_sums)@[cell + 1], own.map_values(|obj: u32| weight@[obj as int]))
            },
{
    proof {
        assert(forall|x: u32| #[trigger] (x & 1) < 2) by (bit_vector);
    }
    let ghost before = bin_sums@;
    hist2_fill(der1, weight, cindex, indices, bin_sums, n_features, 2, 1);
    proof {
        lemma_histogram_filled(before, bin_sums@, der1@, weight@, cindex@, indices@, n_features as int, 2, 1);
    }
}

/// The four cells of a line that a pair contributes to, in the order of the additions.
///
/// A threshold feature adds to the lower-bin and the upper-bin channel of both objects,
/// once for "not below" and once for "above". A one-hot feature adds twice to the channel
/// of "same bin" or of "different bin".
pub open spec fn pair_targets(one_hot: bool, b1: int, b2: int) -> (int, int, int, int) {
    if one_hot {
        let ge = if b1 == b2 { 0int } else { 1int };
        (b1 * 4 + 2 * ge, b1 * 4 + 2 * ge, b2 * 4 + 2 * ge + 1, b2 * 4 + 2 * ge + 1)
    } else {
        let ge = if b1 >= b2 { 1int } else { 0int };
        let gt = if b1 > b2 { 1int } else { 0int };
        (b1 * 4 + 2 * ge, b1 * 4 + 2 * gt, b2 * 4 + 2 * ge + 1, b2 * 4 + 2 * gt + 1)
    }
}

/// A cell after one more contribution, where it is hit.
pub open spec fn add_where<F: Channel>(acc: F, hit: bool, w: F) -> F {
    if hit {
        acc.plus_spec(w)
    } else {
        acc
    }
}

/// The cell `r` of a line after the four additions of a pair.
pub open spec fn pair_adds<F: Channel>(acc: F, r: int, t: (int, int, int, int), w: F) -> F {
    add_where(add_where(add_where(add_where(acc, r == t.0, w), r == t.1, w), r == t.2, w), r == t.3, w)
}

/// The cell `c` of a pairwise histogram after the first `upto` pairs.
pub open spec fn pair_hist_fold<F: Channel>(
    init: F,
    pair_i: Seq<u32>,
    pair_j: Seq<u32>,
    pair_weight: Seq<F>,
    cindex: Seq<u32>,
    n_objects: int,
    n_bins: int,
    mask: u32,
    one_hot: bool,
    c: int,
    upto: nat,
) -> F
    decreases upto,
{
    if upto == 0 {
        init
    } else {
        let line = n_bins * 4;
        let p = upto - 1;
        pair_adds(
            pair_hist_fold(init, pair_i, pair_j, pair_weight, cindex, n_objects, n_bins, mask, one_hot, c, p as nat),
            c % line,
            pair_targets(
                one_hot,
                bin_at(cindex, n_objects, c / line, pair_i[p] as int, mask),
                bin_at(cindex, n_objects, c / line, pair_j[p] as int, mask),
            ),
            pair_weight[p],
        )
    }
}

/// The columns that a pairwise fill reads and writes fit together.
pub open spec fn pair_hist_shapes(
    pair_i: Seq<u32>,
    pair_j: Seq<u32>,
    pairs: int,
    cindex: Seq<u32>,
    cells: int,
    n_features: int,
    n_objects: int,
    n_bins: int,
    mask: u32,
) -> bool {
    &&& pair_i.len() == pairs
    &&& pair_j.len() == pairs
    &&& all_below(pair_i, n_objects)
    &&& all_below(pair_j, n_objects)
    &&& cindex.len() == n_features * n_objects
    &&& bins_below(cindex, mask, n_bins)
    &&& cells == n_features * (n_bins * 4)
}

/// The cells after the four additions of a pair to the line that starts at `base`.
pub open spec fn pair_added<F: Channel>(cells: Seq<F>, base: int, t: (int, int, int, int), w: F) -> Seq<F> {
    add_at(add_at(add_at(add_at(cells, base + t.0, w), base + t.1, w), base + t.2, w), base + t.3, w)
}

/// What the four additions of a pair do to one cell.
proof fn lemma_pair_cell<F: Channel>(
    cells: Seq<F>,
    line: int,
    feature: int,
    t: (int, int, int, int),
    w: F,
    c: int,
)
    requires
        0 <= feature,
        0 <= t.0 < line,
        0 <= t.1 < line,
        0 <= t.2 < line,
        0 <= t.3 < line,
        0 <= c < cells.len(),
        (feature + 1) * line <= cells.len(),
    ensures
        pair_added(cells, feature * line, t, w)[c] == if c / line == feature {
            pair_adds(cells[c], c % line, t, w)
        } else {
            cells[c]
        },
{
    lemma_line(c, line, feature);
    lemma_line_cell(feature, line, t.0);
    lemma_line_cell(feature, line, t.1);
    lemma_line_cell(feature, line, t.2);
    lemma_line_cell(feature, line, t.3);
    assert((feature + 1) * line == feature * line + line) by (nonlinear_arith);
    assert(0 <= feature * line) by (nonlinear_arith)
        requires
            0 <= feature,
            0 < line,
    ;
    let s1 = add_at(cells, feature * line + t.0, w);
    let s2 = add_at(s1, feature * line + t.1, w);
    let s3 = add_at(s2, feature * line + t.2, w);
    if c / line == feature {
        assert(s1[c] == add_where(cells[c], c % line == t.0, w));
        assert(s2[c] == add_where(s1[c], c % line == t.1, w));
        assert(s3[c] == add_where(s2[c], c % line == t.2, w));
    } else {
        assert(s1[c] == cells[c]);
        assert(s2[c] == cells[c]);
        assert(s3[c] == cells[c]);
    }
}

/// Adds the weight of a pair to its four cells of one line.
fn pair_bump<F: Channel>(cells: &mut Vec<F>, base: usize, b1: usize, b2: usize, one_hot: bool, w: F)
    requires
        base + b1 * 4 + 4 <= old(cells)@.len(),
        base + b2 * 4 + 4 <= old(cells)@.len(),
        old(cells)@.len() <= usize::MAX,
    ensures
        final(cells)@ == pair_added(old(cells)@, base as int, pair_targets(one_hot, b1 as int, b2 as int), w),
{
    if one_hot {
        let ge: usize = if b1 == b2 { 0 } else { 1 };
        let cell1: usize = base + b1 * 4 + 2 * ge;
        let cell2: usize = base + b2 * 4 + 2 * ge + 1;
        bump(cells, cell1, w);
        bump(cells, cell1, w);
        bump(cells, cell2, w);
        bump(cells, cell2, w);
    } else {
        let ge: usize = if b1 >= b2 { 1 } else { 0 };
        let gt: usize = if b1 > b2 { 1 } else { 0 };
        let b1_base: usize = base + b1 * 4;
        bump(cells, b1_base + 2 * ge, w);
        bump(cells, b1_base + 2 * gt, w);
        let b2_base: usize = base + b2 * 4;
        bump(cells, b2_base + 2 * ge + 1, w);
        bump(cells, b2_base + 2 * gt + 1, w);
    }
}

/// Fills a pairwise histogram with the bins masked by `mask`.
fn pair_hist_fill<F: Channel>(
    pair_i: &[u32],
    pair_j: &[u32],
    pair_weight: &[F],
    cindex: &[u32],
    bin_sums: &mut Vec<F>,
    n_features: usize,
    n_objects: usize,
    n_bins: usize,
    mask: u32,
    one_hot: bool,
)
    requires
        pair_hist_shapes(pair_i@, pair_j@, pair_weight@.len() as int, cindex@, old(bin_sums)@.len() as int, n_features as int, n_objects as int, n_bins as int, mask),
    ensures
        final(bin_sums)@.len() == old(bin_sums)@.len(),
        forall|c: int|
            0 <= c < old(bin_sums)@.len() ==> #[trigger] final(bin_sums)@[c] == pair_hist_fold(
                old(bin_sums)@[c],
                pair_i@,
                pair_j@,
                pair_weight@,
                cindex@,
                n_objects as int,
                n_bins as int,
                mask,
                one_hot,
                c,
                pair_weight@.len(),
            ),
{
    let ghost init = bin_sums@;
    let ghost line = n_bins * 4;
    let n_pairs: usize = pair_weight.len();
    let stride: usize = cindex.len();
    let total: usize = bin_sums.len();
    let mut p: usize = 0;
    while p < n_pairs
        invariant
            p <= n_pairs,
            n_pairs == pair_weight@.len(),
            stride == cindex@.len(),
            total == init.len(),
            line == n_bins * 4,
            bin_sums@.len() == init.len(),
            pair_hist_shapes(pair_i@, pair_j@, pair_weight@.len() as int, cindex@, init.len() as int, n_features as int, n_objects as int, n_bins as int, mask),
            forall|c: int|
                0 <= c < init.len() ==> #[trigger] bin_sums@[c] == pair_hist_fold(init[c], pair_i@, pair_j@, pair_weight@, cindex@, n_objects as int, n_bins as int, mask, one_hot, c, p as nat),
        decreases n_pairs - p,
    {
        let oi: usize = pair_i[p] as usize;
        let oj: usize = pair_j[p] as usize;
        let w: F = pair_weight[p];
        let mut feature: usize = 0;
        while feature < n_features
            invariant
                feature <= n_features,
                p < n_pairs,
                n_pairs == pair_weight@.len(),
                stride == cindex@.len(),
                total == init.len(),
                line == n_bins * 4,
                oi == pair_i@[p as int],
                oj == pair_j@[p as int],
                oi < n_objects,
                oj < n_objects,
                w == pair_weight@[p as int],
                bin_sums@.len() == init.len(),
                pair_hist_shapes(pair_i@, pair_j@, pair_weight@.len() as int, cindex@, init.len() as int, n_features as int, n_objects as int, n_bins as int, mask),
                forall|c: int|
                    0 <= c < init.len() ==> #[trigger] bin_sums@[c] == pair_hist_fold(
                        init[c],
                        pair_i@,
                        pair_j@,
                        pair_weight@,
                        cindex@,
                        n_objects as int,
                        n_bins as int,
                        mask,
                        one_hot,
                        c,
                        if c < feature * line { (p + 1) as nat } else { p as nat },
                    ),
            decreases n_features - feature,
        {
            proof {
                lemma_row(feature as int, n_features as int, n_objects as int, oi as int);
                lemma_row(feature as int, n_features as int, n_objects as int, oj as int);
            }
            let b1: usize = (cindex[feature * n_objects + oi] & mask) as usize;
            let b2: usize = (cindex[feature * n_objects + oj] & mask) as usize;
            let ghost t = pair_targets(one_hot, b1 as int, b2 as int);
            proof {
                lemma_row(feature as int, n_features as int, line as int, b1 * 4 + 3);
                lemma_row(feature as int, n_features as int, line as int, b2 * 4 + 3);
                lemma_row(feature as int, n_features as int, line as int, line - 1);
                assert((feature + 1) * line == feature * line + line) by (nonlinear_arith);
                assert((feature * n_bins) * 4 == feature * line) by (nonlinear_arith)
                    requires
                        line == n_bins * 4,
                ;
                assert(0 <= feature * n_bins <= feature * line) by (nonlinear_arith)
                    requires
                        line == n_bins * 4,
                        0 <= feature,
                        0 <= n_bins,
                ;
            }
            let base: usize = (feature * n_bins) * 4;
            let ghost before = bin_sums@;
            pair_bump(bin_sums, base, b1, b2, one_hot, w);
            proof {
                assert forall|c: int| 0 <= c < init.len() implies #[trigger] bin_sums@[c] == pair_hist_fold(
                    init[c],
                    pair_i@,
                    pair_j@,
                    pair_weight@,
                    cindex@,
                    n_objects as int,
                    n_bins as int,
                    mask,
                    one_hot,
                    c,
                    if c < (feature + 1) * line { (p + 1) as nat } else { p as nat },
                ) by {
                    lemma_line(c, line as int, feature as int);
                    lemma_line(c, line as int, feature + 1);
                    lemma_pair_cell(before, line as int, feature as int, t, w, c);
                    assert(before[c] == pair_hist_fold(init[c], pair_i@, pair_j@, pair_weight@, cindex@, n_objects as int, n_bins as int, mask, one_hot, c,
                        if c < feature * line { (p + 1) as nat } else { p as nat }));
                }
            }
            feature = feature + 1;
        }
        proof {
            assert forall|c: int| 0 <= c < init.len() implies #[trigger] bin_sums@[c] == pair_hist_fold(init[c], pair_i@, pair_j@, pair_weight@, cindex@, n_objects as int, n_bins as int, mask, one_hot, c, (p + 1) as nat) by {
                assert(c < n_features * line);
            }
        }
        p = p + 1;
    }
}

/// `cells` with `w` added to one of them.
pub open spec fn add_at<F: Channel>(cells: Seq<F>, cell: int, w: F) -> Seq<F> {
    cells.update(cell, cells[cell].plus_spec(w))
}

/// Fills a pairwise histogram of one-byte features with `n_bins` bins.
pub fn pairwise_hist_nonbinary_kernel<F: Channel>(
    pair_i: &[u32],
    pair_j: &[u32],
    pair_weight: &[F],
    cindex: &[u32],
    bin_sums: &mut Vec<F>,
    n_features: usize,
    n_objects: usize,
    n_bins: usize,
    one_hot: bool,
)
    requires
        pair_hist_shapes(pair_i@, pair_j@, pair_weight@.len() as int, cindex@, old(bin_sums)@.len() as int, n_features as int, n_objects as int, n_bins as int, u32::MAX),
    ensures
        final(bin_sums)@.len() == old(bin_sums)@.len(),
        forall|c: int|
            0 <= c < old(bin_sums)@.len() ==> #[trigger] final(bin_sums)@[c] == pair_hist_fold(
                old(bin_sums)@[c],
                pair_i@,
                pair_j@,
                pair_weight@,
                cindex@,
                n_objects as int,
                n_bins as int,
                u32::MAX,
                one_hot,
                c,
                pair_weight@.len(),
            ),
{
    pair_hist_fill(pair_i, pair_j, pair_weight, cindex, bin_sums, n_features, n_objects, n_bins, u32::MAX, one_hot);
}

/// Fills a pairwise histogram of eight-bit features.
pub fn pairwise_hist_8bit_atomics_kernel<F: Channel>(
    pair_i: &[u32],
    pair_j: &[u32],
    pair_weight: &[F],
    cindex: &[u32],
    bin_sums: &mut Vec<F>,
    n_features: usize,
    n_objects: usize,
    one_hot: bool,
)
    requires
        pair_hist_shapes(pair_i@, pair_j@, pair_weight@.len() as int, cindex@, old(bin_sums)@.len() as int, n_features as int, n_objects as int, 256, u32::MAX),
    ensures
        final(bin_sums)@.len() == old(bin_sums)@.len(),
        forall|c: int|
            0 <= c < old(bin_sums)@.len() ==> #[trigger] final(bin_sums)@[c] == pair_hist_fold(
                old(bin_sums)@[c],
                pair_i@,
                pair_j@,
                pair_weight@,
                cindex@,
                n_objects as int,
                256,
                u32::MAX,
                one_hot,
                c,
                pair_weight@.len(),
            ),
{
    pair_hist_fill(pair_i, pair_j, pair_weight, cindex, bin_sums, n_features, n_objects, 256, u32::MAX, one_hot);
}

/// Fills a pairwise histogram of half-byte features. The bins are the low nibbles.
pub fn pairwise_hist_half_byte_kernel<F: Channel>(
    pair_i: &[u32],
    pair_j: &[u32],
    pair_weight: &[F],
    cindex: &[u32],
    bin_sums: &mut Vec<F>,
    n_features: usize,
    n_objects: usize,
)
    requires
        pair_i@.len() == pair_weight@.len(),
        pair_j@.len() == pair_weight@.len(),
        all_below(pair_i@, n_objects as int),
        all_below(pair_j@, n_objects as int),
        cindex@.len() == n_features * n_objects,
        old(bin_sums)@.len() == n_features * 64,
    ensures
        final(bin_sums)@.len() == old(bin_sums)@.len(),
        forall|c: int|
            0 <= c < old(bin_sums)@.len() ==> #[trigger] final(bin_sums)@[c] == pair_hist_fold(
                old(bin_sums)@[c],
                pair_i@,
                pair_j@,
                pair_weight@,
                cindex@,
                n_objects as int,
                16,
                15,
                false,
                c,
                pair_weight@.len(),
            ),
{
    proof {
        assert(forall|x: u32| #[trigger] (x & 15) < 16) by (bit_vector);
    }
    pair_hist_fill(pair_i, pair_j, pair_weight, cindex, bin_sums, n_features, n_objects, HALF_BYTE_BINS, 15, false);
}

/// Fills a pairwise histogram of binary features. The bins are the low bits.
pub fn pairwise_hist_binary_kernel<F: Channel>(
    pair_i: &[u32],
    pair_j: &[u32],
    pair_weight: &[F],
    cindex: &[u32],
    bin_sums: &mut Vec<F>,
    n_features: usize,
    n_objects: usize,
)
    requires
        pair_i@.len() == pair_weight@.len(),
        pair_j@.len() == pair_weight@.len(),
        all_below(pair_i@, n_objects as int),
        all_below(pair_j@, n_objects as int),
        cindex@.len() == n_features * n_objects,
        old(bin_sums)@.len() == n_features * 8,
    ensures
        final(bin_sums)@.len() == old(bin_sums)@.len(),
        forall|c: int|
            0 <= c < old(bin_sums)@.len() ==> #[trigger] final(bin_sums)@[c] == pair_hist_fold(
                old(bin_sums)@[c],
                pair_i@,
                pair_j@,
                pair_weight@,
                cindex@,
                n_objects as int,
                2,
                1,
                false,
                c,
                pair_weight@.len(),
            ),
{
    proof {
        assert(forall|x: u32| #[trigger] (x & 1) < 2) by (bit_vector);
    }
    pair_hist_fill(pair_i, pair_j, pair_weight, cindex, bin_sums, n_features, n_objects, 2, 1, false);
}

/// The cell `c` of the per-bin derivative sums after the first `upto` objects of `indices`.
pub open spec fn der_sums_fold<F: Channel>(
    init: F,
    der1: Seq<F>,
    cindex: Seq<u32>,
    indices: Seq<u32>,
    n_bins: int,
    c: int,
    upto: nat,
) -> F
    decreases upto,
{
    if upto == 0 {
        init
    } else {
        let obj = indices[upto - 1] as int;
        add_where(
            der_sums_fold(init, der1, cindex, indices, n_bins, c, (upto - 1) as nat),
            cindex[(c / n_bins) * indices.len() + obj] == c % n_bins,
            der1[obj],
        )
    }
}

/// Adds every object's derivative to its bin, for each feature.
pub fn pairwise_make_derivatives_kernel<F: Channel>(
    der1: &[F],
    cindex: &[u32],
    indices: &[u32],
    der_sums: &mut Vec<F>,
    n_features: usize,
    n_bins: usize,
)
    requires
        der1@.len() >= indices@.len(),
        all_below(indices@, indices@.len() as int),
        cindex@.len() == n_features * indices@.len(),
        all_below(cindex@, n_bins as int),
        old(der_sums)@.len() == n_features * n_bins,
    ensures
        final(der_sums)@.len() == old(der_sums)@.len(),
        forall|c: int|
            0 <= c < old(der_sums)@.len() ==> #[trigger] final(der_sums)@[c] == der_sums_fold(
                old(der_sums)@[c],
                der1@,
                cindex@,
                indices@,
                n_bins as int,
                c,
                indices@.len(),
            ),
{
    let ghost init = der_sums@;
    let n: usize = indices.len();
    let stride: usize = cindex.len();
    let total: usize = der_sums.len();
    let mut i: usize = 0;
    while i < n
        invariant
            i <= n,
            n == indices@.len(),
            stride == cindex@.len(),
            total == init.len(),
            der_sums@.len() == init.len(),
            der1@.len() >= n,
            all_below(indices@, indices@.len() as int),
            cindex@.len() == n_features * n,
            all_below(cindex@, n_bins as int),
            init.len() == n_features * n_bins,
            forall|c: int|
                0 <= c < init.len() ==> #[trigger] der_sums@[c] == der_sums_fold(init[c], der1@, cindex@, indices@, n_bins as int, c, i as nat),
        decreases n - i,
    {
        let obj: usize = indices[i] as usize;
        let d: F = der1[obj];
        let mut feature: usize = 0;
        while feature < n_features
            invariant
                feature <= n_features,
                i < n,
                n == indices@.len(),
                stride == cindex@.len(),
                total == init.len(),
                obj == indices@[i as int],
                obj < n,
                d == der1@[obj as int],
                der_sums@.len() == init.len(),
                cindex@.len() == n_features * n,
                all_below(cindex@, n_bins as int),
                init.len() == n_features * n_bins,
                forall|c: int|
                    0 <= c < init.len() ==> #[trigger] der_sums@[c] == der_sums_fold(
                        init[c],
                        der1@,
                        cindex@,
                        indices@,
                        n_bins as int,
                        c,
                        if c < feature * n_bins { (i + 1) as nat } else { i as nat },
                    ),
            decreases n_features - feature,
        {
            proof {
                lemma_row(feature as int, n_features as int, n as int, obj as int);
            }
            let bin: usize = cindex[feature * n + obj] as usize;
            proof {
                lemma_row(feature as int, n_features as int, n_bins as int, bin as int);
                lemma_line_cell(feature as int, n_bins as int, bin as int);
            }
            let ghost before = der_sums@;
            bump(der_sums, feature * n_bins + bin, d);
            proof {
                assert forall|c: int| 0 <= c < init.len() implies #[trigger] der_sums@[c] == der_sums_fold(
                    init[c],
                    der1@,
                    cindex@,
                    indices@,
                    n_bins as int,
                    c,
                    if c < (feature + 1) * n_bins { (i + 1) as nat } else { i as nat },
                ) by {
                    lemma_line(c, n_bins as int, feature as int);
                    lemma_line(c, n_bins as int, feature + 1);
                    assert(before[c] == der_sums_fold(init[c], der1@, cindex@, indices@, n_bins as int, c,
                        if c < feature * n_bins { (i + 1) as nat } else { i as nat }));
                }
            }
            feature = feature + 1;
        }
        proof {
            assert forall|c: int| 0 <= c < init.len() implies #[trigger] der_sums@[c] == der_sums_fold(init[c], der1@, cindex@, indices@, n_bins as int, c, (i + 1) as nat) by {
                assert(c < n_features * n_bins);
            }
        }
        i = i + 1;
    }
}

/// The statistic `c` of the partitions after the first `upto` objects of `indices`:
/// derivatives in the even slots, weights in the odd ones.
pub open spec fn part_stats_fold<F: Channel>(
    init: F,
    der1: Seq<F>,
    weight: Seq<F>,
    indices: Seq<u32>,
    leaf_of: Seq<u32>,
    c: int,
    upto: nat,
) -> F
    decreases upto,
{
    if upto == 0 {
        init
    } else {
        let obj = indices[upto - 1] as int;
        add_where(
            part_stats_fold(init, der1, weight, indices, leaf_of, c, (upto - 1) as nat),
            leaf_of[obj] as int == c / 2,
            if c % 2 == 0 { der1[obj] } else { weight[obj] },
        )
    }
}

/// Adds every object to the statistics of its partition. Objects of a partition without a
/// complete pair of slots are left out.
pub fn partition_update_kernel<F: Channel>(
    der1: &[F],
    weight: &[F],
    indices: &[u32],
    leaf_of: &[u32],
    part_stats: &mut Vec<F>,
)
    requires
        der1@.len() >= indices@.len(),
        weight@.len() >= indices@.len(),
        leaf_of@.len() >= indices@.len(),
        all_below(indices@, indices@.len() as int),
    ensures
        final(part_stats)@.len() == old(part_stats)@.len(),
        forall|c: int|
            0 <= c < old(part_stats)@.len() ==> #[trigger] final(part_stats)@[c] == if c / 2 < old(part_stats)@.len() as int / 2 {
                part_stats_fold(old(part_stats)@[c], der1@, weight@, indices@, leaf_of@, c, indices@.len())
            } else {
                old(part_stats)@[c]
            },
        forall|leaf: int|
            0 <= leaf < old(part_stats)@.len() as int / 2 ==> {
                let own = #[trigger] part_objects(leaf_of@, indices@, leaf);
                &&& final(part_stats)@[leaf * 2] == run_from(old(part_stats)@[leaf * 2], own.map_values(|obj: u32| der1@[obj as int]))
                &&& final(part_stats)@[leaf * 2 + 1] == run_from(
                    old(part_stats)@[leaf * 2 + 1],
                    own.map_values(|obj: u32| weight@[obj as int]),
                )
            },
{
    let ghost init = part_stats@;
    let n: usize = indices.len();
    let total: usize = part_stats.len();
    let slots: usize = total / 2;
    let mut i: usize = 0;
    while i < n
        invariant
            i <= n,
            n == indices@.len(),
            total == init.len(),
            slots == total / 2,
            part_stats@.len() == init.len(),
            der1@.len() >= n,
            weight@.len() >= n,
            leaf_of@.len() >= n,
            all_below(indices@, indices@.len() as int),
            forall|c: int|
                0 <= c < init.len() ==> #[trigger] part_stats@[c] == if c / 2 < slots {
                    part_stats_fold(init[c], der1@, weight@, indices@, leaf_of@, c, i as nat)
                } else {
                    init[c]
                },
        decreases n - i,
    {
        let obj: usize = indices[i] as usize;
        let part: usize = leaf_of[obj] as usize;
        let ghost before = part_stats@;
        if part < slots {
            bump(part_stats, part * 2, der1[obj]);
            bump(part_stats, part * 2 + 1, weight[obj]);
        }
        proof {
            assert forall|c: int| 0 <= c < init.len() implies #[trigger] part_stats@[c] == if c / 2 < slots {
                part_stats_fold(init[c], der1@, weight@, indices@, leaf_of@, c, (i + 1) as nat)
            } else {
                init[c]
            } by {
                assert(before[c] == if c / 2 < slots {
                    part_stats_fold(init[c], der1@, weight@, indices@, leaf_of@, c, i as nat)
                } else {
                    init[c]
                });
            }
        }
        i = i + 1;
    }
    proof {
        assert forall|leaf: int| 0 <= leaf < init.len() as int / 2 implies {
            let own = #[trigger] part_objects(leaf_of@, indices@, leaf);
            &&& part_stats@[leaf * 2] == run_from(init[leaf * 2], own.map_values(|obj: u32| der1@[obj as int]))
            &&& part_stats@[leaf * 2 + 1] == run_from(init[leaf * 2 + 1], own.map_values(|obj: u32| weight@[obj as int]))
        } by {
            law_partition_statistics(init[leaf * 2], der1@, weight@, indices@, leaf_of@, leaf);
            law_partition_statistics(init[leaf * 2 + 1], der1@, weight@, indices@, leaf_of@, leaf);
            assert(leaf * 2 + 0 == leaf * 2);
        }
    }
}

} // verus!
