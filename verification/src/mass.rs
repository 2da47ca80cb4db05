//! What the histograms promise as a whole: nothing is lost, nothing is counted twice, and
//! the order of the objects does not matter.

use vstd::prelude::*;
use crate::channel::{Additive, Channel};
use crate::histogram::{
    add_where, bin_at, hist2_fold, hist2_step, lemma_line_cell, pair_adds, pair_hist_fold, pair_targets,
};
use crate::scan::{fold_sum, law_sum_ignores_order};

verus! {

/// The sum of the first `m` cells of a line.
pub open spec fn cell_sum<F: Channel>(cells: spec_fn(int) -> F, m: nat) -> F
    decreases m,
{
    if m == 0 {
        F::zero_spec()
    } else {
        cell_sum(cells, (m - 1) as nat).plus_spec(cells(m - 1))
    }
}

/// Cells that agree have the same sum.
pub(crate) proof fn lemma_cell_sum_same<F: Channel>(a: spec_fn(int) -> F, b: spec_fn(int) -> F, m: nat)
    requires
        forall|r: int| 0 <= r < m ==> #[trigger] a(r) == b(r),
    ensures
        cell_sum(a, m) == cell_sum(b, m),
    decreases m,
{
    if m > 0 {
        lemma_cell_sum_same(a, b, (m - 1) as nat);
        assert(a(m - 1) == b(m - 1));
    }
}

/// Adding to one cell of a line adds to its sum.
pub(crate) proof fn lemma_cell_sum_bump<F: Additive>(a: spec_fn(int) -> F, b: spec_fn(int) -> F, hit: int, w: F, m: nat)
    requires
        0 <= hit,
        forall|r: int| 0 <= r < m ==> #[trigger] b(r) == add_where(a(r), r == hit, w),
    ensures
        cell_sum(b, m) == if hit < m {
            cell_sum(a, m).plus_spec(w)
        } else {
            cell_sum(a, m)
        },
    decreases m,
{
    if m > 0 {
        let last = (m - 1) as nat;
        lemma_cell_sum_bump(a, b, hit, w, last);
        assert(b(last as int) == add_where(a(last as int), last == hit, w));
        let s = cell_sum(a, last);
        let v = a(last as int);
        if hit == last {
            F::sum_laws(s, v, w);
        } else if hit < last {
            F::sum_laws(s, w, v);
            F::sum_laws(s, v, w);
            F::sum_laws(v, w, s);
        }
    }
}

/// The channel `ch` of feature `f` after the first `upto` objects, bin by bin.
pub open spec fn channel_cells<F: Channel>(
    der1: Seq<F>,
    weight: Seq<F>,
    cindex: Seq<u32>,
    indices: Seq<u32>,
    n_bins: int,
    mask: u32,
    f: int,
    ch: int,
    upto: nat,
) -> spec_fn(int) -> F {
    |b: int| hist2_fold(F::zero_spec(), der1, weight, cindex, indices, n_bins, mask, f * (n_bins * 2) + (b * 2 + ch), upto)
}

/// What the first `upto` objects bring to a channel.
pub open spec fn brought<F: Channel>(der1: Seq<F>, weight: Seq<F>, indices: Seq<u32>, ch: int, upto: nat) -> F
    decreases upto,
{
    if upto == 0 {
        F::zero_spec()
    } else {
        let obj = indices[upto - 1] as int;
        brought(der1, weight, indices, ch, (upto - 1) as nat).plus_spec(if ch == 0 { der1[obj] } else { weight[obj] })
    }
}

/// Every object is counted in exactly one bin of each feature: over the bins of a feature,
/// a channel sums to what the objects bring.
pub proof fn law_histogram_keeps_the_mass<F: Additive>(
    der1: Seq<F>,
    weight: Seq<F>,
    cindex: Seq<u32>,
    indices: Seq<u32>,
    n_bins: nat,
    mask: u32,
    f: int,
    ch: int,
    upto: nat,
)
    requires
        0 <= f,
        ch == 0 || ch == 1,
        upto <= indices.len(),
        forall|k: int|
            0 <= k < upto ==> 0 <= bin_at(cindex, indices.len() as int, f, #[trigger] indices[k] as int, mask) < n_bins,
    ensures
        cell_sum(channel_cells(der1, weight, cindex, indices, n_bins as int, mask, f, ch, upto), n_bins) == brought(
            der1,
            weight,
            indices,
            ch,
            upto,
        ),
    decreases upto,
{
    let after = channel_cells(der1, weight, cindex, indices, n_bins as int, mask, f, ch, upto);
    if upto == 0 {
        lemma_zero_cells(after, n_bins);
    } else {
        let prev = (upto - 1) as nat;
        let before = channel_cells(der1, weight, cindex, indices, n_bins as int, mask, f, ch, prev);
        law_histogram_keeps_the_mass(der1, weight, cindex, indices, n_bins, mask, f, ch, prev);
        let obj = indices[prev as int] as int;
        let hit = bin_at(cindex, indices.len() as int, f, obj, mask);
        let w = if ch == 0 {
            der1[obj]
        } else {
            weight[obj]
        };
        assert forall|b: int| 0 <= b < n_bins implies #[trigger] after(b) == add_where(before(b), b == hit, w) by {
            lemma_line_cell(f, (n_bins * 2) as int, b * 2 + ch);
        }
        lemma_cell_sum_bump(before, after, hit, w, n_bins);
    }
}

/// A line of zeros sums to zero.
pub(crate) proof fn lemma_zero_cells<F: Additive>(cells: spec_fn(int) -> F, m: nat)
    requires
        forall|r: int| 0 <= r < m ==> #[trigger] cells(r) == F::zero_spec(),
    ensures
        cell_sum(cells, m) == F::zero_spec(),
    decreases m,
{
    if m > 0 {
        lemma_zero_cells(cells, (m - 1) as nat);
        assert(cells(m - 1) == F::zero_spec());
        F::sum_laws(F::zero_spec(), F::zero_spec(), F::zero_spec());
    }
}

/// What each position of `indices` brings to cell `c`.
pub open spec fn shares<F: Channel>(
    der1: Seq<F>,
    weight: Seq<F>,
    cindex: Seq<u32>,
    indices: Seq<u32>,
    n_bins: int,
    mask: u32,
    c: int,
) -> Seq<F> {
    Seq::new(
        indices.len(),
        |k: int| hist2_step(F::zero_spec(), der1, weight, cindex, indices.len() as int, indices[k] as int, n_bins, mask, c),
    )
}

/// A cell is the sum of the shares.
proof fn lemma_cell_is_sum<F: Additive>(
    der1: Seq<F>,
    weight: Seq<F>,
    cindex: Seq<u32>,
    indices: Seq<u32>,
    n_bins: int,
    mask: u32,
    c: int,
    upto: nat,
)
    requires
        upto <= indices.len(),
    ensures
        hist2_fold(F::zero_spec(), der1, weight, cindex, indices, n_bins, mask, c, upto) == fold_sum(
            shares(der1, weight, cindex, indices, n_bins, mask, c),
            0,
            upto as int,
        ),
    decreases upto,
{
    let s = shares(der1, weight, cindex, indices, n_bins, mask, c);
    if upto > 0 {
        let prev = (upto - 1) as nat;
        lemma_cell_is_sum(der1, weight, cindex, indices, n_bins, mask, c, prev);
        let total = fold_sum(s, 0, prev as int);
        let obj = indices[prev as int] as int;
        let v = if (c % (n_bins * 2)) % 2 == 0 {
            der1[obj]
        } else {
            weight[obj]
        };
        F::sum_laws(total, v, v);
        F::sum_laws(v, F::zero_spec(), v);
        assert(s[prev as int] == hist2_step(F::zero_spec(), der1, weight, cindex, indices.len() as int, obj, n_bins, mask, c));
    }
}

/// The order in which the objects come does not matter to a histogram:
/// exchanging two objects leaves every cell as it is.
pub proof fn law_histogram_ignores_order<F: Additive>(
    der1: Seq<F>,
    weight: Seq<F>,
    cindex: Seq<u32>,
    indices: Seq<u32>,
    n_bins: int,
    mask: u32,
    c: int,
    i: int,
    j: int,
)
    requires
        0 <= i < j < indices.len(),
    ensures
        hist2_fold(
            F::zero_spec(),
            der1,
            weight,
            cindex,
            indices.update(i, indices[j]).update(j, indices[i]),
            n_bins,
            mask,
            c,
            indices.len(),
        ) == hist2_fold(F::zero_spec(), der1, weight, cindex, indices, n_bins, mask, c, indices.len()),
{
    let swapped = indices.update(i, indices[j]).update(j, indices[i]);
    let s = shares(der1, weight, cindex, indices, n_bins, mask, c);
    let t = shares(der1, weight, cindex, swapped, n_bins, mask, c);
    lemma_cell_is_sum(der1, weight, cindex, indices, n_bins, mask, c, indices.len());
    lemma_cell_is_sum(der1, weight, cindex, swapped, n_bins, mask, c, indices.len());
    law_sum_ignores_order(s, i, j);
    assert(t =~= s.update(i, s[j]).update(j, s[i]));
}

/// The line of feature `f` after the first `upto` pairs, cell by cell.
pub open spec fn pair_cells<F: Channel>(
    pair_i: Seq<u32>,
    pair_j: Seq<u32>,
    pair_weight: Seq<F>,
    cindex: Seq<u32>,
    n_objects: int,
    n_bins: int,
    mask: u32,
    one_hot: bool,
    f: int,
    upto: nat,
) -> spec_fn(int) -> F {
    |r: int|
        pair_hist_fold(
            F::zero_spec(),
            pair_i,
            pair_j,
            pair_weight,
            cindex,
            n_objects,
            n_bins,
            mask,
            one_hot,
            f * (n_bins * 4) + r,
            upto,
        )
}

/// Four times the weight of the first `upto` pairs.
pub open spec fn four_weights<F: Channel>(pair_weight: Seq<F>, upto: nat) -> F
    decreases upto,
{
    if upto == 0 {
        F::zero_spec()
    } else {
        let w = pair_weight[upto - 1];
        four_weights(pair_weight, (upto - 1) as nat).plus_spec(w).plus_spec(w).plus_spec(w).plus_spec(w)
    }
}

/// Every pair is counted four times in the line of each feature, twice for each of its
/// objects: the line sums to four times the weight of the pairs.
pub proof fn law_pairs_keep_the_mass<F: Additive>(
    pair_i: Seq<u32>,
    pair_j: Seq<u32>,
    pair_weight: Seq<F>,
    cindex: Seq<u32>,
    n_objects: int,
    n_bins: nat,
    mask: u32,
    one_hot: bool,
    f: int,
    upto: nat,
)
    requires
        0 <= f,
        forall|p: int|
            0 <= p < upto ==> 0 <= bin_at(cindex, n_objects, f, #[trigger] pair_i[p] as int, mask) < n_bins,
        forall|p: int|
            0 <= p < upto ==> 0 <= bin_at(cindex, n_objects, f, #[trigger] pair_j[p] as int, mask) < n_bins,
    ensures
        cell_sum(
            pair_cells(pair_i, pair_j, pair_weight, cindex, n_objects, n_bins as int, mask, one_hot, f, upto),
            n_bins * 4,
        ) == four_weights(pair_weight, upto),
    decreases upto,
{
    let after = pair_cells(pair_i, pair_j, pair_weight, cindex, n_objects, n_bins as int, mask, one_hot, f, upto);
    let line = n_bins * 4;
    if upto == 0 {
        lemma_zero_cells(after, line);
    } else {
        let prev = (upto - 1) as nat;
        let before = pair_cells(pair_i, pair_j, pair_weight, cindex, n_objects, n_bins as int, mask, one_hot, f, prev);
        law_pairs_keep_the_mass(pair_i, pair_j, pair_weight, cindex, n_objects, n_bins, mask, one_hot, f, prev);
        let b1 = bin_at(cindex, n_objects, f, pair_i[prev as int] as int, mask);
        let b2 = bin_at(cindex, n_objects, f, pair_j[prev as int] as int, mask);
        let t = pair_targets(one_hot, b1, b2);
        let w = pair_weight[prev as int];
        let one = |r: int| add_where(before(r), r == t.0, w);
        let two = |r: int| add_where(one(r), r == t.1, w);
        let three = |r: int| add_where(two(r), r == t.2, w);
        let four = |r: int| add_where(three(r), r == t.3, w);
        lemma_cell_sum_bump(before, one, t.0, w, line);
        lemma_cell_sum_bump(one, two, t.1, w, line);
        lemma_cell_sum_bump(two, three, t.2, w, line);
        lemma_cell_sum_bump(three, four, t.3, w, line);
        assert forall|r: int| 0 <= r < line implies #[trigger] after(r) == four(r) by {
            lemma_line_cell(f, line as int, r);
            assert(after(r) == pair_adds(before(r), r, t, w));
        }
        lemma_cell_sum_same(after, four, line);
    }
}

} // verus!
