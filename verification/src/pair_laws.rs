//! What the pairwise histograms count: how the bins of the two objects of a pair compare
//! decides where the pair's weight goes.

use vstd::prelude::*;
use crate::channel::{Additive, Channel};
use crate::error::CbResult;
use crate::histogram::{add_where, bin_at, lemma_line_cell, lemma_row, pair_adds, pair_hist_fold, pair_targets};
use crate::mass::{cell_sum, lemma_cell_sum_bump, lemma_cell_sum_same, lemma_zero_cells};
use crate::pairwise::{
    launch_pairwise_hist, launch_pairwise_hist_8bit, launch_pairwise_hist_binary, launch_pairwise_hist_half_byte,
    lemma_checked_shapes,
};

verus! {

/// The weight of those of the first `upto` pairs that `keep` picks.
pub open spec fn weight_where<F: Channel>(pair_weight: Seq<F>, keep: spec_fn(int) -> bool, upto: nat) -> F
    decreases upto,
{
    if upto == 0 {
        F::zero_spec()
    } else if keep(upto - 1) {
        weight_where(pair_weight, keep, (upto - 1) as nat).plus_spec(pair_weight[upto - 1])
    } else {
        weight_where(pair_weight, keep, (upto - 1) as nat)
    }
}

/// Two additions to a sum of two, one to each.
proof fn lemma_both<F: Additive>(a: F, b: F, w: F)
    ensures
        a.plus_spec(b).plus_spec(w).plus_spec(w) == a.plus_spec(w).plus_spec(b.plus_spec(w)),
        a.plus_spec(b).plus_spec(w) == a.plus_spec(w).plus_spec(b),
        a.plus_spec(b).plus_spec(w) == a.plus_spec(b.plus_spec(w)),
{
    F::sum_laws(a, b, w);
    F::sum_laws(b, w, w);
    F::sum_laws(a, w, b);
    F::sum_laws(a.plus_spec(w), b, w);
}

/// What the cell of bin `b` and channel `ch` holds after the first `upto` pairs, where `bi`
/// and `bj` are the bins of the objects of a pair.
proof fn lemma_cell_counts<F: Additive>(
    pair_i: Seq<u32>,
    pair_j: Seq<u32>,
    pair_weight: Seq<F>,
    cindex: Seq<u32>,
    n_objects: int,
    n_bins: int,
    mask: u32,
    one_hot: bool,
    f: int,
    b: int,
    ch: int,
    bi: spec_fn(int) -> int,
    bj: spec_fn(int) -> int,
    upto: nat,
)
    requires
        0 <= f,
        0 <= b < n_bins,
        0 <= ch < 4,
        forall|p: int| 0 <= p < upto ==> #[trigger] bi(p) == bin_at(cindex, n_objects, f, pair_i[p] as int, mask),
        forall|p: int| 0 <= p < upto ==> #[trigger] bj(p) == bin_at(cindex, n_objects, f, pair_j[p] as int, mask),
    ensures
        pair_hist_fold(
            F::zero_spec(),
            pair_i,
            pair_j,
            pair_weight,
            cindex,
            n_objects,
            n_bins,
            mask,
            one_hot,
            f * (n_bins * 4) + (b * 4 + ch),
            upto,
        ) == weight_where(pair_weight, first_addition(one_hot, b, ch, bi, bj), upto).plus_spec(
            weight_where(pair_weight, second_addition(one_hot, b, ch, bi, bj), upto),
        ),
    decreases upto,
{
    let zero = F::zero_spec();
    let c = f * (n_bins * 4) + (b * 4 + ch);
    if upto == 0 {
        F::sum_laws(zero, zero, zero);
    } else {
        let prev = (upto - 1) as nat;
        lemma_cell_counts(pair_i, pair_j, pair_weight, cindex, n_objects, n_bins, mask, one_hot, f, b, ch, bi, bj, prev);
        let p = prev as int;
        let w = pair_weight[p];
        let (k1, k2) = (first_addition(one_hot, b, ch, bi, bj), second_addition(one_hot, b, ch, bi, bj));
        let (x, y) = (weight_where(pair_weight, k1, prev), weight_where(pair_weight, k2, prev));
        lemma_line_cell(f, n_bins * 4, b * 4 + ch);
        assert(bi(p) == bin_at(cindex, n_objects, f, pair_i[p] as int, mask));
        assert(bj(p) == bin_at(cindex, n_objects, f, pair_j[p] as int, mask));
        lemma_both(x, y, w);
        let t = pair_targets(one_hot, bi(p), bj(p));
        let before = pair_hist_fold(zero, pair_i, pair_j, pair_weight, cindex, n_objects, n_bins, mask, one_hot, c, prev);
        assert(pair_hist_fold(zero, pair_i, pair_j, pair_weight, cindex, n_objects, n_bins, mask, one_hot, c, upto) == pair_adds(
            before,
            b * 4 + ch,
            t,
            w,
        ));
    }
}

/// Whether a pair adds to the cell of bin `b` and channel `ch` a first time. Channels zero
/// and two are those of the pair's first object, one and three those of its second. A
/// threshold feature has the pairs whose first bin is below the second in the lower two.
spec fn first_addition(one_hot: bool, b: int, ch: int, bi: spec_fn(int) -> int, bj: spec_fn(int) -> int) -> spec_fn(int) -> bool {
    |p: int|
        (if ch == 0 || ch == 2 {
            bi(p) == b
        } else {
            bj(p) == b
        }) && if one_hot {
            if ch < 2 {
                bi(p) == bj(p)
            } else {
                bi(p) != bj(p)
            }
        } else {
            if ch < 2 {
                bi(p) < bj(p)
            } else {
                bi(p) >= bj(p)
            }
        }
}

/// Whether a pair adds to the cell of bin `b` and channel `ch` a second time.
spec fn second_addition(one_hot: bool, b: int, ch: int, bi: spec_fn(int) -> int, bj: spec_fn(int) -> int) -> spec_fn(int) -> bool {
    |p: int|
        (if ch == 0 || ch == 2 {
            bi(p) == b
        } else {
            bj(p) == b
        }) && if one_hot {
            if ch < 2 {
                bi(p) == bj(p)
            } else {
                bi(p) != bj(p)
            }
        } else {
            if ch < 2 {
                bi(p) <= bj(p)
            } else {
                bi(p) > bj(p)
            }
        }
}

/// Choices that agree pick the same weight.
proof fn lemma_same_choice<F: Channel>(pair_weight: Seq<F>, a: spec_fn(int) -> bool, b: spec_fn(int) -> bool, upto: nat)
    requires
        forall|p: int| 0 <= p < upto ==> #[trigger] a(p) == b(p),
    ensures
        weight_where(pair_weight, a, upto) == weight_where(pair_weight, b, upto),
    decreases upto,
{
    if upto > 0 {
        lemma_same_choice(pair_weight, a, b, (upto - 1) as nat);
        assert(a(upto - 1) == b(upto - 1));
    }
}

/// One of the four families filled a pairwise histogram. Half-byte and binary features are
/// never one-hot.
pub open spec fn pairs_filled<F: Channel>(
    pair_i: &[u32],
    pair_j: &[u32],
    pair_weight: &[F],
    cindex: &[u32],
    n_objects: usize,
    n_bins: usize,
    n_features: usize,
    bits: u32,
    one_hot: bool,
    r: CbResult<Vec<F>>,
) -> bool {
    ||| call_ensures(
        launch_pairwise_hist::<F>,
        (pair_i, pair_j, pair_weight, cindex, n_objects, n_bins, n_features, bits, one_hot),
        r,
    )
    ||| call_ensures(
        launch_pairwise_hist_8bit::<F>,
        (pair_i, pair_j, pair_weight, cindex, n_objects, n_bins, n_features, one_hot),
        r,
    )
    ||| !one_hot && call_ensures(
        launch_pairwise_hist_half_byte::<F>,
        (pair_i, pair_j, pair_weight, cindex, n_objects, n_bins, n_features),
        r,
    )
    ||| !one_hot && call_ensures(
        launch_pairwise_hist_binary::<F>,
        (pair_i, pair_j, pair_weight, cindex, n_objects, n_bins, n_features),
        r,
    )
}

proof fn lemma_filled<F: Channel>(
    pair_i: &[u32],
    pair_j: &[u32],
    pair_weight: &[F],
    cindex: &[u32],
    n_objects: usize,
    n_bins: usize,
    n_features: usize,
    bits: u32,
    one_hot: bool,
    r: CbResult<Vec<F>>,
    f: int,
    b: int,
    ch: int,
    bi: spec_fn(int) -> int,
    bj: spec_fn(int) -> int,
) -> (mask: u32)
    requires
        pairs_filled(pair_i, pair_j, pair_weight, cindex, n_objects, n_bins, n_features, bits, one_hot, r),
        r is Ok,
        pair_i@.len() > 0,
        0 <= f < n_features,
        0 <= b < n_bins,
        0 <= ch < 4,
        bi == (|p: int| cindex@[f * n_objects + pair_i@[p]] as int),
        bj == (|p: int| cindex@[f * n_objects + pair_j@[p]] as int),
    ensures
        pair_j@.len() == pair_i@.len(),
        pair_weight@.len() == pair_i@.len(),
        0 <= f * (n_bins * 4) + (b * 4 + ch) < r->Ok_0@.len(),
        r->Ok_0@[f * (n_bins * 4) + (b * 4 + ch)] == pair_hist_fold(
            F::zero_spec(),
            pair_i@,
            pair_j@,
            pair_weight@,
            cindex@,
            n_objects as int,
            n_bins as int,
            mask,
            one_hot,
            f * (n_bins * 4) + (b * 4 + ch),
            pair_weight@.len(),
        ),
        forall|p: int| 0 <= p < pair_weight@.len() ==> #[trigger] bi(p) == bin_at(cindex@, n_objects as int, f, pair_i@[p] as int, mask),
        forall|p: int| 0 <= p < pair_weight@.len() ==> #[trigger] bj(p) == bin_at(cindex@, n_objects as int, f, pair_j@[p] as int, mask),
{
    let n = pair_weight@.len();
    lemma_checked_shapes(
        pair_i@,
        pair_j@,
        n as int,
        cindex@,
        n_objects as int,
        n_bins as int,
        n_features as int,
    );
    lemma_row(f, n_features as int, n_bins * 4, b * 4 + ch);
    let mask: u32 = if call_ensures(
        launch_pairwise_hist::<F>,
        (pair_i, pair_j, pair_weight, cindex, n_objects, n_bins, n_features, bits, one_hot),
        r,
    ) || call_ensures(
        launch_pairwise_hist_8bit::<F>,
        (pair_i, pair_j, pair_weight, cindex, n_objects, n_bins, n_features, one_hot),
        r,
    ) {
        u32::MAX
    } else if call_ensures(
        launch_pairwise_hist_half_byte::<F>,
        (pair_i, pair_j, pair_weight, cindex, n_objects, n_bins, n_features),
        r,
    ) {
        15
    } else {
        1
    };
    assert(forall|x: u32| #[trigger] (x & u32::MAX) == x) by (bit_vector);
    assert(forall|x: u32| x < 16 ==> #[trigger] (x & 15) == x) by (bit_vector);
    assert(forall|x: u32| x < 2 ==> #[trigger] (x & 1) == x) by (bit_vector);
    assert forall|p: int| 0 <= p < n implies #[trigger] bi(p) == bin_at(cindex@, n_objects as int, f, pair_i@[p] as int, mask) by {
        assert(pair_i@[p] < n_objects);
        lemma_row(f, n_features as int, n_objects as int, pair_i@[p] as int);
        assert(cindex@[f * n_objects + pair_i@[p]] < n_bins);
    }
    assert forall|p: int| 0 <= p < n implies #[trigger] bj(p) == bin_at(cindex@, n_objects as int, f, pair_j@[p] as int, mask) by {
        assert(pair_j@[p] < n_objects);
        lemma_row(f, n_features as int, n_objects as int, pair_j@[p] as int);
        assert(cindex@[f * n_objects + pair_j@[p]] < n_bins);
    }
    mask
}

proof fn lemma_filled_cell<F: Additive>(
    pair_i: &[u32],
    pair_j: &[u32],
    pair_weight: &[F],
    cindex: &[u32],
    n_objects: usize,
    n_bins: usize,
    n_features: usize,
    bits: u32,
    one_hot: bool,
    r: CbResult<Vec<F>>,
    f: int,
    b: int,
    ch: int,
    bi: spec_fn(int) -> int,
    bj: spec_fn(int) -> int,
)
    requires
        pairs_filled(pair_i, pair_j, pair_weight, cindex, n_objects, n_bins, n_features, bits, one_hot, r),
        r is Ok,
        pair_i@.len() > 0,
        0 <= f < n_features,
        0 <= b < n_bins,
        0 <= ch < 4,
        bi == (|p: int| cindex@[f * n_objects + pair_i@[p]] as int),
        bj == (|p: int| cindex@[f * n_objects + pair_j@[p]] as int),
    ensures
        0 <= f * (n_bins * 4) + (b * 4 + ch) < r->Ok_0@.len(),
        r->Ok_0@[f * (n_bins * 4) + (b * 4 + ch)] == weight_where(
            pair_weight@,
            first_addition(one_hot, b, ch, bi, bj),
            pair_weight@.len(),
        ).plus_spec(weight_where(pair_weight@, second_addition(one_hot, b, ch, bi, bj), pair_weight@.len())),
{
    let mask = lemma_filled(pair_i, pair_j, pair_weight, cindex, n_objects, n_bins, n_features, bits, one_hot, r, f, b, ch, bi, bj);
    lemma_cell_counts(
        pair_i@,
        pair_j@,
        pair_weight@,
        cindex@,
        n_objects as int,
        n_bins as int,
        mask,
        one_hot,
        f,
        b,
        ch,
        bi,
        bj,
        pair_weight@.len(),
    );
}

/// A pair that is alone in a threshold histogram. Where its first object lies below the
/// second, the first channel of the first bin and the second channel of the second bin hold
/// twice its weight, and nothing else holds anything; where it lies above, the third and the
/// fourth do; where the two share a bin, each channel of that bin holds the weight once.
pub proof fn law_lone_threshold_pair<F: Channel>(
    pair_i: &[u32],
    pair_j: &[u32],
    pair_weight: &[F],
    cindex: &[u32],
    n_objects: usize,
    n_bins: usize,
    n_features: usize,
    bits: u32,
    r: CbResult<Vec<F>>,
    f: int,
    b: int,
    ch: int,
)
    requires
        pairs_filled(pair_i, pair_j, pair_weight, cindex, n_objects, n_bins, n_features, bits, false, r),
        r is Ok,
        pair_i@.len() == 1,
        0 <= f < n_features,
        0 <= b < n_bins,
        0 <= ch < 4,
    ensures
        ({
            let b1 = cindex@[f * n_objects + pair_i@[0]];
            let b2 = cindex@[f * n_objects + pair_j@[0]];
            let zero = F::zero_spec();
            let once = zero.plus_spec(pair_weight@[0]);
            let twice = once.plus_spec(pair_weight@[0]);
            let cell = r->Ok_0@[f * (n_bins * 4) + (b * 4 + ch)];
            &&& b1 < b2 ==> cell == if (ch == 0 && b == b1) || (ch == 1 && b == b2) { twice } else { zero }
            &&& b1 > b2 ==> cell == if (ch == 2 && b == b1) || (ch == 3 && b == b2) { twice } else { zero }
            &&& b1 == b2 ==> cell == if b == b1 { once } else { zero }
        }),
{
    let bi = |p: int| cindex@[f * n_objects + pair_i@[p]] as int;
    let bj = |p: int| cindex@[f * n_objects + pair_j@[p]] as int;
    let mask = lemma_filled(pair_i, pair_j, pair_weight, cindex, n_objects, n_bins, n_features, bits, false, r, f, b, ch, bi, bj);
    assert(bi(0) == bin_at(cindex@, n_objects as int, f, pair_i@[0] as int, mask));
    assert(bj(0) == bin_at(cindex@, n_objects as int, f, pair_j@[0] as int, mask));
    lemma_line_cell(f, n_bins * 4, b * 4 + ch);
    reveal_with_fuel(pair_hist_fold, 2);
}

/// A threshold feature tells the pairs apart by direction. In a filled histogram the first
/// channel of a bin weighs the pairs whose first object lies in it below the second, plus
/// those where it does not lie above; the third weighs those where it does not lie below,
/// plus those where it lies above. The second and the fourth weigh the same pairs at the
/// bin of the second object.
pub proof fn law_threshold_pairs_by_direction<F: Additive>(
    pair_i: &[u32],
    pair_j: &[u32],
    pair_weight: &[F],
    cindex: &[u32],
    n_objects: usize,
    n_bins: usize,
    n_features: usize,
    bits: u32,
    r: CbResult<Vec<F>>,
    f: int,
    b: int,
)
    requires
        pairs_filled(pair_i, pair_j, pair_weight, cindex, n_objects, n_bins, n_features, bits, false, r),
        r is Ok,
        pair_i@.len() > 0,
        0 <= f < n_features,
        0 <= b < n_bins,
    ensures
        ({
            let bi = |p: int| cindex@[f * n_objects + pair_i@[p]] as int;
            let bj = |p: int| cindex@[f * n_objects + pair_j@[p]] as int;
            let cell = |ch: int| r->Ok_0@[f * (n_bins * 4) + (b * 4 + ch)];
            let weigh = |keep: spec_fn(int) -> bool| weight_where(pair_weight@, keep, pair_weight@.len());
            &&& cell(0) == weigh(|p: int| bi(p) == b && bi(p) < bj(p)).plus_spec(weigh(|p: int| bi(p) == b && bi(p) <= bj(p)))
            &&& cell(1) == weigh(|p: int| bj(p) == b && bi(p) < bj(p)).plus_spec(weigh(|p: int| bj(p) == b && bi(p) <= bj(p)))
            &&& cell(2) == weigh(|p: int| bi(p) == b && bi(p) >= bj(p)).plus_spec(weigh(|p: int| bi(p) == b && bi(p) > bj(p)))
            &&& cell(3) == weigh(|p: int| bj(p) == b && bi(p) >= bj(p)).plus_spec(weigh(|p: int| bj(p) == b && bi(p) > bj(p)))
        }),
{
    let bi = |p: int| cindex@[f * n_objects + pair_i@[p]] as int;
    let bj = |p: int| cindex@[f * n_objects + pair_j@[p]] as int;
    let n = pair_weight@.len();
    lemma_filled_cell(pair_i, pair_j, pair_weight, cindex, n_objects, n_bins, n_features, bits, false, r, f, b, 0, bi, bj);
    lemma_filled_cell(pair_i, pair_j, pair_weight, cindex, n_objects, n_bins, n_features, bits, false, r, f, b, 1, bi, bj);
    lemma_filled_cell(pair_i, pair_j, pair_weight, cindex, n_objects, n_bins, n_features, bits, false, r, f, b, 2, bi, bj);
    lemma_filled_cell(pair_i, pair_j, pair_weight, cindex, n_objects, n_bins, n_features, bits, false, r, f, b, 3, bi, bj);
    let w = pair_weight@;
    lemma_same_choice(w, first_addition(false, b, 0, bi, bj), |p: int| bi(p) == b && bi(p) < bj(p), n);
    lemma_same_choice(w, second_addition(false, b, 0, bi, bj), |p: int| bi(p) == b && bi(p) <= bj(p), n);
    lemma_same_choice(w, first_addition(false, b, 1, bi, bj), |p: int| bj(p) == b && bi(p) < bj(p), n);
    lemma_same_choice(w, second_addition(false, b, 1, bi, bj), |p: int| bj(p) == b && bi(p) <= bj(p), n);
    lemma_same_choice(w, first_addition(false, b, 2, bi, bj), |p: int| bi(p) == b && bi(p) >= bj(p), n);
    lemma_same_choice(w, second_addition(false, b, 2, bi, bj), |p: int| bi(p) == b && bi(p) > bj(p), n);
    lemma_same_choice(w, first_addition(false, b, 3, bi, bj), |p: int| bj(p) == b && bi(p) >= bj(p), n);
    lemma_same_choice(w, second_addition(false, b, 3, bi, bj), |p: int| bj(p) == b && bi(p) > bj(p), n);
}

/// A one-hot feature tells the pairs apart by whether the two objects share a bin. In a
/// filled histogram the lower two channels of a bin weigh twice the pairs that share it,
/// the upper two those whose first, or second, object alone lies in it.
pub proof fn law_one_hot_pairs_by_bin<F: Additive>(
    pair_i: &[u32],
    pair_j: &[u32],
    pair_weight: &[F],
    cindex: &[u32],
    n_objects: usize,
    n_bins: usize,
    n_features: usize,
    bits: u32,
    r: CbResult<Vec<F>>,
    f: int,
    b: int,
)
    requires
        pairs_filled(pair_i, pair_j, pair_weight, cindex, n_objects, n_bins, n_features, bits, true, r),
        r is Ok,
        pair_i@.len() > 0,
        0 <= f < n_features,
        0 <= b < n_bins,
    ensures
        ({
            let bi = |p: int| cindex@[f * n_objects + pair_i@[p]] as int;
            let bj = |p: int| cindex@[f * n_objects + pair_j@[p]] as int;
            let cell = |ch: int| r->Ok_0@[f * (n_bins * 4) + (b * 4 + ch)];
            let weigh = |keep: spec_fn(int) -> bool| weight_where(pair_weight@, keep, pair_weight@.len());
            let shared = weigh(|p: int| bi(p) == b && bj(p) == b);
            let first = weigh(|p: int| bi(p) == b && bj(p) != b);
            let second = weigh(|p: int| bi(p) != b && bj(p) == b);
            &&& cell(0) == shared.plus_spec(shared)
            &&& cell(1) == shared.plus_spec(shared)
            &&& cell(2) == first.plus_spec(first)
            &&& cell(3) == second.plus_spec(second)
        }),
{
    let bi = |p: int| cindex@[f * n_objects + pair_i@[p]] as int;
    let bj = |p: int| cindex@[f * n_objects + pair_j@[p]] as int;
    let n = pair_weight@.len();
    lemma_filled_cell(pair_i, pair_j, pair_weight, cindex, n_objects, n_bins, n_features, bits, true, r, f, b, 0, bi, bj);
    lemma_filled_cell(pair_i, pair_j, pair_weight, cindex, n_objects, n_bins, n_features, bits, true, r, f, b, 1, bi, bj);
    lemma_filled_cell(pair_i, pair_j, pair_weight, cindex, n_objects, n_bins, n_features, bits, true, r, f, b, 2, bi, bj);
    lemma_filled_cell(pair_i, pair_j, pair_weight, cindex, n_objects, n_bins, n_features, bits, true, r, f, b, 3, bi, bj);
    let w = pair_weight@;
    lemma_same_choice(w, first_addition(true, b, 0, bi, bj), |p: int| bi(p) == b && bj(p) == b, n);
    lemma_same_choice(w, second_addition(true, b, 0, bi, bj), |p: int| bi(p) == b && bj(p) == b, n);
    lemma_same_choice(w, first_addition(true, b, 1, bi, bj), |p: int| bi(p) == b && bj(p) == b, n);
    lemma_same_choice(w, second_addition(true, b, 1, bi, bj), |p: int| bi(p) == b && bj(p) == b, n);
    lemma_same_choice(w, first_addition(true, b, 2, bi, bj), |p: int| bi(p) == b && bj(p) != b, n);
    lemma_same_choice(w, second_addition(true, b, 2, bi, bj), |p: int| bi(p) == b && bj(p) != b, n);
    lemma_same_choice(w, first_addition(true, b, 3, bi, bj), |p: int| bi(p) != b && bj(p) == b, n);
    lemma_same_choice(w, second_addition(true, b, 3, bi, bj), |p: int| bi(p) != b && bj(p) == b, n);
}

/// The weight of the pairs whose bins `at` gives, over all bins, is the weight of the pairs.
proof fn lemma_spread<F: Additive>(pair_weight: Seq<F>, at: spec_fn(int) -> int, keep: spec_fn(int) -> bool, n_bins: nat, upto: nat)
    requires
        forall|p: int| 0 <= p < upto ==> 0 <= #[trigger] at(p) < n_bins,
    ensures
        cell_sum(|b: int| weight_where(pair_weight, |p: int| at(p) == b && keep(p), upto), n_bins) == weight_where(
            pair_weight,
            keep,
            upto,
        ),
    decreases upto,
{
    let after = |b: int| weight_where(pair_weight, |p: int| at(p) == b && keep(p), upto);
    if upto == 0 {
        lemma_zero_cells(after, n_bins);
    } else {
        let prev = (upto - 1) as nat;
        let before = |b: int| weight_where(pair_weight, |p: int| at(p) == b && keep(p), prev);
        lemma_spread(pair_weight, at, keep, n_bins, prev);
        let w = pair_weight[prev as int];
        let hit = if keep(prev as int) { at(prev as int) } else { n_bins as int };
        assert(0 <= at(prev as int) < n_bins);
        assert forall|b: int| 0 <= b < n_bins implies #[trigger] after(b) == add_where(before(b), b == hit, w) by {}
        lemma_cell_sum_bump(before, after, hit, w, n_bins);
    }
}

/// The cells that are sums sum to the sum of the sums.
proof fn lemma_cell_sum_plus<F: Additive>(a: spec_fn(int) -> F, b: spec_fn(int) -> F, m: nat)
    ensures
        cell_sum(|r: int| a(r).plus_spec(b(r)), m) == cell_sum(a, m).plus_spec(cell_sum(b, m)),
    decreases m,
{
    let both = |r: int| a(r).plus_spec(b(r));
    if m == 0 {
        F::sum_laws(F::zero_spec(), F::zero_spec(), F::zero_spec());
    } else {
        let last = (m - 1) as nat;
        lemma_cell_sum_plus(a, b, last);
        let (x, y, u, v) = (cell_sum(a, last), cell_sum(b, last), a(last as int), b(last as int));
        assert(cell_sum(both, m) == x.plus_spec(y).plus_spec(u.plus_spec(v)));
        F::sum_laws(x.plus_spec(y), u, v);
        lemma_both(x, y, u);
        F::sum_laws(x.plus_spec(u), y, v);
    }
}

/// Over the bins of a threshold feature the third channel sums to the weight of the pairs
/// whose first object does not lie below the second, plus that of the pairs where it lies
/// above; the first channel to the weight of the others, counted the same way.
pub proof fn law_threshold_channels_weigh_the_directions<F: Additive>(
    pair_i: &[u32],
    pair_j: &[u32],
    pair_weight: &[F],
    cindex: &[u32],
    n_objects: usize,
    n_bins: usize,
    n_features: usize,
    bits: u32,
    r: CbResult<Vec<F>>,
    f: int,
)
    requires
        pairs_filled(pair_i, pair_j, pair_weight, cindex, n_objects, n_bins, n_features, bits, false, r),
        r is Ok,
        pair_i@.len() > 0,
        0 < n_bins,
        0 <= f < n_features,
    ensures
        ({
            let bi = |p: int| cindex@[f * n_objects + pair_i@[p]] as int;
            let bj = |p: int| cindex@[f * n_objects + pair_j@[p]] as int;
            let channel = |ch: int| cell_sum(|b: int| r->Ok_0@[f * (n_bins * 4) + (b * 4 + ch)], n_bins as nat);
            let weigh = |keep: spec_fn(int) -> bool| weight_where(pair_weight@, keep, pair_weight@.len());
            let below = weigh(|p: int| bi(p) < bj(p)).plus_spec(weigh(|p: int| bi(p) <= bj(p)));
            let above = weigh(|p: int| bi(p) >= bj(p)).plus_spec(weigh(|p: int| bi(p) > bj(p)));
            &&& channel(0) == below
            &&& channel(1) == below
            &&& channel(2) == above
            &&& channel(3) == above
        }),
{
    let bi = |p: int| cindex@[f * n_objects + pair_i@[p]] as int;
    let bj = |p: int| cindex@[f * n_objects + pair_j@[p]] as int;
    let n = pair_weight@.len();
    let w = pair_weight@;
    lemma_checked_shapes(pair_i@, pair_j@, n as int, cindex@, n_objects as int, n_bins as int, n_features as int);
    assert forall|p: int| 0 <= p < n implies 0 <= #[trigger] bi(p) < n_bins by {
        assert(pair_i@[p] < n_objects);
        lemma_row(f, n_features as int, n_objects as int, pair_i@[p] as int);
    }
    assert forall|p: int| 0 <= p < n implies 0 <= #[trigger] bj(p) < n_bins by {
        assert(pair_j@[p] < n_objects);
        lemma_row(f, n_features as int, n_objects as int, pair_j@[p] as int);
    }
    lemma_channel(pair_i, pair_j, pair_weight, cindex, n_objects, n_bins, n_features, bits, r, f, 0, bi, |p: int| bi(p) < bj(p), |p: int| bi(p) <= bj(p), bi, bj);
    lemma_channel(pair_i, pair_j, pair_weight, cindex, n_objects, n_bins, n_features, bits, r, f, 1, bj, |p: int| bi(p) < bj(p), |p: int| bi(p) <= bj(p), bi, bj);
    lemma_channel(pair_i, pair_j, pair_weight, cindex, n_objects, n_bins, n_features, bits, r, f, 2, bi, |p: int| bi(p) >= bj(p), |p: int| bi(p) > bj(p), bi, bj);
    lemma_channel(pair_i, pair_j, pair_weight, cindex, n_objects, n_bins, n_features, bits, r, f, 3, bj, |p: int| bi(p) >= bj(p), |p: int| bi(p) > bj(p), bi, bj);
}

proof fn lemma_channel<F: Additive>(
    pair_i: &[u32],
    pair_j: &[u32],
    pair_weight: &[F],
    cindex: &[u32],
    n_objects: usize,
    n_bins: usize,
    n_features: usize,
    bits: u32,
    r: CbResult<Vec<F>>,
    f: int,
    ch: int,
    at: spec_fn(int) -> int,
    keep1: spec_fn(int) -> bool,
    keep2: spec_fn(int) -> bool,
    bi: spec_fn(int) -> int,
    bj: spec_fn(int) -> int,
)
    requires
        pairs_filled(pair_i, pair_j, pair_weight, cindex, n_objects, n_bins, n_features, bits, false, r),
        r is Ok,
        pair_i@.len() > 0,
        0 < n_bins,
        0 <= f < n_features,
        0 <= ch < 4,
        forall|p: int| 0 <= p < pair_weight@.len() ==> 0 <= #[trigger] at(p) < n_bins,
        bi == (|p: int| cindex@[f * n_objects + pair_i@[p]] as int),
        bj == (|p: int| cindex@[f * n_objects + pair_j@[p]] as int),
        at == if ch == 0 || ch == 2 { bi } else { bj },
        forall|p: int, b: int| (at(p) == b && keep1(p)) == #[trigger] first_addition(false, b, ch, bi, bj)(p),
        forall|p: int, b: int| (at(p) == b && keep2(p)) == #[trigger] second_addition(false, b, ch, bi, bj)(p),
    ensures
        cell_sum(|b: int| r->Ok_0@[f * (n_bins * 4) + (b * 4 + ch)], n_bins as nat) == weight_where(
            pair_weight@,
            keep1,
            pair_weight@.len(),
        ).plus_spec(weight_where(pair_weight@, keep2, pair_weight@.len())),
{
    let n = pair_weight@.len();
    let w = pair_weight@;
    let one = |b: int| weight_where(w, |p: int| at(p) == b && keep1(p), n);
    let two = |b: int| weight_where(w, |p: int| at(p) == b && keep2(p), n);
    lemma_spread(w, at, keep1, n_bins as nat, n);
    lemma_spread(w, at, keep2, n_bins as nat, n);
    lemma_cell_sum_plus(one, two, n_bins as nat);
    let cells = |b: int| r->Ok_0@[f * (n_bins * 4) + (b * 4 + ch)];
    let sums = |b: int| one(b).plus_spec(two(b));
    assert forall|b: int| 0 <= b < n_bins implies #[trigger] cells(b) == sums(b) by {
        lemma_filled_cell(pair_i, pair_j, pair_weight, cindex, n_objects, n_bins, n_features, bits, false, r, f, b, ch, bi, bj);
        let k1 = |p: int| at(p) == b && keep1(p);
        let k2 = |p: int| at(p) == b && keep2(p);
        lemma_same_choice(w, k1, first_addition(false, b, ch, bi, bj), n);
        lemma_same_choice(w, k2, second_addition(false, b, ch, bi, bj), n);
    }
    lemma_cell_sum_same(cells, sums, n_bins as nat);
}

/// Turning every pair round mirrors a threshold histogram: what a bin held for the first
/// object below it now holds for the second above, and the other way round.
pub proof fn law_turned_pairs_mirror<F: Additive>(
    pair_i: &[u32],
    pair_j: &[u32],
    pair_weight: &[F],
    cindex: &[u32],
    n_objects: usize,
    n_bins: usize,
    n_features: usize,
    bits: u32,
    r: CbResult<Vec<F>>,
    turned: CbResult<Vec<F>>,
    f: int,
    b: int,
    ch: int,
)
    requires
        pairs_filled(pair_i, pair_j, pair_weight, cindex, n_objects, n_bins, n_features, bits, false, r),
        pairs_filled(pair_j, pair_i, pair_weight, cindex, n_objects, n_bins, n_features, bits, false, turned),
        r is Ok,
        turned is Ok,
        pair_i@.len() > 0,
        pair_j@.len() > 0,
        0 <= f < n_features,
        0 <= b < n_bins,
        0 <= ch < 4,
    ensures
        turned->Ok_0@[f * (n_bins * 4) + (b * 4 + ch)] == r->Ok_0@[f * (n_bins * 4) + (b * 4 + (3 - ch))],
{
    let bi = |p: int| cindex@[f * n_objects + pair_i@[p]] as int;
    let bj = |p: int| cindex@[f * n_objects + pair_j@[p]] as int;
    let n = pair_weight@.len();
    let w = pair_weight@;
    lemma_filled_cell(pair_i, pair_j, pair_weight, cindex, n_objects, n_bins, n_features, bits, false, r, f, b, 3 - ch, bi, bj);
    lemma_filled_cell(pair_j, pair_i, pair_weight, cindex, n_objects, n_bins, n_features, bits, false, turned, f, b, ch, bj, bi);
    lemma_same_choice(w, first_addition(false, b, ch, bj, bi), second_addition(false, b, 3 - ch, bi, bj), n);
    lemma_same_choice(w, second_addition(false, b, ch, bj, bi), first_addition(false, b, 3 - ch, bi, bj), n);
    let x = weight_where(w, first_addition(false, b, ch, bj, bi), n);
    let y = weight_where(w, second_addition(false, b, ch, bj, bi), n);
    F::sum_laws(x, y, y);
}

} // verus!
