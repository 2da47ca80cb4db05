//! What a candidate is scored by, and which candidate is selected.

use vstd::prelude::*;
use crate::cell_laws::run_total;
use crate::channel::{Channel, Real};
use crate::error::CbResult;
use crate::exact::{exact, lemma_product_square, lemma_ratio};
use crate::histogram::{lemma_line, lemma_line_cell, lemma_row};
use crate::modular::{lemma_wrap_add, lemma_wrap_small, wrap};
use crate::split::{
    BestSplit, SCORE_FN_COSINE, SCORE_FN_L2, SCORE_FN_SAT_L2, SplitSearch, all_allowed, bins_sum, cb_leaf_avg,
    cb_leaf_score_term, eligible, find_optimal_split_kernel, first_best, level_score, ordered_score, part_sides,
    pass_candidates, pass_score, real_borders, score_ordered_over_segment_binsums, score_partition_over_binsums,
    select_best_split_over_scores, split_of,
};

verus! {

/// One channel of the bins `lo..hi` of a line that starts at `base`: neighbouring bins lie
/// two cells apart.
pub open spec fn bins_of<F: Channel>(cells: Seq<F>, base: int, lo: int, hi: int) -> Seq<F> {
    Seq::new((hi - lo) as nat, |k: int| cells[base + 2 * (lo + k)])
}

proof fn lemma_bins_total<F: Channel>(cells: Seq<F>, base: int, lo: int, hi: int, upto: nat)
    requires
        0 <= lo <= hi,
    ensures
        bins_sum(cells, base, lo, hi, upto) == run_total(
            bins_of(cells, base, lo, if upto < lo { lo } else if upto < hi { upto as int } else { hi }),
        ),
    decreases upto,
{
    if upto > 0 {
        let bin = upto - 1;
        lemma_bins_total(cells, base, lo, hi, bin as nat);
        if lo <= bin < hi {
            let now = bins_of(cells, base, lo, upto as int);
            assert(now.drop_last() =~= bins_of(cells, base, lo, bin));
            assert(now.last() == cells[base + bin * 2]);
        }
    } else {
        assert(bins_of(cells, base, lo, lo).len() == 0);
    }
}

/// The statistics that one side of a candidate is scored by.
pub struct Side<F> {
    pub sum: F,
    pub weight: F,
}

/// The two terms that the leaves of a candidate add to a score.
pub open spec fn side_terms<F: Real>(left: Side<F>, right: Side<F>, lambda: F, score_fn: u32, l: F, r: F) -> bool {
    &&& call_ensures(cb_leaf_score_term::<F>, (left.sum, left.weight, lambda, score_fn), l)
    &&& call_ensures(cb_leaf_score_term::<F>, (right.sum, right.weight, lambda, score_fn), r)
}

/// The two averages of the leaves of a candidate.
pub open spec fn side_averages<F: Real>(left: Side<F>, right: Side<F>, lambda: F, l: F, r: F) -> bool {
    &&& call_ensures(cb_leaf_avg::<F>, (left.sum, left.weight, lambda), l)
    &&& call_ensures(cb_leaf_avg::<F>, (right.sum, right.weight, lambda), r)
}

/// A border of a two-channel histogram is scored by what lies up to it on the left and
/// beyond it on the right, derivatives and weights each added up bin by bin. The two leaf
/// terms add to the score; a cosine score is taken over the root of the weighted squares of
/// the two averages.
pub proof fn law_border_score<F: Real>(
    bin_sums: &[F],
    scaled_l2: F,
    n_features: usize,
    n_bins: usize,
    score_fn: u32,
    found: SplitSearch<F>,
    f: int,
    b: int,
    lt: F,
    rt: F,
    la: F,
    ra: F,
)
    requires
        call_ensures(find_optimal_split_kernel::<F>, (bin_sums, scaled_l2, n_features, n_bins, score_fn), found),
        0 <= f < n_features,
        0 <= b < n_bins,
        ({
            let base = f * (n_bins * 2);
            let left = Side {
                sum: run_total(bins_of(bin_sums@, base, 0, b + 1)),
                weight: run_total(bins_of(bin_sums@, base + 1, 0, b + 1)),
            };
            let right = Side {
                sum: run_total(bins_of(bin_sums@, base, b + 1, n_bins as int)),
                weight: run_total(bins_of(bin_sums@, base + 1, b + 1, n_bins as int)),
            };
            side_terms(left, right, scaled_l2, score_fn, lt, rt) && side_averages(left, right, scaled_l2, la, ra)
        }),
    ensures
        score_fn <= SCORE_FN_SAT_L2 && score_fn != SCORE_FN_COSINE ==> found.scores@[f * n_bins + b] == lt.plus_spec(rt),
        score_fn == SCORE_FN_COSINE ==> ({
            let lw = run_total(bins_of(bin_sums@, f * (n_bins * 2) + 1, 0, b + 1));
            let rw = run_total(bins_of(bin_sums@, f * (n_bins * 2) + 1, b + 1, n_bins as int));
            found.scores@[f * n_bins + b] == lt.plus_spec(rt).over_spec(
                F::tiny_spec().plus_spec(la.times_spec(la).times_spec(lw)).plus_spec(ra.times_spec(ra).times_spec(rw)).sqrt_spec(),
            )
        }),
        score_fn > SCORE_FN_SAT_L2 ==> found.scores@[f * n_bins + b] == F::zero_spec(),
{
    let n = n_bins as int;
    let base = f * (n_bins * 2);
    lemma_row(f, n_features as int, n, b);
    lemma_line_cell(f, n, b);
    lemma_bins_total(bin_sums@, base, 0, b + 1, n as nat);
    lemma_bins_total(bin_sums@, base + 1, 0, b + 1, n as nat);
    lemma_bins_total(bin_sums@, base, b + 1, n, n as nat);
    lemma_bins_total(bin_sums@, base + 1, b + 1, n, n as nat);
}

/// The search selects the first of the best borders above the gain floor, and never a
/// trailing one, which separates nothing.
pub proof fn law_border_search<F: Real>(
    bin_sums: &[F],
    scaled_l2: F,
    n_features: usize,
    n_bins: usize,
    score_fn: u32,
    found: SplitSearch<F>,
    c: int,
)
    requires
        call_ensures(find_optimal_split_kernel::<F>, (bin_sums, scaled_l2, n_features, n_bins, score_fn), found),
        n_bins > 0,
        0 <= c < n_features * n_bins,
        c % (n_bins as int) != n_bins - 1,
        found.scores@[c].above_spec(F::floor_spec()),
    ensures
        found.best_idx < n_features * n_bins,
        found.best_idx as int % (n_bins as int) != n_bins - 1,
        found.best_gain == found.scores@[found.best_idx as int],
        !found.scores@[c].above_spec(found.best_gain),
        c < found.best_idx ==> found.best_gain.above_spec(found.scores@[c]),
{
    lemma_line(c, n_bins as int, 0);
    let allowed = real_borders(found.scores@.len(), n_bins as int);
    assert(eligible(found.scores@, allowed, c));
}

/// The selected split is the first of the best scores above the gain floor: its candidate
/// is named by its feature and its bin, its score is that candidate's, no other score is
/// above it, and every earlier one is below. Without a score above the floor there is none.
pub proof fn law_selected_split<F: Real>(scores: &[F], n_splits: usize, r: CbResult<Option<BestSplit<F>>>, c: int)
    requires
        call_ensures(select_best_split_over_scores::<F>, (scores, n_splits), r),
        scores@.len() <= u32::MAX,
        n_splits > 0,
        0 <= c < scores@.len(),
    ensures
        r is Ok,
        r->Ok_0 is None ==> !scores@[c].above_spec(F::floor_spec()),
        r->Ok_0 is Some ==> ({
            let split = r->Ok_0->0;
            let at = split.feature_id * n_splits + split.bin_id;
            &&& split.bin_id < n_splits
            &&& 0 <= at < scores@.len()
            &&& scores@[at].above_spec(F::floor_spec())
            &&& split.score == scores@[at].narrow_spec()
            &&& split.gain == split.score
            &&& scores@[c].above_spec(F::floor_spec()) ==> !scores@[c].above_spec(scores@[at])
            &&& scores@[c].above_spec(F::floor_spec()) && c < at ==> scores@[at].above_spec(scores@[c])
        }),
{
    let allowed = all_allowed(scores@.len());
    assert(scores@[c].above_spec(F::floor_spec()) ==> eligible(scores@, allowed, c));
    if r->Ok_0 is Some {
        let split = r->Ok_0->0;
        let w = choose|w: int|
            first_best(scores@, allowed, scores@[w], w) && w < scores@.len() && split == #[trigger] split_of(scores@, n_splits as int, w);
        assert(eligible(scores@, allowed, w));
        lemma_split_place(w, n_splits as int);
    }
}

proof fn lemma_split_place(w: int, n: int)
    requires
        0 <= w <= u32::MAX,
        0 < n,
    ensures
        0 <= w / n <= w,
        0 <= w % n <= w,
        w % n < n,
        (w / n) * n + w % n == w,
{
    vstd::arithmetic::div_mod::lemma_fundamental_div_mod(w, n);
    lemma_line(w, n, 0);
    assert((w / n) * n == n * (w / n)) by (nonlinear_arith);
    assert(0 <= w / n <= w && 0 <= w % n <= w) by (nonlinear_arith)
        requires
            0 <= w,
            n >= 1,
    ;
}

/// The winner of a scoring pass over the partitions of a level: a candidate of the pass, the
/// first of the best, reported with its own score.
pub proof fn law_pass_winner<F: Real>(
    bin_sums: &[u64],
    n_parts: usize,
    n_bins: usize,
    n_bins_used: usize,
    n_features: usize,
    lambda: F,
    score_fn: u32,
    real_folds: &[u32],
    one_hot: bool,
    lo: usize,
    hi: usize,
    split: BestSplit<F>,
    f: int,
    b: int,
)
    requires
        call_ensures(
            score_partition_over_binsums::<F>,
            (bin_sums, n_parts, n_bins, n_bins_used, n_features, lambda, score_fn, real_folds, one_hot, lo, hi),
            Ok(Some(split)),
        ),
        n_features * n_bins <= u32::MAX,
        lo <= f < hi,
        f < n_features,
        0 <= b < n_bins,
        one_hot ==> f < real_folds@.len() && b < real_folds@[f],
        !one_hot ==> b + 1 < n_bins_used,
    ensures
        ({
            let score = |f: int, b: int|
                pass_score(bin_sums@, n_parts as nat, n_features as int, n_bins as int, lambda, score_fn, one_hot, f * n_bins + b);
            let (sf, sb) = (split.feature_id as int, split.bin_id as int);
            let best = score(sf, sb);
            &&& lo <= sf < hi
            &&& sf < n_features
            &&& sb < n_bins
            &&& one_hot ==> sf < real_folds@.len() && sb < real_folds@[sf]
            &&& !one_hot ==> sb + 1 < n_bins_used
            &&& split.score == best.narrow_spec()
            &&& split.gain == best.narrow_spec()
            &&& best.above_spec(F::floor_spec())
            &&& score(f, b).above_spec(F::floor_spec()) ==> !score(f, b).above_spec(best)
            &&& score(f, b).above_spec(F::floor_spec()) && f * n_bins + b < sf * n_bins + sb ==> best.above_spec(score(f, b))
        }),
{
    let n = n_bins as int;
    let allowed = pass_candidates(n_features as nat, n_bins as nat, real_folds@, n_bins_used as int, one_hot, lo as int, hi as int);
    let score_of = |c: int| pass_score(bin_sums@, n_parts as nat, n_features as int, n, lambda, score_fn, one_hot, c);
    let scores = Seq::new(allowed.len(), score_of);
    let w = choose|w: int|
        first_best(scores, allowed, scores[w], w) && w < scores.len() && split == #[trigger] split_of(scores, n, w);
    assert(eligible(scores, allowed, w));
    lemma_split_place(w, n);
    lemma_line(w, n, n_features as int);
    let c = f * n + b;
    lemma_row(f, n_features as int, n, b);
    lemma_line_cell(f, n, b);
    assert(scores[c] == score_of(c));
    assert(allowed[c]);
    assert(scores[c].above_spec(F::floor_spec()) ==> eligible(scores, allowed, c));
}

/// The words of a raw histogram that one side of a candidate stands for: bins up to it on
/// the left and beyond it on the right for a threshold, the bin alone on the left and the
/// others on the right for a one-hot candidate. Weights lie in the even cells, derivatives
/// in the odd ones.
pub proof fn law_raw_sides<F: Real>(cells: Seq<u64>, base: int, n_bins: int, bin: int)
    requires
        0 <= bin < n_bins,
    ensures
        ({
            let word = |channel: int, lo: int, hi: int| run_total(bins_of(cells, base + channel, lo, hi));
            let s = part_sides::<F>(cells, base, n_bins, bin, false);
            let h = part_sides::<F>(cells, base, n_bins, bin, true);
            &&& s.left_w == F::decode_spec(word(0, 0, bin + 1))
            &&& s.left_sum == F::decode_spec(word(1, 0, bin + 1))
            &&& s.right_w == F::decode_spec(word(0, bin + 1, n_bins))
            &&& s.right_sum == F::decode_spec(word(1, bin + 1, n_bins))
            &&& h.left_w == F::decode_spec(cells[base + 2 * bin])
            &&& h.left_sum == F::decode_spec(cells[base + 1 + 2 * bin])
            &&& h.right_w == F::decode_spec(word(0, 0, bin).plus_spec(word(0, bin + 1, n_bins)))
            &&& h.right_sum == F::decode_spec(word(1, 0, bin).plus_spec(word(1, bin + 1, n_bins)))
        }),
{
    lemma_raw_channel(cells, base, n_bins, bin);
    lemma_raw_channel(cells, base + 1, n_bins, bin);
}

proof fn lemma_raw_channel(cells: Seq<u64>, base: int, n_bins: int, bin: int)
    requires
        0 <= bin < n_bins,
    ensures
        ({
            let n = n_bins as nat;
            let word = |lo: int, hi: int| run_total(bins_of(cells, base, lo, hi));
            &&& bins_sum(cells, base, 0, bin + 1, n) == word(0, bin + 1)
            &&& bins_sum(cells, base, bin + 1, n_bins, n) == word(bin + 1, n_bins)
            &&& bins_sum(cells, base, bin, bin + 1, n) == cells[base + 2 * bin]
            &&& wrap(bins_sum(cells, base, 0, n_bins, n) - bins_sum(cells, base, bin, bin + 1, n)) == word(0, bin).plus_spec(
                word(bin + 1, n_bins),
            )
        }),
{
    let n = n_bins as nat;
    lemma_bins_total(cells, base, 0, bin + 1, n);
    lemma_bins_total(cells, base, bin + 1, n_bins, n);
    lemma_bins_total(cells, base, bin, bin + 1, n);
    lemma_bins_total(cells, base, 0, n_bins, n);
    let v = cells[base + 2 * bin];
    lemma_total_single(bins_of(cells, base, bin, bin + 1));
    let left = bins_of(cells, base, 0, bin);
    let upto = bins_of(cells, base, 0, bin + 1);
    let right = bins_of(cells, base, bin + 1, n_bins);
    let all = bins_of(cells, base, 0, n_bins);
    assert(upto.drop_last() =~= left);
    assert(upto.last() == v);
    assert(run_total(upto) == run_total(left).plus_spec(v));
    assert(all =~= upto + right);
    lemma_total_split(upto, right);
    lemma_take_back(run_total(left), v, run_total(right));
}

/// Taking one word back out of a sum leaves the sum of the others.
proof fn lemma_take_back(a: u64, v: u64, b: u64)
    ensures
        wrap(wrap(wrap(a + v) + b) - v) == wrap(a + b),
{
    lemma_wrap_add(a + v, b as int);
    lemma_wrap_add(a + v + b, -(v as int));
    assert(a + v + b - v == a + b);
}

proof fn lemma_total_single(one: Seq<u64>)
    requires
        one.len() == 1,
    ensures
        run_total(one) == one[0],
{
    assert(one.drop_last().len() == 0);
    assert(run_total(one.drop_last()) == 0);
    lemma_wrap_small(one[0]);
}

proof fn lemma_total_split(a: Seq<u64>, b: Seq<u64>)
    ensures
        run_total(a + b) == wrap(run_total(a) + run_total(b)),
    decreases b.len(),
{
    if b.len() == 0 {
        assert(a + b =~= a);
        lemma_wrap_small(run_total(a));
    } else {
        lemma_total_split(a, b.drop_last());
        assert((a + b).drop_last() =~= a + b.drop_last());
        assert((a + b).last() == b.last());
        let (x, y, v) = (run_total(a), run_total(b.drop_last()), b.last());
        lemma_wrap_add(x + y, v as int);
        lemma_wrap_add(x as int, y + v);
    }
}

/// A level starts from nothing, and every partition adds the terms of its two leaves, left
/// before right, and the weighted squares of their averages.
pub proof fn law_level_adds_its_partitions<F: Real>(
    cells: Seq<u64>,
    first: int,
    n_features: int,
    n_bins: int,
    feature: int,
    bin: int,
    lambda: F,
    score_fn: u32,
    one_hot: bool,
    part: nat,
    lt: F,
    rt: F,
    la: F,
    ra: F,
)
    requires
        ({
            let s = part_sides::<F>(cells, first + part * (n_features * (n_bins * 2)) + feature * (n_bins * 2), n_bins, bin, one_hot);
            let (left, right) = (Side { sum: s.left_sum, weight: s.left_w }, Side { sum: s.right_sum, weight: s.right_w });
            side_terms(left, right, lambda, score_fn, lt, rt) && side_averages(left, right, lambda, la, ra)
        }),
    ensures
        ({
            let s = part_sides::<F>(cells, first + part * (n_features * (n_bins * 2)) + feature * (n_bins * 2), n_bins, bin, one_hot);
            let none = level_score(cells, first, n_features, n_bins, feature, bin, lambda, score_fn, one_hot, 0);
            let before = level_score(cells, first, n_features, n_bins, feature, bin, lambda, score_fn, one_hot, part);
            let after = level_score(cells, first, n_features, n_bins, feature, bin, lambda, score_fn, one_hot, part + 1);
            &&& none.folded == F::zero_spec()
            &&& none.denominator == F::tiny_spec()
            &&& after.folded == before.folded.plus_spec(lt).plus_spec(rt)
            &&& after.denominator == before.denominator.plus_spec(la.times_spec(la).times_spec(s.left_w)).plus_spec(
                ra.times_spec(ra).times_spec(s.right_w),
            )
        }),
{
}

/// A candidate's score is what its level adds up to; a cosine score times the root of the
/// denominator is, and so its square times the denominator is the square of the terms.
pub proof fn law_pass_score<F: Real>(
    val: spec_fn(F) -> real,
    room: spec_fn(real) -> bool,
    cells: Seq<u64>,
    n_parts: nat,
    n_features: int,
    n_bins: int,
    lambda: F,
    score_fn: u32,
    one_hot: bool,
    f: int,
    b: int,
)
    requires
        exact(val, room),
        0 <= f,
        0 <= b < n_bins,
        score_fn == SCORE_FN_COSINE ==> ({
            let level = level_score(cells, 0, n_features, n_bins, f, b, lambda, score_fn, one_hot, n_parts);
            let root = val(level.denominator.sqrt_spec());
            root != 0 as real && root * root == val(level.denominator) && room(val(level.folded) / root)
        }),
    ensures
        ({
            let level = level_score(cells, 0, n_features, n_bins, f, b, lambda, score_fn, one_hot, n_parts);
            let score = pass_score(cells, n_parts, n_features, n_bins, lambda, score_fn, one_hot, f * n_bins + b);
            &&& score_fn <= SCORE_FN_SAT_L2 && score_fn != SCORE_FN_COSINE ==> score == level.folded
            &&& score_fn == SCORE_FN_COSINE ==> val(score) * val(score) * val(level.denominator) == val(level.folded) * val(level.folded)
            &&& score_fn > SCORE_FN_SAT_L2 ==> score == F::zero_spec()
        }),
{
    lemma_line_cell(f, n_bins, b);
    if score_fn == SCORE_FN_COSINE {
        let level = level_score(cells, 0, n_features, n_bins, f, b, lambda, score_fn, one_hot, n_parts);
        let score = pass_score(cells, n_parts, n_features, n_bins, lambda, score_fn, one_hot, f * n_bins + b);
        let (s, t, root) = (val(score), val(level.folded), val(level.denominator.sqrt_spec()));
        assert(s == t / root);
        lemma_ratio(t, root);
        lemma_product_square(s, root);
    }
}

/// The score of an ordered fold adds up its segments: each is a least-squares level over its
/// own stretch of the histogram and under its own regularisation.
pub proof fn law_ordered_score_adds_its_segments<F: Real>(
    cells: Seq<u64>,
    n_parts: nat,
    n_features: int,
    n_bins: int,
    lambdas: Seq<F>,
    f: int,
    b: int,
    seg: nat,
)
    requires
        0 <= f,
        0 <= b < n_bins,
    ensures
        ({
            let c = f * n_bins + b;
            let start = seg * (n_parts * (n_features * (n_bins * 2)));
            let own = level_score(cells, start, n_features, n_bins, f, b, lambdas[seg as int], SCORE_FN_L2, false, n_parts);
            &&& ordered_score(cells, n_parts, n_features, n_bins, lambdas, c, 0) == F::zero_spec()
            &&& ordered_score(cells, n_parts, n_features, n_bins, lambdas, c, seg + 1) == ordered_score(
                cells,
                n_parts,
                n_features,
                n_bins,
                lambdas,
                c,
                seg,
            ).plus_spec(own.folded)
        }),
{
    lemma_line_cell(f, n_bins, b);
}

/// The winner of an ordered fold: a border between used bins, the first of the best, reported
/// with its own score.
pub proof fn law_ordered_winner<F: Real>(
    bin_sums: &[u64],
    n_parts: usize,
    n_bins: usize,
    n_bins_used: usize,
    n_features: usize,
    lambdas: &[F],
    split: BestSplit<F>,
    f: int,
    b: int,
)
    requires
        call_ensures(
            score_ordered_over_segment_binsums::<F>,
            (bin_sums, n_parts, n_bins, n_bins_used, n_features, lambdas),
            Ok(Some(split)),
        ),
        n_features * n_bins <= u32::MAX,
        0 <= f < n_features,
        0 <= b < n_bins,
        b + 1 < n_bins_used,
    ensures
        ({
            let score = |f: int, b: int|
                ordered_score(bin_sums@, n_parts as nat, n_features as int, n_bins as int, lambdas@, f * n_bins + b, lambdas@.len());
            let (sf, sb) = (split.feature_id as int, split.bin_id as int);
            let best = score(sf, sb);
            &&& sf < n_features
            &&& sb < n_bins
            &&& sb + 1 < n_bins_used
            &&& split.score == best.narrow_spec()
            &&& split.gain == best.narrow_spec()
            &&& best.above_spec(F::floor_spec())
            &&& score(f, b).above_spec(F::floor_spec()) ==> !score(f, b).above_spec(best)
            &&& score(f, b).above_spec(F::floor_spec()) && f * n_bins + b < sf * n_bins + sb ==> best.above_spec(score(f, b))
        }),
{
    let n = n_bins as int;
    let allowed = pass_candidates(n_features as nat, n_bins as nat, Seq::empty(), n_bins_used as int, false, 0, n_features as int);
    let score_of = |c: int| ordered_score(bin_sums@, n_parts as nat, n_features as int, n, lambdas@, c, lambdas@.len());
    let scores = Seq::new(allowed.len(), score_of);
    let w = choose|w: int|
        first_best(scores, allowed, scores[w], w) && w < scores.len() && split == #[trigger] split_of(scores, n, w);
    assert(eligible(scores, allowed, w));
    lemma_split_place(w, n);
    lemma_line(w, n, n_features as int);
    let c = f * n + b;
    lemma_row(f, n_features as int, n, b);
    lemma_line_cell(f, n, b);
    assert(scores[c] == score_of(c));
    assert(allowed[c]);
    assert(scores[c].above_spec(F::floor_spec()) ==> eligible(scores, allowed, c));
}

/// Where no border but the trailing ones scores above the gain floor, the search selects
/// none: it reports the floor and the number of candidates.
pub proof fn law_border_search_without_winner<F: Real>(
    bin_sums: &[F],
    scaled_l2: F,
    n_features: usize,
    n_bins: usize,
    score_fn: u32,
    found: SplitSearch<F>,
)
    requires
        call_ensures(find_optimal_split_kernel::<F>, (bin_sums, scaled_l2, n_features, n_bins, score_fn), found),
        n_bins > 0,
        forall|c: int|
            0 <= c < n_features * n_bins && c % (n_bins as int) != n_bins - 1 ==> !(#[trigger] found.scores@[c]).above_spec(
                F::floor_spec(),
            ),
    ensures
        found.best_idx == n_features * n_bins,
        found.best_gain == F::floor_spec(),
{
    let allowed = real_borders(found.scores@.len(), n_bins as int);
    let idx = found.best_idx as int;
    if idx != found.scores@.len() {
        assert(eligible(found.scores@, allowed, idx));
        assert(!found.scores@[idx].above_spec(F::floor_spec()));
    }
}

/// A scoring pass over candidates that fit its axis succeeds, and comes back without a winner
/// only where no candidate of the pass scores above the gain floor.
pub proof fn law_pass_without_winner<F: Real>(
    bin_sums: &[u64],
    n_parts: usize,
    n_bins: usize,
    n_bins_used: usize,
    n_features: usize,
    lambda: F,
    score_fn: u32,
    real_folds: &[u32],
    one_hot: bool,
    lo: usize,
    hi: usize,
    r: CbResult<Option<BestSplit<F>>>,
    f: int,
    b: int,
)
    requires
        call_ensures(
            score_partition_over_binsums::<F>,
            (bin_sums, n_parts, n_bins, n_bins_used, n_features, lambda, score_fn, real_folds, one_hot, lo, hi),
            r,
        ),
        n_features * n_bins <= u32::MAX,
        lo <= f < hi,
        f < n_features,
        0 <= b < n_bins,
        one_hot ==> f < real_folds@.len() && b < real_folds@[f],
        !one_hot ==> b + 1 < n_bins_used,
    ensures
        r is Ok,
        r->Ok_0 is None ==> !pass_score(
            bin_sums@,
            n_parts as nat,
            n_features as int,
            n_bins as int,
            lambda,
            score_fn,
            one_hot,
            f * n_bins + b,
        ).above_spec(F::floor_spec()),
{
    let n = n_bins as int;
    let allowed = pass_candidates(n_features as nat, n_bins as nat, real_folds@, n_bins_used as int, one_hot, lo as int, hi as int);
    let score_of = |c: int| pass_score(bin_sums@, n_parts as nat, n_features as int, n, lambda, score_fn, one_hot, c);
    let scores = Seq::new(allowed.len(), score_of);
    let c = f * n + b;
    lemma_row(f, n_features as int, n, b);
    lemma_line_cell(f, n, b);
    assert(scores[c] == score_of(c));
    assert(allowed[c]);
    assert(scores[c].above_spec(F::floor_spec()) ==> eligible(scores, allowed, c));
}

} // verus!
