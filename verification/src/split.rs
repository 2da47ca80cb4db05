//! Split scoring and selection.

use vstd::prelude::*;
use crate::channel::{Channel, Real};
use crate::error::{CbError, CbResult, RangeFault};
use crate::histogram::{lemma_line, lemma_row};
use crate::modular::{lemma_wrap_add, lemma_wrap_small, word_sub, wrap};

verus! {

pub const SCORE_FN_L2: u32 = 0;

pub const SCORE_FN_COSINE: u32 = 1;

pub const SCORE_FN_SOLAR_L2: u32 = 2;

pub const SCORE_FN_LOO_L2: u32 = 3;

pub const SCORE_FN_SAT_L2: u32 = 4;

/// Lanes of the argmax block.
pub const ARGMAX_LANES: usize = 32;

/// The regularised average of a leaf; zero where the leaf has no weight.
pub open spec fn leaf_avg<F: Real>(sum: F, w: F, lambda: F) -> F {
    if w.above_spec(F::zero_spec()) {
        sum.over_spec(w.plus_spec(lambda))
    } else {
        F::zero_spec()
    }
}

/// What the leave-one-out and the saturated score divide by the leaf weight.
pub open spec fn adjusted_term<F: Real>(adjust: F, sum: F, w: F) -> F {
    if w.above_spec(F::zero_spec()) {
        adjust.times_spec(sum.negated_spec().times_spec(sum)).over_spec(w)
    } else {
        F::zero_spec()
    }
}

/// What a leaf contributes to the score of a split.
pub open spec fn leaf_term<F: Real>(sum: F, w: F, lambda: F, score_fn: u32) -> F {
    let one = F::one_spec();
    let two = one.plus_spec(one);
    let three = two.plus_spec(one);
    if score_fn == SCORE_FN_L2 || score_fn == SCORE_FN_COSINE {
        leaf_avg(sum, w, lambda).times_spec(sum)
    } else if score_fn == SCORE_FN_SOLAR_L2 {
        if w.above_spec(F::eps_spec()) {
            sum.negated_spec().times_spec(sum).times_spec(
                one.plus_spec(two.times_spec(w.plus_spec(one).ln_spec())),
            ).over_spec(w)
        } else {
            F::zero_spec()
        }
    } else if score_fn == SCORE_FN_LOO_L2 {
        let adjust = if w.above_spec(one) { w.over_spec(w.minus_spec(one)) } else { F::zero_spec() };
        adjusted_term(adjust.times_spec(adjust), sum, w)
    } else if score_fn == SCORE_FN_SAT_L2 {
        let adjust = if w.above_spec(two) {
            w.times_spec(w.minus_spec(two)).over_spec(
                w.times_spec(w).minus_spec(three.times_spec(w)).plus_spec(one),
            )
        } else {
            F::zero_spec()
        };
        adjusted_term(adjust, sum, w)
    } else {
        F::zero_spec()
    }
}

/// The regularised average of a leaf.
pub fn cb_leaf_avg<F: Real>(sum: F, w: F, lambda: F) -> (r: F)
    ensures
        r == leaf_avg(sum, w, lambda),
{
    if w.above(F::zero()) {
        sum.over(w.plus(lambda))
    } else {
        F::zero()
    }
}

/// What a leaf contributes to the score of a split.
pub fn cb_leaf_score_term<F: Real>(sum: F, w: F, lambda: F, score_fn: u32) -> (r: F)
    ensures
        r == leaf_term(sum, w, lambda, score_fn),
{
    let one: F = F::one();
    let two: F = one.plus(one);
    let three: F = two.plus(one);
    if score_fn == SCORE_FN_L2 || score_fn == SCORE_FN_COSINE {
        cb_leaf_avg(sum, w, lambda).times(sum)
    } else if score_fn == SCORE_FN_SOLAR_L2 {
        if w.above(F::eps()) {
            sum.negated().times(sum).times(one.plus(two.times(w.plus(one).ln()))).over(w)
        } else {
            F::zero()
        }
    } else if score_fn == SCORE_FN_LOO_L2 {
        let adjust: F = if w.above(one) {
            w.over(w.minus(one))
        } else {
            F::zero()
        };
        if w.above(F::zero()) {
            adjust.times(adjust).times(sum.negated().times(sum)).over(w)
        } else {
            F::zero()
        }
    } else if score_fn == SCORE_FN_SAT_L2 {
        let adjust: F = if w.above(two) {
            w.times(w.minus(two)).over(w.times(w).minus(three.times(w)).plus(one))
        } else {
            F::zero()
        };
        if w.above(F::zero()) {
            adjust.times(sum.negated().times(sum)).over(w)
        } else {
            F::zero()
        }
    } else {
        F::zero()
    }
}

/// The statistics of the two sides of a split.
pub struct Sides<F> {
    pub left_sum: F,
    pub left_w: F,
    pub right_sum: F,
    pub right_w: F,
}

/// The score accumulated over the partitions of a level: the folded leaf terms, and the
/// denominator that a cosine score is taken over.
pub struct Score<F> {
    pub folded: F,
    pub denominator: F,
}

pub open spec fn score_start<F: Real>() -> Score<F> {
    Score { folded: F::zero_spec(), denominator: F::tiny_spec() }
}

/// One more split leaf pair, left before right.
pub open spec fn score_step<F: Real>(acc: Score<F>, sides: Sides<F>, lambda: F, score_fn: u32) -> Score<F> {
    let la = leaf_avg(sides.left_sum, sides.left_w, lambda);
    let ra = leaf_avg(sides.right_sum, sides.right_w, lambda);
    Score {
        folded: acc.folded.plus_spec(
            leaf_term(sides.left_sum, sides.left_w, lambda, score_fn),
        ).plus_spec(leaf_term(sides.right_sum, sides.right_w, lambda, score_fn)),
        denominator: acc.denominator.plus_spec(
            la.times_spec(la).times_spec(sides.left_w),
        ).plus_spec(ra.times_spec(ra).times_spec(sides.right_w)),
    }
}

/// The score that an accumulation stands for.
pub open spec fn score_value<F: Real>(acc: Score<F>, score_fn: u32) -> F {
    if score_fn == SCORE_FN_COSINE {
        acc.folded.over_spec(acc.denominator.sqrt_spec())
    } else if score_fn <= SCORE_FN_SAT_L2 {
        acc.folded
    } else {
        F::zero_spec()
    }
}

fn score_accumulate<F: Real>(acc: Score<F>, sides: Sides<F>, lambda: F, score_fn: u32) -> (r: Score<F>)
    ensures
        r == score_step(acc, sides, lambda, score_fn),
{
    let la: F = cb_leaf_avg(sides.left_sum, sides.left_w, lambda);
    let ra: F = cb_leaf_avg(sides.right_sum, sides.right_w, lambda);
    let left: F = cb_leaf_score_term(sides.left_sum, sides.left_w, lambda, score_fn);
    let right: F = cb_leaf_score_term(sides.right_sum, sides.right_w, lambda, score_fn);
    Score {
        folded: acc.folded.plus(left).plus(right),
        denominator: acc.denominator.plus(la.times(la).times(sides.left_w)).plus(
            ra.times(ra).times(sides.right_w),
        ),
    }
}

fn score_finish<F: Real>(acc: Score<F>, score_fn: u32) -> (r: F)
    ensures
        r == score_value(acc, score_fn),
{
    if score_fn == SCORE_FN_COSINE {
        acc.folded.over(acc.denominator.sqrt())
    } else if score_fn <= SCORE_FN_SAT_L2 {
        acc.folded
    } else {
        F::zero()
    }
}

/// The sum of one channel over the bins `lo..hi`, of the first `upto` bins. Neighbouring
/// bins lie two cells apart.
pub open spec fn bins_sum<F: Channel>(cells: Seq<F>, base: int, lo: int, hi: int, upto: nat) -> F
    decreases upto,
{
    if upto == 0 {
        F::zero_spec()
    } else {
        let bin = upto - 1;
        let rest = bins_sum(cells, base, lo, hi, bin as nat);
        if lo <= bin < hi {
            rest.plus_spec(cells[base + bin * 2])
        } else {
            rest
        }
    }
}

fn sum_bins<F: Channel>(cells: &[F], base: usize, lo: usize, hi: usize, n_bins: usize) -> (r: F)
    requires
        n_bins > 0 ==> base + (n_bins - 1) * 2 < cells@.len(),
    ensures
        r == bins_sum(cells@, base as int, lo as int, hi as int, n_bins as nat),
{
    let total: usize = cells.len();
    let mut acc: F = F::zero();
    let mut bin: usize = 0;
    while bin < n_bins
        invariant
            bin <= n_bins,
            total == cells@.len(),
            n_bins > 0 ==> base + (n_bins - 1) * 2 < total,
            acc == bins_sum(cells@, base as int, lo as int, hi as int, bin as nat),
        decreases n_bins - bin,
    {
        if lo <= bin && bin < hi {
            acc = acc.plus(cells[base + bin * 2]);
        }
        bin = bin + 1;
    }
    acc
}

/// A candidate that may be selected: allowed, and above the gain floor.
pub open spec fn eligible<F: Real>(scores: Seq<F>, allowed: Seq<bool>, c: int) -> bool {
    0 <= c < scores.len() && allowed[c] && scores[c].above_spec(F::floor_spec())
}

/// A selected candidate is at least as good as another, and better than an earlier one.
pub open spec fn beats<F: Real>(gain: F, idx: int, score: F, c: int) -> bool {
    !score.above_spec(gain) && (c < idx ==> gain.above_spec(score))
}

/// `idx` is the first of the best candidates among those below `upto` whose index is `t`
/// modulo `m`; the number of candidates where there is none.
pub open spec fn lane_best<F: Real>(
    scores: Seq<F>,
    allowed: Seq<bool>,
    m: int,
    t: int,
    upto: int,
    gain: F,
    idx: int,
) -> bool {
    if idx == scores.len() {
        gain == F::floor_spec() && forall|c: int|
            c < upto && c % m == t ==> !(#[trigger] eligible(scores, allowed, c))
    } else {
        &&& eligible(scores, allowed, idx)
        &&& idx < upto
        &&& idx % m == t
        &&& gain == scores[idx]
        &&& forall|c: int|
            #[trigger] eligible(scores, allowed, c) && c < upto && c % m == t ==> beats(gain, idx, scores[c], c)
    }
}

/// `idx` is the first of the best eligible candidates, and `gain` its score; the number of
/// candidates and the gain floor where there is none.
pub open spec fn first_best<F: Real>(scores: Seq<F>, allowed: Seq<bool>, gain: F, idx: int) -> bool {
    if idx == scores.len() {
        gain == F::floor_spec() && forall|c: int| !(#[trigger] eligible(scores, allowed, c))
    } else {
        &&& eligible(scores, allowed, idx)
        &&& gain == scores[idx]
        &&& forall|c: int| #[trigger] eligible(scores, allowed, c) ==> beats(gain, idx, scores[c], c)
    }
}

/// Two selections of the same candidates agree.
pub proof fn law_first_best_is_unique<F: Real>(
    scores: Seq<F>,
    allowed: Seq<bool>,
    gain1: F,
    idx1: int,
    gain2: F,
    idx2: int,
)
    requires
        first_best(scores, allowed, gain1, idx1),
        first_best(scores, allowed, gain2, idx2),
    ensures
        idx1 == idx2,
        gain1 == gain2,
{
    if idx1 != scores.len() && idx2 == scores.len() {
        assert(eligible(scores, allowed, idx1));
    } else if idx1 == scores.len() && idx2 != scores.len() {
        assert(eligible(scores, allowed, idx2));
    } else if idx1 != scores.len() {
        assert(eligible(scores, allowed, idx1) && eligible(scores, allowed, idx2));
        assert(beats(gain1, idx1, scores[idx2], idx2));
        assert(beats(gain2, idx2, scores[idx1], idx1));
    }
}

/// Every order between three elements.
proof fn lemma_orders<F: Real>(a: F, b: F, c: F)
    ensures
        a.above_spec(b) ==> a.is_number() && b.is_number() && !b.above_spec(a),
        b.above_spec(c) ==> b.is_number() && c.is_number() && !c.above_spec(b),
        c.above_spec(a) ==> c.is_number() && a.is_number() && !a.above_spec(c),
        a.above_spec(c) ==> a.is_number() && c.is_number() && !c.above_spec(a),
        a.above_spec(b) && b.above_spec(c) ==> a.above_spec(c),
        b.above_spec(c) && c.above_spec(a) ==> b.above_spec(a),
        c.above_spec(a) && a.above_spec(b) ==> c.above_spec(b),
        a.above_spec(c) && c.above_spec(b) ==> a.above_spec(b),
        b.above_spec(a) && a.above_spec(c) ==> b.above_spec(c),
        c.above_spec(b) && b.above_spec(a) ==> c.above_spec(a),
        a.above_spec(c) && b.is_number() ==> a.above_spec(b) || b.above_spec(c),
        b.above_spec(a) && c.is_number() ==> b.above_spec(c) || c.above_spec(a),
        c.above_spec(b) && a.is_number() ==> c.above_spec(a) || a.above_spec(b),
        a.above_spec(b) && c.is_number() ==> a.above_spec(c) || c.above_spec(b),
        b.above_spec(c) && a.is_number() ==> b.above_spec(a) || a.above_spec(c),
        c.above_spec(a) && b.is_number() ==> c.above_spec(b) || b.above_spec(a),
{
    F::order_laws(a, b, c);
    F::order_laws(b, c, a);
    F::order_laws(c, a, b);
    F::order_laws(a, c, b);
    F::order_laws(b, a, c);
    F::order_laws(c, b, a);
}

/// A residue modulo twice `s` decides the residue modulo `s`.
proof fn lemma_residue(c: int, s: int)
    requires
        0 < s,
        0 <= c,
    ensures
        c % s == if c % (2 * s) < s { c % (2 * s) } else { c % (2 * s) - s },
        0 <= c % (2 * s) < 2 * s,
{
    let m = 2 * s;
    vstd::arithmetic::div_mod::lemma_fundamental_div_mod(c, m);
    let q = c / m;
    let r = c % m;
    if r < s {
        assert(c == (2 * q) * s + r) by (nonlinear_arith)
            requires
                c == m * q + r,
                m == 2 * s,
        ;
        vstd::arithmetic::div_mod::lemma_fundamental_div_mod_converse(c, s, 2 * q, r);
    } else {
        assert(c == (2 * q + 1) * s + (r - s)) by (nonlinear_arith)
            requires
                c == m * q + r,
                m == 2 * s,
        ;
        vstd::arithmetic::div_mod::lemma_fundamental_div_mod_converse(c, s, 2 * q + 1, r - s);
    }
}

/// Whether the tree step takes the other lane's candidate.
pub open spec fn takes<F: Real>(cur_gain: F, cur_idx: int, other_gain: F, other_idx: int) -> bool {
    other_gain.above_spec(cur_gain) || (other_gain.is_number() && cur_gain.is_number()
        && !cur_gain.above_spec(other_gain) && other_idx < cur_idx)
}

/// A tree step joins two lanes.
proof fn lemma_join<F: Real>(
    scores: Seq<F>,
    allowed: Seq<bool>,
    s: int,
    t: int,
    g1: F,
    i1: int,
    g2: F,
    i2: int,
)
    requires
        0 <= t < s,
        lane_best(scores, allowed, 2 * s, t, scores.len() as int, g1, i1),
        lane_best(scores, allowed, 2 * s, t + s, scores.len() as int, g2, i2),
    ensures
        takes(g1, i1, g2, i2) ==> lane_best(scores, allowed, s, t, scores.len() as int, g2, i2),
        !takes(g1, i1, g2, i2) ==> lane_best(scores, allowed, s, t, scores.len() as int, g1, i1),
{
    let n = scores.len() as int;
    let floor = F::floor_spec();
    lemma_orders(g1, g2, floor);
    if 0 <= i1 < n {
        lemma_residue(i1, s);
    }
    if 0 <= i2 < n {
        lemma_residue(i2, s);
    }
    let taken = takes(g1, i1, g2, i2);
    let g = if taken { g2 } else { g1 };
    let i = if taken { i2 } else { i1 };
    assert forall|c: int| #[trigger] eligible(scores, allowed, c) && c < n && c % s == t implies i != n && beats(g, i, scores[c], c) by {
        lemma_residue(c, s);
        lemma_orders(g1, g2, scores[c]);
        lemma_orders(g1, scores[c], floor);
        lemma_orders(g2, scores[c], floor);
        if c % (2 * s) == t {
            assert(i1 != n && beats(g1, i1, scores[c], c));
        } else {
            assert(c % (2 * s) == t + s);
            assert(i2 != n && beats(g2, i2, scores[c], c));
        }
    }
}

/// Scans the candidates of one lane in ascending order.
fn lane_scan<F: Real>(scores: &[F], allowed: &[bool], t: usize) -> (r: (F, usize))
    requires
        scores@.len() == allowed@.len(),
        t < ARGMAX_LANES,
    ensures
        lane_best(scores@, allowed@, 32, t as int, scores@.len() as int, r.0, r.1 as int),
        r.1 <= scores@.len(),
{
    let n: usize = scores.len();
    let mut gain: F = F::floor();
    let mut idx: usize = n;
    let mut c: usize = if t < n { t } else { n };
    proof {
        assert(forall|k: int| #[trigger] eligible(scores@, allowed@, k) && k < c ==> k % 32 != t);
    }
    while c < n
        invariant
            n == scores@.len(),
            n == allowed@.len(),
            t < 32,
            c <= n,
            c == n || c % 32 == t,
            idx <= n,
            lane_best(scores@, allowed@, 32, t as int, c as int, gain, idx as int),
        decreases n - c,
    {
        let g: F = scores[c];
        let next: usize = if n - c > 32 { c + 32 } else { n };
        proof {
            assert(forall|k: int| #[trigger] eligible(scores@, allowed@, k) && c < k < next ==> k % 32 != t);
            F::order_laws(gain, F::floor_spec(), gain);
            assert forall|k: int|
                #[trigger] eligible(scores@, allowed@, k) && k < c && k % 32 == t && idx != n && g.above_spec(gain)
                implies g.above_spec(scores@[k]) && !scores@[k].above_spec(g) by {
                assert(beats(gain, idx as int, scores@[k], k));
                lemma_orders(g, gain, scores@[k]);
                lemma_orders(gain, scores@[k], F::floor_spec());
            }
            F::order_laws(g, gain, F::floor_spec());
            F::order_laws(g, g, g);
        }
        if allowed[c] && g.above(gain) {
            gain = g;
            idx = c;
        }
        c = next;
    }
    (gain, idx)
}

/// Selects the first of the best candidates: each lane scans its own, then lanes are joined
/// pairwise.
pub fn lane_argmax<F: Real>(scores: &[F], allowed: &[bool]) -> (r: (F, usize))
    requires
        scores@.len() == allowed@.len(),
    ensures
        first_best(scores@, allowed@, r.0, r.1 as int),
        r.1 <= scores@.len(),
{
    let n: usize = scores.len();
    let mut gains: Vec<F> = Vec::new();
    let mut idxs: Vec<usize> = Vec::new();
    let mut lane: usize = 0;
    while lane < 32
        invariant
            lane <= 32,
            n == scores@.len(),
            n == allowed@.len(),
            gains@.len() == lane,
            idxs@.len() == lane,
            forall|t: int|
                0 <= t < lane ==> lane_best(scores@, allowed@, 32, t, n as int, #[trigger] gains@[t], idxs@[t] as int),
            forall|t: int| 0 <= t < lane ==> #[trigger] idxs@[t] <= n,
        decreases 32 - lane,
    {
        let (g, i) = lane_scan(scores, allowed, lane);
        gains.push(g);
        idxs.push(i);
        lane = lane + 1;
    }
    let mut s: usize = 16;
    let ghost mut cover: int = 32;
    while s > 0
        invariant
            n == scores@.len(),
            gains@.len() == 32,
            idxs@.len() == 32,
            s == 16 || s == 8 || s == 4 || s == 2 || s == 1 || s == 0,
            cover == if s == 0 { 1int } else { 2 * s },
            forall|t: int|
                0 <= t < cover ==> lane_best(scores@, allowed@, cover, t, n as int, #[trigger] gains@[t], idxs@[t] as int),
            forall|t: int| 0 <= t < 32 ==> #[trigger] idxs@[t] <= n,
        decreases s,
    {
        let mut tid: usize = 0;
        while tid < s
            invariant
                n == scores@.len(),
                gains@.len() == 32,
                idxs@.len() == 32,
                tid <= s <= 16,
                forall|t: int|
                    0 <= t < tid ==> lane_best(scores@, allowed@, s as int, t, n as int, #[trigger] gains@[t], idxs@[t] as int),
                forall|t: int|
                    tid <= t < 2 * s ==> lane_best(scores@, allowed@, 2 * s, t, n as int, #[trigger] gains@[t], idxs@[t] as int),
                forall|t: int| 0 <= t < 32 ==> #[trigger] idxs@[t] <= n,
            decreases s - tid,
        {
            let other_gain: F = gains[tid + s];
            let other_idx: usize = idxs[tid + s];
            let cur_gain: F = gains[tid];
            let cur_idx: usize = idxs[tid];
            proof {
                lemma_join(scores@, allowed@, s as int, tid as int, cur_gain, cur_idx as int, other_gain, other_idx as int);
                F::order_laws(other_gain, cur_gain, cur_gain);
            }
            let mut take: bool = false;
            if other_gain.above(cur_gain) {
                take = true;
            } else if other_gain.ties(cur_gain) {
                if other_idx < cur_idx {
                    take = true;
                }
            }
            if take {
                gains.set(tid, other_gain);
                idxs.set(tid, other_idx);
            }
            tid = tid + 1;
        }
        proof {
            cover = s as int;
        }
        s = s / 2;
    }
    proof {
        assert(lane_best(scores@, allowed@, 1, 0, n as int, gains@[0], idxs@[0] as int));
        assert(forall|c: int| #[trigger] eligible(scores@, allowed@, c) ==> c % 1 == 0);
    }
    (gains[0], idxs[0])
}

/// The sides of the candidate `c` of a two-channel histogram: bins up to the border on the
/// left, the others on the right.
pub open spec fn stump_sides<F: Real>(cells: Seq<F>, n_bins: int, c: int) -> Sides<F> {
    let base = (c / n_bins) * (n_bins * 2);
    let border = c % n_bins;
    Sides {
        left_sum: bins_sum(cells, base, 0, border + 1, n_bins as nat),
        left_w: bins_sum(cells, base + 1, 0, border + 1, n_bins as nat),
        right_sum: bins_sum(cells, base, border + 1, n_bins, n_bins as nat),
        right_w: bins_sum(cells, base + 1, border + 1, n_bins, n_bins as nat),
    }
}

/// The score of one split leaf.
pub open spec fn stump_score<F: Real>(sides: Sides<F>, lambda: F, score_fn: u32) -> F {
    score_value(
        Score {
            folded: leaf_term(sides.left_sum, sides.left_w, lambda, score_fn).plus_spec(
                leaf_term(sides.right_sum, sides.right_w, lambda, score_fn),
            ),
            denominator: score_step(score_start(), sides, lambda, score_fn).denominator,
        },
        score_fn,
    )
}

/// Every border of every feature but the trailing one.
pub open spec fn real_borders(n_candidates: nat, n_bins: int) -> Seq<bool> {
    Seq::new(n_candidates, |c: int| c % n_bins < n_bins - 1)
}

/// A scored level, and the candidate selected from it.
pub struct SplitSearch<F> {
    pub scores: Vec<F>,
    pub best_gain: F,
    pub best_idx: u32,
}

/// Scores every border of every feature of a two-channel histogram and selects the first of
/// the best. A trailing border separates nothing and is not selected.
pub fn find_optimal_split_kernel<F: Real>(
    bin_sums: &[F],
    scaled_l2: F,
    n_features: usize,
    n_bins: usize,
    score_fn: u32,
) -> (r: SplitSearch<F>)
    requires
        bin_sums@.len() == n_features * (n_bins * 2),
        n_features * n_bins <= u32::MAX,
        n_bins > 0,
    ensures
        r.scores@.len() == n_features * n_bins,
        forall|c: int|
            0 <= c < r.scores@.len() ==> #[trigger] r.scores@[c] == stump_score(
                stump_sides(bin_sums@, n_bins as int, c),
                scaled_l2,
                score_fn,
            ),
        first_best(r.scores@, real_borders(r.scores@.len(), n_bins as int), r.best_gain, r.best_idx as int),
{
    let total: usize = bin_sums.len();
    proof {
        assert(n_features * n_bins <= n_features * (n_bins * 2)) by (nonlinear_arith)
            requires
                0 <= n_features,
                0 <= n_bins,
        ;
    }
    let n_candidates: usize = n_features * n_bins;
    let mut scores: Vec<F> = Vec::new();
    let mut allowed: Vec<bool> = Vec::new();
    let mut c: usize = 0;
    while c < n_candidates
        invariant
            c <= n_candidates,
            n_bins > 0,
            total == bin_sums@.len(),
            bin_sums@.len() == n_features * (n_bins * 2),
            n_candidates == n_features * n_bins,
            scores@.len() == c,
            allowed@.len() == c,
            forall|k: int|
                0 <= k < c ==> #[trigger] scores@[k] == stump_score(stump_sides(bin_sums@, n_bins as int, k), scaled_l2, score_fn),
            forall|k: int| 0 <= k < c ==> #[trigger] allowed@[k] == (k % (n_bins as int) < n_bins - 1),
        decreases n_candidates - c,
    {
        let feature: usize = c / n_bins;
        let border: usize = c % n_bins;
        proof {
            lemma_line(c as int, n_bins as int, n_features as int);
            lemma_row(feature as int, n_features as int, n_bins * 2, n_bins * 2 - 1);
            assert(feature * n_bins * 2 == feature * (n_bins * 2)) by (nonlinear_arith);
            assert(0 <= feature * n_bins <= feature * (n_bins * 2)) by (nonlinear_arith)
                requires
                    0 <= feature,
                    0 <= n_bins,
            ;
        }
        let base: usize = feature * n_bins * 2;
        let sides = Sides {
            left_sum: sum_bins(bin_sums, base, 0, border + 1, n_bins),
            left_w: sum_bins(bin_sums, base + 1, 0, border + 1, n_bins),
            right_sum: sum_bins(bin_sums, base, border + 1, n_bins, n_bins),
            right_w: sum_bins(bin_sums, base + 1, border + 1, n_bins, n_bins),
        };
        let folded: F = cb_leaf_score_term(sides.left_sum, sides.left_w, scaled_l2, score_fn).plus(
            cb_leaf_score_term(sides.right_sum, sides.right_w, scaled_l2, score_fn),
        );
        let start = Score { folded: F::zero(), denominator: F::tiny() };
        let denominator: F = score_accumulate(start, sides, scaled_l2, score_fn).denominator;
        let score: F = score_finish(Score { folded, denominator }, score_fn);
        scores.push(score);
        allowed.push(border < n_bins - 1);
        c = c + 1;
    }
    let (best_gain, best_idx) = lane_argmax(scores.as_slice(), allowed.as_slice());
    assert(allowed@ =~= real_borders(scores@.len(), n_bins as int));
    SplitSearch { scores, best_gain, best_idx: best_idx as u32 }
}

/// Every candidate.
pub open spec fn all_allowed(n: nat) -> Seq<bool> {
    Seq::new(n, |c: int| true)
}

/// Selects the first of the best scores.
pub fn select_best_split_kernel<F: Real>(scores: &[F]) -> (r: (F, u32))
    requires
        scores@.len() <= u32::MAX,
    ensures
        first_best(scores@, all_allowed(scores@.len()), r.0, r.1 as int),
{
    let n: usize = scores.len();
    let allowed: Vec<bool> = vec![true; n];
    assert(allowed@ =~= all_allowed(scores@.len()));
    let (gain, idx) = lane_argmax(scores, allowed.as_slice());
    (gain, idx as u32)
}

/// A block winner that names a candidate with a comparable score.
pub open spec fn named<F: Real>(scores: Seq<F>, idxs: Seq<u32>, b: int) -> bool {
    0 <= b < idxs.len() && idxs[b] < scores.len() && scores[idxs[b] as int].is_number()
}

/// Selects the best of the block winners, the lowest index among equals. Winners that name
/// no candidate are passed over.
pub fn best_of_blocks<F: Real>(scores: &[F], idxs: &[u32]) -> (r: Option<u32>)
    requires
        scores@.len() <= u32::MAX,
    ensures
        r is None <==> forall|b: int| !(#[trigger] named(scores@, idxs@, b)),
        r is Some ==> exists|b: int| #[trigger] named(scores@, idxs@, b) && idxs@[b] == r->0,
        r is Some ==> forall|b: int| #[trigger]
            named(scores@, idxs@, b) ==> beats(scores@[r->0 as int], r->0 as int, scores@[idxs@[b] as int], idxs@[b] as int),
{
    let n: usize = scores.len();
    let m: usize = idxs.len();
    let mut best: Option<u32> = None;
    let mut best_score: F = F::bottom();
    let mut best_c: u32 = u32::MAX;
    let mut k: usize = 0;
    while k < m
        invariant
            k <= m,
            n == scores@.len(),
            n <= u32::MAX,
            m == idxs@.len(),
            best is None ==> best_score == F::bottom_spec() && best_c == u32::MAX && forall|b: int|
                b < k ==> !(#[trigger] named(scores@, idxs@, b)),
            best is Some ==> best->0 == best_c && best_c < n && best_score == scores@[best_c as int]
                && best_score.is_number(),
            best is Some ==> exists|b: int| b < k && #[trigger] named(scores@, idxs@, b) && idxs@[b] == best->0,
            best is Some ==> forall|b: int| #[trigger]
                named(scores@, idxs@, b) && b < k ==> beats(best_score, best_c as int, scores@[idxs@[b] as int], idxs@[b] as int),
        decreases m - k,
    {
        let cand: u32 = idxs[k];
        if (cand as usize) < n {
            let score: F = scores[cand as usize];
            proof {
                F::order_laws(score, best_score, best_score);
                F::order_laws(best_score, score, score);
                F::order_laws(score, score, score);
                assert forall|b: int| #[trigger] named(scores@, idxs@, b) && b < k && best is Some
                    && takes(best_score, best_c as int, score, cand as int) implies beats(score, cand as int, scores@[idxs@[b] as int], idxs@[b] as int) by {
                    lemma_orders(score, best_score, scores@[idxs@[b] as int]);
                }
                if best is None {
                    F::order_laws(score, score, score);
                }
                assert(named(scores@, idxs@, k as int) <==> score.is_number());
            }
            if score.above(best_score) || (score.ties(best_score) && cand < best_c) {
                best = Some(cand);
                best_score = score;
                best_c = cand;
            }
        } else {
            assert(!named(scores@, idxs@, k as int));
        }
        k = k + 1;
    }
    best
}

/// A selected split.
pub struct BestSplit<F> {
    pub feature_id: u32,
    pub bin_id: u32,
    pub score: F,
    pub gain: F,
}

/// The split that the candidate `c` stands for, `n_splits` candidates to a feature.
pub open spec fn split_of<F: Real>(scores: Seq<F>, n_splits: int, c: int) -> BestSplit<F> {
    BestSplit {
        feature_id: (c / n_splits) as u32,
        bin_id: (c % n_splits) as u32,
        score: scores[c].narrow_spec(),
        gain: scores[c].narrow_spec(),
    }
}

/// The split selected from the scores: the first of the best allowed candidates above the
/// gain floor.
pub open spec fn selected_split<F: Real>(
    scores: Seq<F>,
    allowed: Seq<bool>,
    n_splits: int,
    r: Option<BestSplit<F>>,
) -> bool {
    match r {
        None => n_splits == 0 || forall|c: int| !(#[trigger] eligible(scores, allowed, c)),
        Some(split) => n_splits > 0 && exists|c: int|
            first_best(scores, allowed, scores[c], c) && c < scores.len() && split == #[trigger] split_of(scores, n_splits, c),
    }
}

/// Selects the split with the best score, `n_splits` candidates to a feature.
pub fn select_best_split_over_scores<F: Real>(scores: &[F], n_splits: usize) -> (r: CbResult<Option<BestSplit<F>>>)
    ensures
        scores@.len() > u32::MAX ==> r == Err::<Option<BestSplit<F>>, CbError>(
            CbError::OutOfRange(RangeFault::CandidateAxis { n_candidates: scores@.len() as usize }),
        ),
        scores@.len() <= u32::MAX ==> r is Ok && selected_split(
            scores@,
            all_allowed(scores@.len()),
            n_splits as int,
            r->Ok_0,
        ),
{
    let n_candidates: usize = scores.len();
    if n_candidates == 0 {
        return Ok(None);
    }
    if n_candidates as u64 > 0xffff_ffff {
        return Err(CbError::OutOfRange(RangeFault::CandidateAxis { n_candidates }));
    }
    let (gain, winner) = select_best_split_kernel(scores);
    let block_winners: Vec<u32> = vec![winner];
    proof {
        F::order_laws(gain, F::floor_spec(), gain);
        assert(block_winners@[0] == winner);
        if winner < n_candidates {
            assert(named(scores@, block_winners@, 0));
        }
    }
    match best_of_blocks(scores, block_winners.as_slice()) {
        Some(c) => {
            if n_splits == 0 {
                return Ok(None);
            }
            proof {
                let b = choose|b: int| #[trigger] named(scores@, block_winners@, b) && block_winners@[b] == c;
                assert(b == 0);
                assert(first_best(scores@, all_allowed(scores@.len()), scores@[c as int], c as int));
                lemma_line(c as int, n_splits as int, 0);
                assert(c as int / n_splits as int <= c) by (nonlinear_arith)
                    requires
                        n_splits >= 1,
                        c >= 0,
                ;
            }
            let s: F = scores[c as usize].narrow();
            let split = BestSplit {
                feature_id: (c as usize / n_splits) as u32,
                bin_id: (c as usize % n_splits) as u32,
                score: s,
                gain: s,
            };
            assert(split == split_of(scores@, n_splits as int, c as int));
            Ok(Some(split))
        },
        None => {
            assert(!named(scores@, block_winners@, 0));
            Ok(None)
        },
    }
}

/// The sides of one candidate of one partition of a raw fixed-point histogram whose line
/// starts at `base`: weights in the even cells, derivatives in the odd ones. A one-hot
/// candidate separates one bin from the rest, a threshold one the bins up to it.
pub open spec fn part_sides<F: Real>(cells: Seq<u64>, base: int, n_bins: int, bin: int, one_hot: bool) -> Sides<F> {
    let n = n_bins as nat;
    if one_hot {
        let w = bins_sum(cells, base, bin, bin + 1, n);
        let d = bins_sum(cells, base + 1, bin, bin + 1, n);
        Sides {
            left_sum: F::decode_spec(d),
            left_w: F::decode_spec(w),
            right_sum: F::decode_spec(wrap(bins_sum(cells, base + 1, 0, n_bins, n) - d)),
            right_w: F::decode_spec(wrap(bins_sum(cells, base, 0, n_bins, n) - w)),
        }
    } else {
        Sides {
            left_sum: F::decode_spec(bins_sum(cells, base + 1, 0, bin + 1, n)),
            left_w: F::decode_spec(bins_sum(cells, base, 0, bin + 1, n)),
            right_sum: F::decode_spec(bins_sum(cells, base + 1, bin + 1, n_bins, n)),
            right_w: F::decode_spec(bins_sum(cells, base, bin + 1, n_bins, n)),
        }
    }
}

/// The score of a candidate accumulated over the first `upto` partitions. The partitions
/// of a level lie one after the other from `first`, `n_features` lines each.
pub open spec fn level_score<F: Real>(
    cells: Seq<u64>,
    first: int,
    n_features: int,
    n_bins: int,
    feature: int,
    bin: int,
    lambda: F,
    score_fn: u32,
    one_hot: bool,
    upto: nat,
) -> Score<F>
    decreases upto,
{
    if upto == 0 {
        score_start()
    } else {
        let line = n_bins * 2;
        score_step(
            level_score(cells, first, n_features, n_bins, feature, bin, lambda, score_fn, one_hot, (upto - 1) as nat),
            part_sides(cells, first + (upto - 1) * (n_features * line) + feature * line, n_bins, bin, one_hot),
            lambda,
            score_fn,
        )
    }
}

fn accumulate_level<F: Real>(
    cells: &[u64],
    first: usize,
    n_parts: usize,
    n_features: usize,
    n_bins: usize,
    feature: usize,
    bin: usize,
    lambda: F,
    score_fn: u32,
    one_hot: bool,
) -> (r: Score<F>)
    requires
        first + n_parts * (n_features * (n_bins * 2)) <= cells@.len(),
        feature < n_features,
        bin < n_bins,
    ensures
        r == level_score(cells@, first as int, n_features as int, n_bins as int, feature as int, bin as int, lambda, score_fn, one_hot, n_parts as nat),
{
    let total: usize = cells.len();
    let ghost line = n_bins * 2;
    let mut acc = Score { folded: F::zero(), denominator: F::tiny() };
    let mut part: usize = 0;
    while part < n_parts
        invariant
            part <= n_parts,
            total == cells@.len(),
            line == n_bins * 2,
            first + n_parts * (n_features * line) <= total,
            feature < n_features,
            bin < n_bins,
            acc == level_score(cells@, first as int, n_features as int, n_bins as int, feature as int, bin as int, lambda, score_fn, one_hot, part as nat),
        decreases n_parts - part,
    {
        let ghost pitch = n_features * line;
        proof {
            lemma_row(feature as int, n_features as int, line as int, line - 1);
            lemma_row(part as int, n_parts as int, pitch as int, feature * line + line - 1);
            lemma_row(part as int, n_parts as int, pitch as int, pitch - 1);
            assert(0 <= n_bins * 2 <= pitch) by (nonlinear_arith)
                requires
                    pitch == n_features * line,
                    line == n_bins * 2,
                    n_features >= 1,
                    line >= 0,
            ;
            assert(pitch <= n_parts * pitch) by (nonlinear_arith)
                requires
                    n_parts >= 1,
                    pitch >= 0,
            ;
            assert(n_features * line == n_features * (n_bins * 2));
        }
        let base: usize = first + part * (n_features * (n_bins * 2)) + feature * (n_bins * 2);
        let sides: Sides<F> = if one_hot {
            let w: u64 = sum_bins(cells, base, bin, bin + 1, n_bins);
            let d: u64 = sum_bins(cells, base + 1, bin, bin + 1, n_bins);
            let total_w: u64 = sum_bins(cells, base, 0, n_bins, n_bins);
            let total_d: u64 = sum_bins(cells, base + 1, 0, n_bins, n_bins);
            Sides {
                left_sum: F::decode(d),
                left_w: F::decode(w),
                right_sum: F::decode(word_sub(total_d, d)),
                right_w: F::decode(word_sub(total_w, w)),
            }
        } else {
            Sides {
                left_sum: F::decode(sum_bins(cells, base + 1, 0, bin + 1, n_bins)),
                left_w: F::decode(sum_bins(cells, base, 0, bin + 1, n_bins)),
                right_sum: F::decode(sum_bins(cells, base + 1, bin + 1, n_bins, n_bins)),
                right_w: F::decode(sum_bins(cells, base, bin + 1, n_bins, n_bins)),
            }
        };
        acc = score_accumulate(acc, sides, lambda, score_fn);
        part = part + 1;
    }
    acc
}

/// Whether a bin of a feature is a candidate of a scoring pass. A one-hot pass takes the
/// bins that the feature really has, a threshold pass the borders between used bins.
pub open spec fn in_pass(
    real_folds: Seq<u32>,
    n_bins_used: int,
    one_hot: bool,
    feature_lo: int,
    feature_hi: int,
    feature: int,
    bin: int,
) -> bool {
    &&& feature_lo <= feature < feature_hi
    &&& if one_hot {
        feature < real_folds.len() && bin < real_folds[feature]
    } else {
        bin + 1 < n_bins_used
    }
}

/// The candidates of a scoring pass, `n_bins` to a feature.
pub open spec fn pass_candidates(
    n_features: nat,
    n_bins: nat,
    real_folds: Seq<u32>,
    n_bins_used: int,
    one_hot: bool,
    feature_lo: int,
    feature_hi: int,
) -> Seq<bool> {
    Seq::new(
        n_features * n_bins,
        |c: int| in_pass(real_folds, n_bins_used, one_hot, feature_lo, feature_hi, c / (n_bins as int), c % (n_bins as int)),
    )
}

/// The score of the candidate `c` of a level.
pub open spec fn pass_score<F: Real>(
    cells: Seq<u64>,
    n_parts: nat,
    n_features: int,
    n_bins: int,
    lambda: F,
    score_fn: u32,
    one_hot: bool,
    c: int,
) -> F {
    score_value(
        level_score(cells, 0, n_features, n_bins, c / n_bins, c % n_bins, lambda, score_fn, one_hot, n_parts),
        score_fn,
    )
}

/// `split` is the first of the best candidates among those allowed, under the scores that
/// `score_of` gives them.
pub open spec fn best_under<F: Real>(
    score_of: spec_fn(int) -> F,
    allowed: Seq<bool>,
    n_bins: int,
    r: Option<BestSplit<F>>,
) -> bool {
    selected_split(Seq::new(allowed.len(), score_of), allowed, n_bins, r)
}

/// A selected split is a candidate of its pass, under its index among all features: a bin
/// that only pads a line never wins, and neither does the last border.
pub proof fn law_winner_is_in_its_pass<F: Real>(
    score_of: spec_fn(int) -> F,
    n_features: nat,
    n_bins: nat,
    real_folds: Seq<u32>,
    n_bins_used: int,
    one_hot: bool,
    feature_lo: int,
    feature_hi: int,
    split: BestSplit<F>,
)
    requires
        n_features * n_bins <= u32::MAX,
        best_under(
            score_of,
            pass_candidates(n_features, n_bins, real_folds, n_bins_used, one_hot, feature_lo, feature_hi),
            n_bins as int,
            Some(split),
        ),
    ensures
        in_pass(
            real_folds,
            n_bins_used,
            one_hot,
            feature_lo,
            feature_hi,
            split.feature_id as int,
            split.bin_id as int,
        ),
        split.feature_id < n_features,
        split.bin_id < n_bins,
{
    let allowed = pass_candidates(n_features, n_bins, real_folds, n_bins_used, one_hot, feature_lo, feature_hi);
    let scores = Seq::new(allowed.len(), score_of);
    let c = choose|c: int|
        first_best(scores, allowed, scores[c], c) && c < scores.len() && split == #[trigger] split_of(scores, n_bins as int, c);
    assert(eligible(scores, allowed, c));
    assert(n_bins > 0) by (nonlinear_arith)
        requires
            0 <= c < n_features * n_bins,
            n_bins >= 0,
    ;
    lemma_line(c, n_bins as int, n_features as int);
    assert(c / (n_bins as int) <= c) by (nonlinear_arith)
        requires
            c >= 0,
            n_bins >= 1,
    ;
    lemma_candidate_width(n_features, n_bins, c);
}

proof fn lemma_candidate_width(n_features: nat, n_bins: nat, c: int)
    requires
        0 <= c < n_features * n_bins,
        n_features * n_bins <= u32::MAX,
    ensures
        n_bins <= u32::MAX,
{
    assert(n_bins <= n_features * n_bins) by (nonlinear_arith)
        requires
            0 <= c < n_features * n_bins,
            n_features >= 0,
            n_bins >= 0,
    ;
}

/// A pass without candidates has no winner.
pub proof fn law_empty_pass_has_no_winner<F: Real>(
    score_of: spec_fn(int) -> F,
    allowed: Seq<bool>,
    n_bins: int,
    r: Option<BestSplit<F>>,
)
    requires
        best_under(score_of, allowed, n_bins, r),
        forall|c: int| 0 <= c < allowed.len() ==> !(#[trigger] allowed[c]),
    ensures
        r is None,
{
}

/// The two sides of a candidate add up to the whole line, for a threshold as for a one-hot
/// candidate: no object is lost, and none is on both sides.
pub proof fn law_sides_add_up(cells: Seq<u64>, base: int, n_bins: nat, bin: int)
    requires
        0 <= bin < n_bins,
    ensures
        wrap(
            bins_sum(cells, base, 0, bin + 1, n_bins) + bins_sum(cells, base, bin + 1, n_bins as int, n_bins),
        ) == bins_sum(cells, base, 0, n_bins as int, n_bins),
        wrap(
            bins_sum(cells, base, bin, bin + 1, n_bins) + wrap(
                bins_sum(cells, base, 0, n_bins as int, n_bins) - bins_sum(cells, base, bin, bin + 1, n_bins),
            ),
        ) == bins_sum(cells, base, 0, n_bins as int, n_bins),
{
    lemma_sides(cells, base, n_bins as int, bin + 1, n_bins);
    let whole = bins_sum(cells, base, 0, n_bins as int, n_bins);
    let part = bins_sum(cells, base, bin, bin + 1, n_bins);
    lemma_wrap_add(part as int, whole - part);
    lemma_wrap_small(whole);
}

proof fn lemma_sides(cells: Seq<u64>, base: int, n_bins: int, border: int, upto: nat)
    requires
        0 <= border <= n_bins,
        upto <= n_bins,
    ensures
        wrap(
            bins_sum(cells, base, 0, border, upto) + bins_sum(cells, base, border, n_bins, upto),
        ) == bins_sum(cells, base, 0, n_bins, upto),
    decreases upto,
{
    lemma_wrap_small(0);
    if upto > 0 {
        let prev = (upto - 1) as nat;
        lemma_sides(cells, base, n_bins, border, prev);
        let a = bins_sum(cells, base, 0, border, prev);
        let b = bins_sum(cells, base, border, n_bins, prev);
        let v = cells[base + prev * 2];
        lemma_wrap_add(a + v, b as int);
        lemma_wrap_add(a as int, b + v);
        lemma_wrap_add(a + b, v as int);
        lemma_wrap_small(a);
        lemma_wrap_small(b);
    }
}

/// Replacing the scores of candidates that are not allowed changes no selection.
proof fn lemma_allowed_scores<F: Real>(a: Seq<F>, b: Seq<F>, allowed: Seq<bool>, gain: F, idx: int)
    requires
        a.len() == b.len(),
        a.len() == allowed.len(),
        forall|c: int| 0 <= c < a.len() && allowed[c] ==> #[trigger] a[c] == b[c],
        first_best(a, allowed, gain, idx),
    ensures
        first_best(b, allowed, gain, idx),
        forall|c: int| #[trigger] eligible(b, allowed, c) ==> eligible(a, allowed, c),
        forall|c: int| #[trigger] eligible(a, allowed, c) ==> eligible(b, allowed, c),
{
    assert forall|c: int| #[trigger] eligible(b, allowed, c) implies eligible(a, allowed, c) && a[c] == b[c] by {
        assert(a[c] == b[c]);
    }
    assert forall|c: int| #[trigger] eligible(a, allowed, c) implies eligible(b, allowed, c) && a[c] == b[c] by {
        assert(a[c] == b[c]);
    }
}

/// Turns a lane selection into a split.
fn split_at<F: Real>(
    scores: &Vec<F>,
    allowed: &Vec<bool>,
    n_bins: usize,
    score_of: Ghost<spec_fn(int) -> F>,
) -> (r: Option<BestSplit<F>>)
    requires
        scores@.len() == allowed@.len(),
        scores@.len() <= u32::MAX,
        scores@.len() > 0 ==> n_bins > 0,
        forall|c: int| 0 <= c < scores@.len() && allowed@[c] ==> #[trigger] scores@[c] == (score_of@)(c),
    ensures
        best_under(score_of@, allowed@, n_bins as int, r),
{
    let (gain, idx) = lane_argmax(scores.as_slice(), allowed.as_slice());
    let ghost want = Seq::new(allowed@.len(), score_of@);
    proof {
        lemma_allowed_scores(scores@, want, allowed@, gain, idx as int);
    }
    if idx < scores.len() {
        proof {
            lemma_line(idx as int, n_bins as int, 0);
            assert(idx as int / n_bins as int <= idx) by (nonlinear_arith)
                requires
                    n_bins >= 1,
                    idx >= 0,
            ;
            assert(eligible(scores@, allowed@, idx as int));
            assert(scores@[idx as int] == want[idx as int]);
        }
        let s: F = scores[idx].narrow();
        let split = BestSplit { feature_id: (idx / n_bins) as u32, bin_id: (idx % n_bins) as u32, score: s, gain: s };
        assert(split == split_of(want, n_bins as int, idx as int));
        Some(split)
    } else {
        None
    }
}

/// Scores the candidates of one pass over the partitions of a level and selects the first
/// of the best. A feature is reported by its index among all features.
pub fn score_partition_over_binsums<F: Real>(
    bin_sums: &[u64],
    n_parts: usize,
    n_bins: usize,
    n_bins_used: usize,
    n_features: usize,
    lambda: F,
    score_fn: u32,
    real_folds: &[u32],
    one_hot: bool,
    feature_lo: usize,
    feature_hi: usize,
) -> (r: CbResult<Option<BestSplit<F>>>)
    requires
        bin_sums@.len() == n_parts * (n_features * (n_bins * 2)),
        n_parts > 0,
    ensures
        n_features * n_bins > u32::MAX ==> r == Err::<Option<BestSplit<F>>, CbError>(
            CbError::OutOfRange(RangeFault::CandidateAxis { n_candidates: (n_features * n_bins) as usize }),
        ),
        n_features * n_bins <= u32::MAX ==> r is Ok && best_under(
            |c: int| pass_score(bin_sums@, n_parts as nat, n_features as int, n_bins as int, lambda, score_fn, one_hot, c),
            pass_candidates(n_features as nat, n_bins as nat, real_folds@, n_bins_used as int, one_hot, feature_lo as int, feature_hi as int),
            n_bins as int,
            r->Ok_0,
        ),
{
    let total: usize = bin_sums.len();
    proof {
        assert(n_features * n_bins <= n_parts * (n_features * (n_bins * 2))) by (nonlinear_arith)
            requires
                n_parts >= 1,
                0 <= n_features,
                0 <= n_bins,
        ;
    }
    let n_candidates: usize = n_features * n_bins;
    if n_candidates as u64 > 0xffff_ffff {
        return Err(CbError::OutOfRange(RangeFault::CandidateAxis { n_candidates }));
    }
    let ghost score_of = |c: int| pass_score(bin_sums@, n_parts as nat, n_features as int, n_bins as int, lambda, score_fn, one_hot, c);
    let mut scores: Vec<F> = Vec::new();
    let mut allowed: Vec<bool> = Vec::new();
    let mut c: usize = 0;
    while c < n_candidates
        invariant
            c <= n_candidates,
            n_candidates == n_features * n_bins,
            total == bin_sums@.len(),
            bin_sums@.len() == n_parts * (n_features * (n_bins * 2)),
            score_of == (|c: int| pass_score(bin_sums@, n_parts as nat, n_features as int, n_bins as int, lambda, score_fn, one_hot, c)),
            scores@.len() == c,
            allowed@.len() == c,
            forall|k: int| 0 <= k < c ==> #[trigger] allowed@[k] == in_pass(real_folds@, n_bins_used as int, one_hot, feature_lo as int, feature_hi as int, k / (n_bins as int), k % (n_bins as int)),
            forall|k: int| 0 <= k < c && allowed@[k] ==> #[trigger] scores@[k] == score_of(k),
        decreases n_candidates - c,
    {
        proof {
            assert(n_bins > 0) by (nonlinear_arith)
                requires
                    0 <= c < n_features * n_bins,
                    n_bins >= 0,
            ;
            lemma_line(c as int, n_bins as int, n_features as int);
        }
        let feature: usize = c / n_bins;
        let bin: usize = c % n_bins;
        let ok: bool = feature_lo <= feature && feature < feature_hi && if one_hot {
            feature < real_folds.len() && bin < real_folds[feature] as usize
        } else {
            bin + 1 < n_bins_used
        };
        let score: F = if ok {
            score_finish(accumulate_level(bin_sums, 0, n_parts, n_features, n_bins, feature, bin, lambda, score_fn, one_hot), score_fn)
        } else {
            F::zero()
        };
        scores.push(score);
        allowed.push(ok);
        c = c + 1;
    }
    proof {
        assert(allowed@ =~= pass_candidates(n_features as nat, n_bins as nat, real_folds@, n_bins_used as int, one_hot, feature_lo as int, feature_hi as int));
        if n_candidates > 0 {
            assert(n_bins > 0) by (nonlinear_arith)
                requires
                    0 < n_features * n_bins,
                    n_bins >= 0,
            ;
        }
    }
    Ok(split_at(&scores, &allowed, n_bins, Ghost(score_of)))
}

/// The score of a candidate summed over the segments of an ordered fold. Each segment has
/// its own regularisation, and its own histogram after those of the segments before it.
pub open spec fn ordered_score<F: Real>(
    cells: Seq<u64>,
    n_parts: nat,
    n_features: int,
    n_bins: int,
    lambdas: Seq<F>,
    c: int,
    upto: nat,
) -> F
    decreases upto,
{
    if upto == 0 {
        F::zero_spec()
    } else {
        let seg = upto - 1;
        let pitch = n_parts * (n_features * (n_bins * 2));
        ordered_score(cells, n_parts, n_features, n_bins, lambdas, c, seg as nat).plus_spec(
            level_score(cells, seg * pitch, n_features, n_bins, c / n_bins, c % n_bins, lambdas[seg], SCORE_FN_L2, false, n_parts).folded,
        )
    }
}

fn sum_segments<F: Real>(
    cells: &[u64],
    n_parts: usize,
    n_features: usize,
    n_bins: usize,
    lambdas: &[F],
    feature: usize,
    bin: usize,
    c: Ghost<int>,
) -> (r: F)
    requires
        cells@.len() == lambdas@.len() * (n_parts * (n_features * (n_bins * 2))),
        feature < n_features,
        bin < n_bins,
        n_parts > 0,
        c@ / (n_bins as int) == feature,
        c@ % (n_bins as int) == bin,
    ensures
        r == ordered_score(cells@, n_parts as nat, n_features as int, n_bins as int, lambdas@, c@, lambdas@.len()),
{
    let total: usize = cells.len();
    let n_segments: usize = lambdas.len();
    let ghost pitch = n_parts * (n_features * (n_bins * 2));
    let mut acc: F = F::zero();
    let mut seg: usize = 0;
    while seg < n_segments
        invariant
            seg <= n_segments,
            n_segments == lambdas@.len(),
            total == cells@.len(),
            pitch == n_parts * (n_features * (n_bins * 2)),
            total == n_segments * pitch,
            feature < n_features,
            bin < n_bins,
            n_parts > 0,
            c@ / (n_bins as int) == feature,
            c@ % (n_bins as int) == bin,
            acc == ordered_score(cells@, n_parts as nat, n_features as int, n_bins as int, lambdas@, c@, seg as nat),
        decreases n_segments - seg,
    {
        proof {
            let line = n_bins * 2;
            assert(line <= n_features * line) by (nonlinear_arith)
                requires
                    n_features >= 1,
                    line >= 0,
            ;
            let rows = n_features * line;
            assert(rows <= n_parts * rows) by (nonlinear_arith)
                requires
                    n_parts >= 1,
                    rows >= 0,
            ;
            lemma_row(seg as int, n_segments as int, pitch as int, pitch - 1);
            assert(seg * pitch + pitch <= total);
            assert(pitch >= 0);
            assert(0 <= seg * pitch);
        }
        let first: usize = seg * (n_parts * (n_features * (n_bins * 2)));
        let score = accumulate_level(cells, first, n_parts, n_features, n_bins, feature, bin, lambdas[seg], SCORE_FN_L2, false);
        acc = acc.plus(score.folded);
        seg = seg + 1;
    }
    acc
}

/// Scores the borders of every feature over the segments of an ordered fold and selects
/// the first of the best.
pub fn score_ordered_over_segment_binsums<F: Real>(
    bin_sums: &[u64],
    n_parts: usize,
    n_bins: usize,
    n_bins_used: usize,
    n_features: usize,
    lambdas: &[F],
) -> (r: CbResult<Option<BestSplit<F>>>)
    requires
        bin_sums@.len() == lambdas@.len() * (n_parts * (n_features * (n_bins * 2))),
        lambdas@.len() > 0,
        n_parts > 0,
    ensures
        n_features * n_bins > u32::MAX ==> r == Err::<Option<BestSplit<F>>, CbError>(
            CbError::OutOfRange(RangeFault::CandidateAxis { n_candidates: (n_features * n_bins) as usize }),
        ),
        n_features * n_bins <= u32::MAX ==> r is Ok && best_under(
            |c: int| ordered_score(bin_sums@, n_parts as nat, n_features as int, n_bins as int, lambdas@, c, lambdas@.len()),
            pass_candidates(n_features as nat, n_bins as nat, Seq::empty(), n_bins_used as int, false, 0, n_features as int),
            n_bins as int,
            r->Ok_0,
        ),
{
    let total: usize = bin_sums.len();
    let n_segments: usize = lambdas.len();
    proof {
        let rows = n_features * (n_bins * 2);
        assert(n_features * n_bins <= rows) by (nonlinear_arith)
            requires
                rows == n_features * (n_bins * 2),
                0 <= n_features,
                0 <= n_bins,
        ;
        let pitch = n_parts * rows;
        assert(rows <= pitch) by (nonlinear_arith)
            requires
                pitch == n_parts * rows,
                n_parts >= 1,
                rows >= 0,
        ;
        assert(pitch <= n_segments * pitch) by (nonlinear_arith)
            requires
                n_segments >= 1,
                pitch >= 0,
        ;
    }
    let n_candidates: usize = n_features * n_bins;
    if n_candidates as u64 > 0xffff_ffff {
        return Err(CbError::OutOfRange(RangeFault::CandidateAxis { n_candidates }));
    }
    let ghost score_of = |c: int| ordered_score(bin_sums@, n_parts as nat, n_features as int, n_bins as int, lambdas@, c, lambdas@.len());
    let mut scores: Vec<F> = Vec::new();
    let mut allowed: Vec<bool> = Vec::new();
    let mut c: usize = 0;
    while c < n_candidates
        invariant
            c <= n_candidates,
            n_parts > 0,
            n_candidates == n_features * n_bins,
            total == bin_sums@.len(),
            bin_sums@.len() == lambdas@.len() * (n_parts * (n_features * (n_bins * 2))),
            score_of == (|c: int| ordered_score(bin_sums@, n_parts as nat, n_features as int, n_bins as int, lambdas@, c, lambdas@.len())),
            scores@.len() == c,
            allowed@.len() == c,
            forall|k: int| 0 <= k < c ==> #[trigger] allowed@[k] == in_pass(Seq::empty(), n_bins_used as int, false, 0, n_features as int, k / (n_bins as int), k % (n_bins as int)),
            forall|k: int| 0 <= k < c && allowed@[k] ==> #[trigger] scores@[k] == score_of(k),
        decreases n_candidates - c,
    {
        proof {
            assert(n_bins > 0) by (nonlinear_arith)
                requires
                    0 <= c < n_features * n_bins,
                    n_bins >= 0,
            ;
            lemma_line(c as int, n_bins as int, n_features as int);
        }
        let feature: usize = c / n_bins;
        let bin: usize = c % n_bins;
        let ok: bool = bin + 1 < n_bins_used;
        let score: F = if ok {
            sum_segments(bin_sums, n_parts, n_features, n_bins, lambdas, feature, bin, Ghost(c as int))
        } else {
            F::zero()
        };
        scores.push(score);
        allowed.push(ok);
        c = c + 1;
    }
    proof {
        assert(allowed@ =~= pass_candidates(n_features as nat, n_bins as nat, Seq::empty(), n_bins_used as int, false, 0, n_features as int));
        if n_candidates > 0 {
            assert(n_bins > 0) by (nonlinear_arith)
                requires
                    0 < n_features * n_bins,
                    n_bins >= 0,
            ;
        }
    }
    Ok(split_at(&scores, &allowed, n_bins, Ghost(score_of)))
}

} // verus!
