//! What pairwise systems, stumps and exact leaves are made of.

use vstd::prelude::*;
use crate::cell_laws::{lemma_kept_run, run_total};
use crate::channel::{Channel, Real};
use crate::config::Backend;
use crate::exact::{distance, exact, lemma_minus, lemma_ratio, lemma_regroup};
use crate::histogram::{lemma_line_cell, lemma_row, pair_hist_fold};
use crate::multiclass_laws::leaf_objects;
use crate::pairwise::{
    GrownTree, PairwiseScoreInput, PairwiseSplitScore, PairwiseSystem, assemble_pairwise_system_host, binsums_len,
    grow_oblivious_tree_pairwise, launch_pairwise_hist, launch_pairwise_split_score, launch_scan_update_pairwise,
    leaf_stats_fold, pairwise_score_input, scan_update_pairwise_kernel, scan_update_pointwise_kernel,
};
use crate::session::{compute_exact_leaf_values, exact_leaf_groups, leaf_members, magnitude_or_one};

verus! {

/// The prior of a pairwise system is shared out evenly and cancels over a row: each cell off
/// the diagonal takes away its share, so that the diagonal and the other cells of a row add
/// up to the regularisation of the diagonal alone.
pub proof fn law_system_prior_cancels<F: Real>(
    val: spec_fn(F) -> real,
    room: spec_fn(real) -> bool,
    backend: Backend,
    weight_sums: &[F],
    der_sums: &[F],
    l2: F,
    prior: F,
    s: PairwiseSystem<F>,
)
    requires
        exact(val, room),
        call_ensures(assemble_pairwise_system_host::<F>, (backend, weight_sums, der_sums, l2, prior), Ok(Some(s))),
        ({
            let leaves = der_sums@.len() as real;
            let share = 1 as real / leaves;
            let p = val(prior);
            &&& val(F::count_spec(der_sums@.len() as usize)) == leaves
            &&& room(share)
            &&& room(-p)
            &&& room(-p * share)
            &&& room(1 as real - share)
            &&& room(p * (1 as real - share))
            &&& room(p * (1 as real - share) + val(l2))
        }),
    ensures
        s.rows == der_sums@.len() - 1,
        2 * s.matrix_len == s.rows * (s.rows + 1),
        s.out_len == s.matrix_len + s.rows,
        val(s.non_diag_reg) * (der_sums@.len() as real) == -val(prior),
        val(s.diag_reg) + (der_sums@.len() as real - 1 as real) * val(s.non_diag_reg) == val(l2),
{
    let leaves = der_sums@.len() as real;
    let share = 1 as real / leaves;
    let p = val(prior);
    let one = F::one_spec();
    let cell = one.over_spec(F::count_spec(der_sums@.len() as usize));
    assert(leaves != 0 as real);
    assert(val(cell) == share);
    let np = prior.negated_spec();
    assert(val(np) == -p);
    assert(val(s.non_diag_reg) == -p * share);
    let rest = one.minus_spec(cell);
    assert(val(rest) == 1 as real - share);
    let pr = prior.times_spec(rest);
    assert(val(pr) == p * (1 as real - share));
    lemma_ratio(1 as real, leaves);
    lemma_regroup(-p, share, leaves);
    assert(-p * (1 as real) == -p);
    let m = s.rows as int;
    assert((m * (m + 1)) % 2 == 0) by {
        lemma_even(m);
    }
    let off = -p * share;
    lemma_minus(p, share);
    assert(p * (1 as real - share) == p - p * share) by (nonlinear_arith);
    assert((leaves - 1 as real) * off == off * leaves - off) by (nonlinear_arith);
}

proof fn lemma_even(m: int)
    requires
        m >= 0,
    ensures
        (m * (m + 1)) % 2 == 0,
    decreases m,
{
    if m > 0 {
        lemma_even(m - 1);
        assert(m * (m + 1) == (m - 1) * m + 2 * m) by (nonlinear_arith);
    }
}

/// The running sums of a two-channel histogram start from the first bin of each line, and
/// every further bin adds its own cell of the same channel.
pub proof fn law_pointwise_running_sums<F: Channel>(bin_sums: &[F], n_bins: usize, r: Vec<F>, f: int, b: int, ch: int)
    requires
        call_ensures(scan_update_pointwise_kernel::<F>, (bin_sums, n_bins), r),
        0 <= f,
        0 <= b < n_bins,
        0 <= ch < 2,
        f * (n_bins * 2) + (b * 2 + ch) < bin_sums@.len(),
    ensures
        r@.len() == bin_sums@.len(),
        ({
            let at = |b: int| f * (n_bins * 2) + (b * 2 + ch);
            r@[at(b)] == if b == 0 { bin_sums@[at(0)] } else { r@[at(b - 1)].plus_spec(bin_sums@[at(b)]) }
        }),
{
    lemma_line_cell(f, n_bins * 2, b * 2 + ch);
    lemma_forward(f, n_bins * 2);
}

/// The running sums of a pairwise histogram start from the first bin of each line, and every
/// further bin adds its own cell of the same channel.
pub proof fn law_pairwise_running_sums<F: Channel>(bin_sums: &[F], n_bins: usize, r: Vec<F>, f: int, b: int, ch: int)
    requires
        call_ensures(scan_update_pairwise_kernel::<F>, (bin_sums, n_bins), r),
        0 <= f,
        0 <= b < n_bins,
        0 <= ch < 4,
        f * (n_bins * 4) + (b * 4 + ch) < bin_sums@.len(),
    ensures
        r@.len() == bin_sums@.len(),
        ({
            let at = |b: int| f * (n_bins * 4) + (b * 4 + ch);
            r@[at(b)] == if b == 0 { bin_sums@[at(0)] } else { r@[at(b - 1)].plus_spec(bin_sums@[at(b)]) }
        }),
{
    lemma_line_cell(f, n_bins * 4, b * 4 + ch);
    lemma_forward(f, n_bins * 4);
}

proof fn lemma_forward(f: int, line: int)
    requires
        0 <= f,
        0 <= line,
    ensures
        0 <= f * line,
{
    assert(0 <= f * line) by (nonlinear_arith)
        requires
            0 <= f,
            0 <= line,
    ;
}

/// A level lists the border scores of its features one feature after the other, and the
/// bottom score for a border that a feature has none for.
pub proof fn law_border_scores_are_listed<F: Real>(
    der1: &[F],
    pair_i: &[u32],
    pair_j: &[u32],
    pair_weight: &[F],
    cindex: &[u32],
    indices: &[u32],
    n_bins: usize,
    n_features: usize,
    feature_scores: &[Vec<F>],
    s: PairwiseSplitScore<F>,
    f: int,
    b: int,
)
    requires
        call_ensures(
            launch_pairwise_split_score::<F>,
            (der1, pair_i, pair_j, pair_weight, cindex, indices, n_bins, n_features, feature_scores),
            Ok(s),
        ),
        der1@.len() > 0,
        0 <= f < n_features,
        0 <= b < n_bins - 1,
    ensures
        s.scores@.len() == n_features * (n_bins - 1),
        f < feature_scores@.len() && b < feature_scores@[f]@.len() ==> s.scores@[f * (n_bins - 1) + b] == feature_scores@[f]@[b],
        f >= feature_scores@.len() || b >= feature_scores@[f]@.len() ==> s.scores@[f * (n_bins - 1) + b] == F::bottom_spec(),
{
    lemma_row(f, n_features as int, n_bins - 1, b);
    lemma_line_cell(f, n_bins - 1, b);
}

/// A stump sends the objects above its border to the right leaf and leaves all others in the
/// left one. The statistics of a leaf are the derivatives, the weights and the negated
/// weights of its own objects, and its value is their regularised average.
pub proof fn law_stump<F: Real>(
    der1: &[F],
    weight: &[F],
    pair_i: &[u32],
    pair_j: &[u32],
    pair_weight: &[F],
    cindex: &[u32],
    indices: &[u32],
    n_bins: usize,
    n_features: usize,
    depth: usize,
    scaled_l2: F,
    feature_scores: &[Vec<F>],
    tree: GrownTree<F>,
    obj: u32,
    leaf: u32,
)
    requires
        call_ensures(
            grow_oblivious_tree_pairwise::<F>,
            (der1, weight, pair_i, pair_j, pair_weight, cindex, indices, n_bins, n_features, depth, scaled_l2, feature_scores),
            Ok(tree),
        ),
        der1@.len() > 0,
        n_features > 0,
        n_bins > 0,
        depth > 0,
        obj < der1@.len(),
        leaf < 2,
    ensures
        tree.splits@.len() == 1,
        tree.leaf_of@.len() == der1@.len(),
        tree.leaf_of@[obj as int] == if indices@.contains(obj) && cindex@[tree.splits@[0].0 * der1@.len() + obj] > tree.splits@[0].1 {
            1u32
        } else {
            0u32
        },
        ({
            let own = indices@.filter(|i: u32| tree.leaf_of@[i as int] == leaf);
            let sum = run_total(own.map_values(|i: u32| der1@[i as int]));
            let w = run_total(own.map_values(|i: u32| weight@[i as int]));
            &&& tree.part_stats@.len() == 6
            &&& tree.part_stats@[leaf * 3] == sum
            &&& tree.part_stats@[leaf * 3 + 1] == w
            &&& tree.part_stats@[leaf * 3 + 2] == run_total(own.map_values(|i: u32| weight@[i as int].negated_spec()))
            &&& tree.leaf_values@.len() == 2
            &&& tree.leaf_values@[leaf as int] == if w.above_spec(F::zero_spec()) {
                sum.over_spec(w.plus_spec(scaled_l2))
            } else {
                F::zero_spec()
            }
        }),
{
    let n = indices@.len();
    let keep = |i: u32| tree.leaf_of@[i as int] == leaf;
    let l = leaf as int;
    assert(0u32 | (1u32 << 0u32) == 1u32) by (bit_vector);
    let stat = |k: int| |upto: nat| leaf_stats_fold(der1@, weight@, indices@, tree.leaf_of@, l * 3 + k, upto);
    lemma_kept_run(indices@, keep, |i: u32| der1@[i as int], stat(0), n);
    lemma_kept_run(indices@, keep, |i: u32| weight@[i as int], stat(1), n);
    lemma_kept_run(indices@, keep, |i: u32| weight@[i as int].negated_spec(), stat(2), n);
    assert(indices@.take(n as int) =~= indices@);
    assert(tree.part_stats@[l * 3] == stat(0)(n));
    assert(tree.part_stats@[l * 3 + 1] == stat(1)(n));
    assert(tree.part_stats@[l * 3 + 2] == stat(2)(n));
}

/// The members of a leaf are its objects in ascending order.
proof fn lemma_members(leaf_of: Seq<u32>, leaf: u32, upto: nat)
    requires
        upto <= leaf_of.len(),
    ensures
        leaf_members(leaf_of, leaf as int, upto) == leaf_objects(leaf_of, leaf, upto as int),
    decreases upto,
{
    reveal(Seq::filter);
    let all = Seq::new(upto, |i: int| i);
    if upto == 0 {
        assert(all =~= Seq::<int>::empty());
        assert(leaf_objects(leaf_of, leaf, 0) =~= Seq::<int>::empty());
    } else {
        let prev = (upto - 1) as nat;
        lemma_members(leaf_of, leaf, prev);
        assert(all.drop_last() =~= Seq::new(prev, |i: int| i));
        assert(all.last() == prev);
    }
}

/// The members of a leaf are objects.
proof fn lemma_members_exist(leaf_of: Seq<u32>, leaf: int, upto: nat)
    ensures
        forall|k: int| 0 <= k < leaf_members(leaf_of, leaf, upto).len() ==> 0 <= #[trigger] leaf_members(leaf_of, leaf, upto)[k] < upto,
    decreases upto,
{
    if upto > 0 {
        let rest = leaf_members(leaf_of, leaf, (upto - 1) as nat);
        lemma_members_exist(leaf_of, leaf, (upto - 1) as nat);
        assert forall|k: int| 0 <= k < leaf_members(leaf_of, leaf, upto).len() implies 0 <= #[trigger] leaf_members(leaf_of, leaf, upto)[k]
            < upto by {
            if k < rest.len() {
                assert(0 <= rest[k] < upto - 1);
            }
        }
    }
}

/// An entry of a column, or what stands for it past the end of the column.
pub open spec fn entry<F>(column: Seq<F>, i: int, or: F) -> F {
    if 0 <= i < column.len() {
        column[i]
    } else {
        or
    }
}

/// An exact leaf is estimated from the residuals of its own objects, in ascending order, each
/// with its weight; past the end of a column a value is zero and a weight is one. A percentage error weighs an object down: the weight times the magnitude
/// of the target, or one where that is less, is the object's own weight.
pub proof fn law_exact_leaf_groups<F: Real>(
    val: spec_fn(F) -> real,
    room: spec_fn(real) -> bool,
    leaf_of: &[u32],
    n_leaves: usize,
    approx: &[F],
    target: &[F],
    weight: &[F],
    mape: bool,
    r: (Vec<Vec<F>>, Vec<Vec<F>>),
    leaf: u32,
    k: int,
)
    requires
        exact(val, room),
        call_ensures(exact_leaf_groups::<F>, (leaf_of, n_leaves, approx, target, weight, mape), r),
        leaf < n_leaves,
        0 <= k < leaf_objects(leaf_of@, leaf, leaf_of@.len() as int).len(),
        ({
            let i = leaf_objects(leaf_of@, leaf, leaf_of@.len() as int)[k];
            let t = val(entry(target@, i, F::zero_spec()));
            let scale = if distance(t) > 1 as real { distance(t) } else { 1 as real };
            &&& room(-t)
            &&& room(val(entry(weight@, i, F::one_spec())) / scale)
        }),
    ensures
        ({
            let own = leaf_objects(leaf_of@, leaf, leaf_of@.len() as int);
            let i = own[k];
            let t = val(entry(target@, i, F::zero_spec()));
            let scale = if distance(t) > 1 as real { distance(t) } else { 1 as real };
            &&& r.0@[leaf as int]@.len() == own.len()
            &&& r.1@[leaf as int]@.len() == own.len()
            &&& r.0@[leaf as int]@[k] == entry(target@, i, F::zero_spec()).minus_spec(entry(approx@, i, F::zero_spec())).narrow_spec()
            &&& !mape ==> r.1@[leaf as int]@[k] == entry(weight@, i, F::one_spec())
            &&& mape ==> val(r.1@[leaf as int]@[k]) * scale == val(entry(weight@, i, F::one_spec()))
        }),
{
    lemma_members(leaf_of@, leaf, leaf_of@.len());
    lemma_members_exist(leaf_of@, leaf as int, leaf_of@.len());
    let own = leaf_objects(leaf_of@, leaf, leaf_of@.len() as int);
    let i = own[k];
    let te = entry(target@, i, F::zero_spec());
    let we = entry(weight@, i, F::one_spec());
    let t = val(te);
    let scale = if distance(t) > 1 as real { distance(t) } else { 1 as real };
    assert(val(te.negated_spec()) == -t);
    let m = magnitude_or_one(te);
    assert(val(m) == scale);
    assert(r.0@[leaf as int]@.len() == own.len());
    assert(r.1@[leaf as int]@.len() == own.len());
    if mape {
        assert(r.1@[leaf as int]@[k] == we.over_spec(m));
        lemma_ratio(val(we), scale);
    }
}

/// The running sums of a filled pairwise histogram start from its first bin and add its cells
/// bin by bin, channel by channel.
pub proof fn law_scanned_histogram<F: Channel>(
    pair_i: &[u32],
    pair_j: &[u32],
    pair_weight: &[F],
    cindex: &[u32],
    n_objects: usize,
    n_bins: usize,
    n_features: usize,
    bits: u32,
    one_hot: bool,
    filled: Vec<F>,
    scanned: Vec<F>,
    f: int,
    b: int,
    ch: int,
)
    requires
        call_ensures(
            launch_pairwise_hist::<F>,
            (pair_i, pair_j, pair_weight, cindex, n_objects, n_bins, n_features, bits, one_hot),
            Ok(filled),
        ),
        call_ensures(
            launch_scan_update_pairwise::<F>,
            (pair_i, pair_j, pair_weight, cindex, n_objects, n_bins, n_features, bits, one_hot),
            Ok(scanned),
        ),
        pair_i@.len() > 0,
        0 <= f < n_features,
        0 <= b < n_bins,
        0 <= ch < 4,
    ensures
        scanned@.len() == filled@.len(),
        ({
            let at = |b: int| f * (n_bins * 4) + (b * 4 + ch);
            scanned@[at(b)] == if b == 0 { filled@[at(0)] } else { scanned@[at(b - 1)].plus_spec(filled@[at(b)]) }
        }),
{
    assert(n_features * n_bins * 4 == n_features * (n_bins * 4)) by (nonlinear_arith);
    lemma_row(f, n_features as int, n_bins * 4, b * 4 + ch);
    lemma_line_cell(f, n_bins * 4, b * 4 + ch);
    lemma_forward(f, n_bins * 4);
    let hist = Seq::new(
        binsums_len(n_bins as int, n_features as int) as nat,
        |c: int|
            pair_hist_fold(
                F::zero_spec(),
                pair_i@,
                pair_j@,
                pair_weight@,
                cindex@,
                n_objects as int,
                n_bins as int,
                u32::MAX,
                one_hot,
                c,
                pair_weight@.len(),
            ),
    );
    assert(filled@ =~= hist);
}

/// The border scores of a feature are solved from the weighted pairs as they come, the
/// feature's bins of the objects, all in one leaf, and the feature's own derivative sums.
pub proof fn law_score_input<F: Real>(
    der_sums: &[F],
    pair_i: &[u32],
    pair_j: &[u32],
    pair_weight: &[F],
    cindex: &[u32],
    n: usize,
    n_bins: usize,
    feature: usize,
    r: PairwiseScoreInput<F>,
    p: int,
    obj: int,
    b: int,
)
    requires
        call_ensures(pairwise_score_input::<F>, (der_sums, pair_i, pair_j, pair_weight, cindex, n, n_bins, feature), r),
        pair_j@.len() == pair_i@.len(),
        pair_weight@.len() == pair_i@.len(),
        feature * n + n <= cindex@.len(),
        feature * n_bins + n_bins <= der_sums@.len(),
        0 <= p < pair_i@.len(),
        0 <= obj < n,
        0 <= b < n_bins,
    ensures
        r.pairs@.len() == pair_i@.len(),
        r.pairs@[p].0 == pair_i@[p] && r.pairs@[p].1 == pair_j@[p] && r.pairs@[p].2 == pair_weight@[p],
        r.bucket_of@.len() == n && r.bucket_of@[obj] == cindex@[feature * n + obj],
        r.leaf_of@.len() == n && r.leaf_of@[obj] == 0 && r.leaf_count == 1,
        r.der_sums@.len() == 1 && r.der_sums@[0]@.len() == n_bins && r.der_sums@[0]@[b] == der_sums@[feature * n_bins + b],
        r.bucket_count == n_bins,
{
}

/// An exact leaf takes the order statistic of its group, and a leaf without objects is zero.
pub proof fn law_exact_leaf_values<F: Real>(residuals: &[Vec<F>], deltas: &[F], r: Vec<F>, leaf: int)
    requires
        call_ensures(compute_exact_leaf_values::<F>, (residuals, deltas), r),
        0 <= leaf < residuals@.len(),
        leaf < deltas@.len(),
    ensures
        r@.len() == residuals@.len(),
        residuals@[leaf]@.len() > 0 ==> r@[leaf] == deltas@[leaf],
        residuals@[leaf]@.len() == 0 ==> r@[leaf] == F::zero_spec(),
{
}

} // verus!
