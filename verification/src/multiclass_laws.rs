//! What the multi-output blocks hold, object by object and leaf by leaf.

use vstd::prelude::*;
use crate::cell_laws::run_total;
use crate::channel::Real;
use crate::config::Backend;
use crate::coverage::MulticlassObjective;
use crate::exact::exact;
use crate::histogram::{lemma_line_cell, lemma_row};
use crate::multiclass::{
    LeafBlocks, LossInput, ObjectDers, accumulate_leaf_blocks, assemble_multiclass_ders, block_der1, diag_output,
    diag_pos, grow_multiclass_block, law_diagonal_place, law_diagonals_ascend, leaf_sum, lemma_diag_bound, loss_input,
    packed_count, place,
};
use crate::session::entry_or;
use crate::smooth::Smooth;

verus! {

/// What an object of a weighted column weighs: its entry, or one where it has none.
pub open spec fn object_weight<F: Real>(weight: Seq<F>, i: int) -> F {
    if i < weight.len() {
        weight[i]
    } else {
        F::one_spec()
    }
}

proof fn lemma_der1_place(n: int, k: int, d: int, i: int)
    requires
        0 <= i < n,
        0 <= d < k,
    ensures
        0 <= d * n + i < k * n,
        (d * n + i) / n == d,
        (d * n + i) % n == i,
{
    lemma_row(d, k, n, i);
    lemma_line_cell(d, n, i);
}

/// A classification objective weighs the first derivatives that its loss gives, whichever
/// of the three it is: the entry of output `d` and object `i` is the loss's derivative of
/// that output at that object times the object's weight.
pub proof fn law_first_derivatives_are_weighted<F: Real>(
    objective: MulticlassObjective,
    approx: &[F],
    target: &[F],
    weight: &[F],
    ders: &[ObjectDers<F>],
    n: usize,
    k: usize,
    der1: Vec<F>,
    der2: Vec<F>,
    d: int,
    i: int,
)
    requires
        call_ensures(assemble_multiclass_ders::<F>, (objective, approx, target, weight, ders, n, k), Ok((der1, der2))),
        objective == MulticlassObjective::Softmax || objective == MulticlassObjective::OneVsAll || objective
            == MulticlassObjective::MultiCrossEntropy,
        0 <= i < n,
        0 <= d < k,
        i < ders@.len(),
        d < ders@[i].d1@.len(),
    ensures
        der1@.len() == k * n,
        der1@[d * n + i] == ders@[i].d1@[d].times_spec(object_weight(weight@, i)),
{
    lemma_der1_place(n as int, k as int, d, i);
}

/// A squared-error objective takes the first derivative of every output from the columns:
/// the distance from the approximation to the object's one target, weighted. The second
/// derivative of every output is the negated weight, and nothing couples two outputs.
pub proof fn law_squared_error_derivatives<F: Real>(
    approx: &[F],
    target: &[F],
    weight: &[F],
    ders: &[ObjectDers<F>],
    n: usize,
    k: usize,
    der1: Vec<F>,
    der2: Vec<F>,
    d: int,
    i: int,
)
    requires
        call_ensures(
            assemble_multiclass_ders::<F>,
            (MulticlassObjective::MultiRmse, approx, target, weight, ders, n, k),
            Ok((der1, der2)),
        ),
        0 <= i < n,
        0 <= d < k,
        i < target@.len(),
    ensures
        der1@[d * n + i] == object_weight(weight@, i).times_spec(target@[i].minus_spec(approx@[d * n + i])),
        der2@[i * (k * (k + 1) / 2) + (d * k - d * (d - 1) / 2)] == object_weight(weight@, i).negated_spec(),
{
    lemma_der1_place(n as int, k as int, d, i);
    lemma_diag_place(n as int, k as int, d, i);
}

/// The place of a diagonal entry of an object, and the output that lies there.
proof fn lemma_diag_place(n: int, k: int, d: int, i: int)
    requires
        0 <= i < n,
        0 <= d < k,
    ensures
        ({
            let pk = packed_count(k);
            let j = d * k - d * (d - 1) / 2;
            &&& pk > 0
            &&& 0 <= j < pk
            &&& j == diag_pos(d, k)
            &&& 0 <= i * pk + j < n * pk
            &&& (i * pk + j) / pk == i
            &&& (i * pk + j) % pk == j
            &&& diag_output(k, j) == Some(d)
        }),
{
    let pk = packed_count(k);
    law_diagonal_place(d, k);
    lemma_diag_bound(d, k);
    let j = diag_pos(d, k);
    lemma_row(i, n, pk, j);
    lemma_line_cell(i, pk, j);
    let e = diag_output(k, j)->0;
    assert(0 <= e < k && diag_pos(e, k) == j);
    if e < d {
        law_diagonals_ascend(e, d, k);
    } else if d < e {
        law_diagonals_ascend(d, e, k);
    }
}

/// Under a squared error the first derivative is the negated second one times the distance
/// to the target, as a number: the curvature of a parabola.
pub proof fn law_squared_error_is_a_parabola<F: Real>(
    val: spec_fn(F) -> real,
    room: spec_fn(real) -> bool,
    approx: &[F],
    target: &[F],
    weight: &[F],
    ders: &[ObjectDers<F>],
    n: usize,
    k: usize,
    der1: Vec<F>,
    der2: Vec<F>,
    d: int,
    i: int,
)
    requires
        exact(val, room),
        call_ensures(
            assemble_multiclass_ders::<F>,
            (MulticlassObjective::MultiRmse, approx, target, weight, ders, n, k),
            Ok((der1, der2)),
        ),
        0 <= i < n,
        0 <= d < k,
        i < target@.len(),
        ({
            let w = val(object_weight(weight@, i));
            let v = val(target@[i]) - val(approx@[d * n + i]);
            room(v) && room(w * v) && room(-w)
        }),
    ensures
        val(der1@[d * n + i]) == -val(der2@[i * (k * (k + 1) / 2) + (d * k - d * (d - 1) / 2)]) * (val(target@[i]) - val(
            approx@[d * n + i],
        )),
        val(target@[i]) == val(approx@[d * n + i]) ==> val(der1@[d * n + i]) == 0 as real,
        val(target@[i]) > val(approx@[d * n + i]) && val(object_weight(weight@, i)) > 0 as real ==> val(der1@[d * n + i]) > 0 as real,
{
    law_squared_error_derivatives(approx, target, weight, ders, n, k, der1, der2, d, i);
    let w = val(object_weight(weight@, i));
    let gap = target@[i].minus_spec(approx@[d * n + i]);
    let v = val(target@[i]) - val(approx@[d * n + i]);
    assert(val(gap) == v);
    let x = val(der1@[d * n + i]);
    assert(x == w * v);
    assert(v == 0 as real ==> x == 0 as real) by (nonlinear_arith)
        requires
            x == w * v,
    ;
    assert(v > 0 as real && w > 0 as real ==> x > 0 as real) by (nonlinear_arith)
        requires
            x == w * v,
    ;
}

/// The uncertain squared error hands the derivatives of its two outputs through, since its
/// loss has weighed them already, and leaves further outputs at zero.
pub proof fn law_uncertain_derivatives<F: Real>(
    approx: &[F],
    target: &[F],
    weight: &[F],
    ders: &[ObjectDers<F>],
    n: usize,
    k: usize,
    der1: Vec<F>,
    der2: Vec<F>,
    d: int,
    i: int,
)
    requires
        call_ensures(
            assemble_multiclass_ders::<F>,
            (MulticlassObjective::RmseWithUncertainty, approx, target, weight, ders, n, k),
            Ok((der1, der2)),
        ),
        0 <= i < n,
        0 <= d < k,
        i < ders@.len(),
        d < ders@[i].d1@.len(),
        d < ders@[i].d2@.len(),
    ensures
        d < 2 ==> der1@[d * n + i] == ders@[i].d1@[d],
        d >= 2 ==> der1@[d * n + i] == F::zero_spec(),
        d < 2 ==> der2@[i * (k * (k + 1) / 2) + (d * k - d * (d - 1) / 2)] == ders@[i].d2@[d],
        d >= 2 ==> der2@[i * (k * (k + 1) / 2) + (d * k - d * (d - 1) / 2)] == F::zero_spec(),
{
    lemma_der1_place(n as int, k as int, d, i);
    lemma_diag_place(n as int, k as int, d, i);
}

/// A coupled objective weighs the packed second derivatives entry by entry.
pub proof fn law_coupled_second_derivatives<F: Real>(
    approx: &[F],
    target: &[F],
    weight: &[F],
    ders: &[ObjectDers<F>],
    n: usize,
    k: usize,
    der1: Vec<F>,
    der2: Vec<F>,
    j: int,
    i: int,
)
    requires
        call_ensures(
            assemble_multiclass_ders::<F>,
            (MulticlassObjective::Softmax, approx, target, weight, ders, n, k),
            Ok((der1, der2)),
        ),
        0 <= i < n,
        0 <= j < (k * (k + 1)) / 2,
        i < ders@.len(),
        j < ders@[i].d2@.len(),
    ensures
        der2@.len() == n * (k * (k + 1) / 2),
        der2@[i * (k * (k + 1) / 2) + j] == ders@[i].d2@[j].times_spec(object_weight(weight@, i)),
{
    let pk = packed_count(k as int);
    lemma_row(i, n as int, pk, j);
    lemma_line_cell(i, pk, j);
}

/// A separable objective weighs one second derivative per output, at the place of that
/// output on the diagonal.
pub proof fn law_separable_second_derivatives<F: Real>(
    objective: MulticlassObjective,
    approx: &[F],
    target: &[F],
    weight: &[F],
    ders: &[ObjectDers<F>],
    n: usize,
    k: usize,
    der1: Vec<F>,
    der2: Vec<F>,
    d: int,
    i: int,
)
    requires
        call_ensures(assemble_multiclass_ders::<F>, (objective, approx, target, weight, ders, n, k), Ok((der1, der2))),
        objective == MulticlassObjective::OneVsAll || objective == MulticlassObjective::MultiCrossEntropy,
        0 <= i < n,
        0 <= d < k,
        i < ders@.len(),
        d < ders@[i].d2@.len(),
    ensures
        der2@[i * (k * (k + 1) / 2) + (d * k - d * (d - 1) / 2)] == ders@[i].d2@[d].times_spec(object_weight(weight@, i)),
{
    lemma_diag_place(n as int, k as int, d, i);
}

/// Nothing but a coupled objective has second derivatives off the diagonal.
pub proof fn law_separable_outputs_do_not_couple<F: Real>(
    objective: MulticlassObjective,
    approx: &[F],
    target: &[F],
    weight: &[F],
    ders: &[ObjectDers<F>],
    n: usize,
    k: usize,
    der1: Vec<F>,
    der2: Vec<F>,
    j: int,
    i: int,
)
    requires
        call_ensures(assemble_multiclass_ders::<F>, (objective, approx, target, weight, ders, n, k), Ok((der1, der2))),
        objective != MulticlassObjective::Softmax,
        0 <= i < n,
        0 <= j < (k * (k + 1)) / 2,
        forall|d: int| #![trigger diag_pos(d, k as int)] 0 <= d < k ==> j != d * k - d * (d - 1) / 2,
    ensures
        der2@[i * (k * (k + 1) / 2) + j] == F::zero_spec(),
{
    let pk = packed_count(k as int);
    lemma_row(i, n as int, pk, j);
    lemma_line_cell(i, pk, j);
    if diag_output(k as int, j) is Some {
        let d = diag_output(k as int, j)->0;
        assert(0 <= d < k && diag_pos(d, k as int) == j);
        law_diagonal_place(d, k as int);
    }
}

/// The objects of a leaf among the first `upto`, in ascending order.
pub open spec fn leaf_objects(leaf_of: Seq<u32>, leaf: u32, upto: int) -> Seq<int> {
    Seq::new(upto as nat, |i: int| i).filter(|i: int| leaf_of[i] == leaf)
}

proof fn lemma_leaf_total<F: Real>(
    leaf_of: Seq<u32>,
    column: Seq<F>,
    step_j: int,
    step_i: int,
    leaf: u32,
    j: int,
    of: spec_fn(int) -> F,
    upto: nat,
)
    requires
        upto <= leaf_of.len(),
        forall|i: int| 0 <= i < upto ==> #[trigger] of(i) == entry_or(column, place(j, step_j, i, step_i), F::zero_spec()),
    ensures
        leaf_sum(leaf_of, column, step_j, step_i, leaf as int, j, upto) == run_total(
            leaf_objects(leaf_of, leaf, upto as int).map_values(of),
        ),
    decreases upto,
{
    let keep = |i: int| leaf_of[i] == leaf;
    reveal(Seq::filter);
    let all = Seq::new(upto, |i: int| i);
    if upto == 0 {
        assert(all =~= Seq::<int>::empty());
        assert(leaf_objects(leaf_of, leaf, 0).map_values(of) =~= Seq::<F>::empty());
    } else {
        let prev = (upto - 1) as nat;
        lemma_leaf_total(leaf_of, column, step_j, step_i, leaf, j, of, prev);
        assert(all.drop_last() =~= Seq::new(prev, |i: int| i));
        assert(all.last() == prev);
        let before = leaf_objects(leaf_of, leaf, prev as int);
        let after = leaf_objects(leaf_of, leaf, upto as int);
        assert(of(prev as int) == entry_or(column, place(j, step_j, prev as int, step_i), F::zero_spec()));
        if keep(prev as int) {
            assert(after =~= before.push(prev as int));
            assert(after.map_values(of) =~= before.map_values(of).push(of(prev as int)));
            assert(after.map_values(of).drop_last() =~= before.map_values(of));
        } else {
            assert(after =~= before);
        }
    }
}

/// A leaf block adds up the derivatives of the leaf's own objects and of no others: the
/// first derivatives of each output, and each packed second derivative.
pub proof fn law_leaf_blocks_sum_their_objects<F: Real>(
    leaf_of: &[u32],
    der1: &[F],
    der2_packed: &[F],
    k: usize,
    pk: usize,
    n_leaves: usize,
    r: (Vec<F>, Vec<F>),
    leaf: u32,
    d: int,
    j: int,
)
    requires
        call_ensures(accumulate_leaf_blocks::<F>, (leaf_of, der1, der2_packed, k, pk, n_leaves), r),
        der1@.len() == k * leaf_of@.len(),
        der2_packed@.len() == leaf_of@.len() * pk,
        leaf < n_leaves,
        0 <= d < k,
        0 <= j < pk,
    ensures
        ({
            let n = leaf_of@.len();
            let own = leaf_objects(leaf_of@, leaf, n as int);
            &&& r.0@[leaf * k + d] == run_total(own.map_values(|i: int| der1@[d * n + i]))
            &&& r.1@[leaf * pk + j] == run_total(own.map_values(|i: int| der2_packed@[i * pk + j]))
        }),
{
    let n = leaf_of@.len() as int;
    lemma_row(leaf as int, n_leaves as int, k as int, d);
    lemma_line_cell(leaf as int, k as int, d);
    lemma_row(leaf as int, n_leaves as int, pk as int, j);
    lemma_line_cell(leaf as int, pk as int, j);
    let first = |i: int| der1@[d * n + i];
    let second = |i: int| der2_packed@[i * pk + j];
    assert forall|i: int| 0 <= i < n implies #[trigger] first(i) == entry_or(der1@, place(d, n, i, 1), F::zero_spec()) by {
        lemma_row(d, k as int, n, i);
    }
    assert forall|i: int| 0 <= i < n implies #[trigger] second(i) == entry_or(der2_packed@, place(j, 1, i, pk as int), F::zero_spec()) by {
        lemma_row(i, n, pk as int, j);
    }
    lemma_leaf_total(leaf_of@, der1@, n, 1, leaf, d, first, leaf_of@.len());
    lemma_leaf_total(leaf_of@, der2_packed@, 1, pk as int, leaf, j, second, leaf_of@.len());
}

/// A loss is asked about one object: its approximation of every output, found output by
/// output in the column, and its class, or its target of every output. The uncertain squared
/// error reads the mean from the first output and the log-scale from the second.
pub proof fn law_loss_input<F: Smooth>(
    objective: MulticlassObjective,
    approx: &[F],
    target: &[F],
    weight: &[F],
    n: usize,
    k: usize,
    i: usize,
    r: LossInput<F>,
    d: int,
)
    requires
        call_ensures(loss_input::<F>, (objective, approx, target, weight, n, k, i), r),
        i < n,
        0 <= d < k,
        approx@.len() == k * n,
        i < target@.len(),
    ensures
        objective == MulticlassObjective::Softmax ==> r is Softmax && r->Softmax_approx@.len() == k && r->Softmax_approx@[d] == approx@[d * n + i]
            && r->Softmax_class == target@[i as int].class_spec(),
        objective == MulticlassObjective::OneVsAll ==> r is OneVsAll && r->OneVsAll_approx@.len() == k && r->OneVsAll_approx@[d] == approx@[d * n
            + i] && r->OneVsAll_class == target@[i as int].class_spec(),
        objective == MulticlassObjective::MultiCrossEntropy ==> r is CrossEntropy && r->CrossEntropy_approx@.len() == k
            && r->CrossEntropy_approx@[d] == approx@[d * n + i] && r->targets@.len() == k && (d * n + i < target@.len() ==> r->targets@[d]
            == target@[d * n + i]),
        objective == MulticlassObjective::MultiRmse ==> r is FromColumns,
        objective == MulticlassObjective::RmseWithUncertainty && k >= 2 ==> r is Uncertainty && r->mean == approx@[i as int] && r->log_scale
            == approx@[n + i] && r->target == target@[i as int] && r->weight == object_weight(weight@, i as int),
{
    lemma_row(d, k as int, n as int, i as int);
    if k >= 2 {
        lemma_row(0, k as int, n as int, i as int);
        lemma_row(1, k as int, n as int, i as int);
    }
}

/// A block that is handed to the solver holds, for each leaf and output of a classification
/// objective, the weighted derivatives of the leaf's own objects; it is coupled for the
/// softmax alone.
pub proof fn law_grown_blocks<F: Real>(
    backend: Backend,
    objective: MulticlassObjective,
    leaf_of: &[u32],
    approx: &[F],
    target: &[F],
    weight: &[F],
    ders: &[ObjectDers<F>],
    k: usize,
    n_leaves: usize,
    blocks: LeafBlocks<F>,
    leaf: u32,
    d: int,
)
    requires
        call_ensures(
            grow_multiclass_block::<F>,
            (backend, objective, leaf_of, approx, target, weight, ders, k, n_leaves),
            Ok(Some(blocks)),
        ),
        objective == MulticlassObjective::Softmax || objective == MulticlassObjective::OneVsAll || objective
            == MulticlassObjective::MultiCrossEntropy,
        leaf < n_leaves,
        0 <= d < k,
        ders@.len() == leaf_of@.len(),
        forall|i: int| 0 <= i < ders@.len() ==> d < (#[trigger] ders@[i]).d1@.len(),
    ensures
        backend != Backend::Wgpu,
        blocks.coupled == (objective == MulticlassObjective::Softmax),
        blocks.sum_der@.len() == n_leaves * k,
        blocks.sum_der@[leaf * k + d] == run_total(
            leaf_objects(leaf_of@, leaf, leaf_of@.len() as int).map_values(
                |i: int| ders@[i].d1@[d].times_spec(object_weight(weight@, i)),
            ),
        ),
{
    let n = leaf_of@.len() as int;
    lemma_row(leaf as int, n_leaves as int, k as int, d);
    lemma_line_cell(leaf as int, k as int, d);
    let der1 = block_der1(objective, approx@, target@, weight@, ders@, n, k as int);
    let of = |i: int| ders@[i].d1@[d].times_spec(object_weight(weight@, i));
    assert forall|i: int| 0 <= i < n implies #[trigger] of(i) == entry_or(der1, place(d, n, i, 1), F::zero_spec()) by {
        lemma_der1_place(n, k as int, d, i);
        assert(d < ders@[i].d1@.len());
    }
    lemma_leaf_total(leaf_of@, der1, n, 1, leaf, d, of, leaf_of@.len());
}

/// What a loss or a column does not give counts as zero: a derivative that the loss has none
/// of, and a target past the end of its column.
pub proof fn law_missing_entries_are_zero<F: Real>(
    objective: MulticlassObjective,
    approx: &[F],
    target: &[F],
    weight: &[F],
    ders: &[ObjectDers<F>],
    n: usize,
    k: usize,
    der1: Vec<F>,
    der2: Vec<F>,
    d: int,
    i: int,
)
    requires
        call_ensures(assemble_multiclass_ders::<F>, (objective, approx, target, weight, ders, n, k), Ok((der1, der2))),
        0 <= i < n,
        0 <= d < k,
    ensures
        ({
            let w = object_weight(weight@, i);
            let zero = F::zero_spec();
            let at = i * (k * (k + 1) / 2) + (d * k - d * (d - 1) / 2);
            let no_first = i >= ders@.len() || d >= ders@[i].d1@.len();
            let no_second = i >= ders@.len() || d >= ders@[i].d2@.len();
            let weighted = objective == MulticlassObjective::OneVsAll || objective == MulticlassObjective::MultiCrossEntropy;
            &&& no_first && (weighted || objective == MulticlassObjective::Softmax) ==> der1@[d * n + i] == zero.times_spec(w)
            &&& no_second && weighted ==> der2@[at] == zero.times_spec(w)
            &&& no_first && objective == MulticlassObjective::RmseWithUncertainty ==> der1@[d * n + i] == zero
            &&& no_second && objective == MulticlassObjective::RmseWithUncertainty ==> der2@[at] == zero
            &&& i >= target@.len() && objective == MulticlassObjective::MultiRmse ==> der1@[d * n + i] == w.times_spec(
                zero.minus_spec(approx@[d * n + i]),
            )
        }),
{
    lemma_der1_place(n as int, k as int, d, i);
    lemma_diag_place(n as int, k as int, d, i);
}

} // verus!
