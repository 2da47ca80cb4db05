//! What an ordered tree gives an object: the average of the leaf over the objects up to it.

use vstd::prelude::*;
use crate::cell_laws::run_total;
use crate::channel::Real;
use crate::config::Backend;
use crate::ordered::{
    OrderedTree, accumulate_ordered_trajectory, delta_after, der_column, law_trajectory_persists, lemma_delta_kept,
    lemma_delta_len, lemma_delta_same, ordered_approx_delta, permutation_fault, prefix_sum, visit_end,
    weight_column_of,
};

verus! {

/// The objects of a leaf among the first `upto` positions, in learning order.
pub open spec fn members(permutation: Seq<i32>, leaf_of: Seq<u32>, leaf: u32, upto: int) -> Seq<i32> {
    permutation.take(upto).filter(|doc: i32| leaf_of[doc as int] == leaf)
}

/// A leaf sum is the total over the members of the leaf.
proof fn lemma_members_total<F: Real>(
    permutation: Seq<i32>,
    leaf_of: Seq<u32>,
    value: spec_fn(int) -> F,
    of: spec_fn(i32) -> F,
    leaf: u32,
    upto: nat,
)
    requires
        upto <= permutation.len(),
        forall|q: int| 0 <= q < upto ==> of(#[trigger] permutation[q]) == value(permutation[q] as int),
    ensures
        prefix_sum(permutation, leaf_of, value, leaf as int, upto) == run_total(
            members(permutation, leaf_of, leaf, upto as int).map_values(of),
        ),
    decreases upto,
{
    let keep = |doc: i32| leaf_of[doc as int] == leaf;
    reveal(Seq::filter);
    if upto == 0 {
        assert(permutation.take(0) =~= Seq::<i32>::empty());
        assert(members(permutation, leaf_of, leaf, 0).map_values(of) =~= Seq::<F>::empty());
    } else {
        let prev = (upto - 1) as nat;
        lemma_members_total(permutation, leaf_of, value, of, leaf, prev);
        let head = permutation.take(upto as int);
        let doc = permutation[prev as int];
        assert(head.drop_last() =~= permutation.take(prev as int));
        assert(head.last() == doc);
        let before = members(permutation, leaf_of, leaf, prev as int);
        let after = members(permutation, leaf_of, leaf, upto as int);
        assert(of(doc) == value(doc as int));
        if keep(doc) {
            assert(after =~= before.push(doc));
            assert(after.map_values(of) =~= before.map_values(of).push(of(doc)));
            assert(after.map_values(of).drop_last() =~= before.map_values(of));
        } else {
            assert(after =~= before);
        }
    }
}

/// A tree without a fault names objects only.
proof fn lemma_named<F>(tree: OrderedTree<F>, p: int)
    requires
        0 <= p,
        permutation_fault(tree, p) is None,
    ensures
        forall|q: int|
            p <= q < tree.permutation@.len() ==> 0 <= #[trigger] tree.permutation@[q] < tree.leaf_of@.len() && tree.permutation@[q]
                < tree.der@.len(),
    decreases tree.permutation@.len() - p,
{
    if p < tree.permutation@.len() {
        lemma_named(tree, p + 1);
    }
}

/// A tail object gets the average of its leaf over the members up to and with itself: the
/// total of their derivatives over the total of their own weights and the regularisation.
/// A member that the weights do not reach weighs one.
pub proof fn law_tail_object_gets_its_leaf_average<'a, F: Real>(tree: &OrderedTree<'a, F>, delta: Vec<F>, p: int)
    requires
        call_ensures(ordered_approx_delta::<F>, (tree,), Ok(delta)),
        tree.body_finish <= p < tree.tail_finish,
        p < tree.permutation@.len(),
        0 <= tree.permutation@[p] < tree.permutation@.len(),
        forall|q: int| p < q < tree.permutation@.len() ==> #[trigger] tree.permutation@[q] != tree.permutation@[p],
        tree.leaf_of@[tree.permutation@[p] as int] < tree.n_leaves,
    ensures
        ({
            let doc = tree.permutation@[p] as int;
            let up_to_it = members(tree.permutation@, tree.leaf_of@, tree.leaf_of@[doc], p + 1);
            let sum = run_total(up_to_it.map_values(|d: i32| tree.der@[d as int]));
            let weight = run_total(
                up_to_it.map_values(
                    |d: i32| if 0 <= d < tree.weights@.len() { tree.weights@[d as int] } else { F::one_spec() },
                ),
            );
            delta@[doc] == if weight.above_spec(F::zero_spec()) {
                sum.over_spec(weight.plus_spec(tree.scaled_l2))
            } else {
                F::zero_spec()
            }
        }),
{
    let doc = tree.permutation@[p] as int;
    let leaf = tree.leaf_of@[doc];
    let upto = (p + 1) as nat;
    let end = visit_end(*tree) as nat;
    lemma_named(*tree, 0);
    lemma_delta_len(*tree, p as nat);
    lemma_delta_kept(*tree, doc, upto, end);
    let ders = |d: i32| tree.der@[d as int];
    let weights = |d: i32| if 0 <= d < tree.weights@.len() { tree.weights@[d as int] } else { F::one_spec() };
    lemma_members_total(tree.permutation@, tree.leaf_of@, der_column(*tree), ders, leaf, upto);
    lemma_members_total(tree.permutation@, tree.leaf_of@, weight_column_of(*tree), weights, leaf, upto);
}

/// The first object of the learning order, where it is in the tail, is averaged over itself
/// alone: its derivative over its own weight and the regularisation.
pub proof fn law_first_object_stands_alone<'a, F: Real>(tree: &OrderedTree<'a, F>, delta: Vec<F>)
    requires
        call_ensures(ordered_approx_delta::<F>, (tree,), Ok(delta)),
        tree.body_finish == 0,
        0 < tree.tail_finish,
        0 < tree.permutation@.len(),
        0 <= tree.permutation@[0] < tree.permutation@.len(),
        forall|q: int| 0 < q < tree.permutation@.len() ==> #[trigger] tree.permutation@[q] != tree.permutation@[0],
        tree.leaf_of@[tree.permutation@[0] as int] < tree.n_leaves,
    ensures
        ({
            let doc = tree.permutation@[0] as int;
            let zero = F::zero_spec();
            let sum = zero.plus_spec(tree.der@[doc]);
            let weight = zero.plus_spec(if doc < tree.weights@.len() { tree.weights@[doc] } else { F::one_spec() });
            delta@[doc] == if weight.above_spec(zero) { sum.over_spec(weight.plus_spec(tree.scaled_l2)) } else { zero }
        }),
{
    let doc = tree.permutation@[0];
    let keep = |d: i32| tree.leaf_of@[d as int] == tree.leaf_of@[doc as int];
    law_tail_object_gets_its_leaf_average(tree, delta, 0);
    let up_to_it = members(tree.permutation@, tree.leaf_of@, tree.leaf_of@[doc as int], 1);
    reveal(Seq::filter);
    assert(tree.permutation@.take(1) =~= seq![doc]);
    assert(seq![doc].drop_last() =~= Seq::<i32>::empty());
    assert(up_to_it =~= seq![doc]);
    let ders = |d: i32| tree.der@[d as int];
    let weights = |d: i32| if 0 <= d < tree.weights@.len() { tree.weights@[d as int] } else { F::one_spec() };
    assert(seq![doc].map_values(ders) =~= seq![ders(doc)]);
    assert(seq![doc].map_values(weights) =~= seq![weights(doc)]);
    lemma_single_total(ders(doc));
    lemma_single_total(weights(doc));
}

proof fn lemma_single_total<F: Real>(v: F)
    ensures
        run_total(seq![v]) == F::zero_spec().plus_spec(v),
{
    assert(seq![v].drop_last() =~= Seq::<F>::empty());
    assert(run_total(seq![v].drop_last()) == F::zero_spec());
}

/// An object that no tail position names keeps a zero delta, and so does one whose leaf is
/// out of range.
pub proof fn law_other_objects_get_nothing<'a, F: Real>(tree: &OrderedTree<'a, F>, delta: Vec<F>, doc: int)
    requires
        call_ensures(ordered_approx_delta::<F>, (tree,), Ok(delta)),
        0 <= doc < tree.permutation@.len(),
        tree.leaf_of@[doc] >= tree.n_leaves || forall|p: int|
            tree.body_finish <= p < tree.tail_finish && p < tree.permutation@.len() ==> #[trigger] tree.permutation@[p] != doc,
    ensures
        delta@.len() == tree.permutation@.len(),
        delta@[doc] == F::zero_spec(),
{
    lemma_delta_len(*tree, visit_end(*tree) as nat);
    lemma_untouched(*tree, doc, visit_end(*tree) as nat);
}

proof fn lemma_untouched<F: Real>(tree: OrderedTree<F>, doc: int, upto: nat)
    requires
        0 <= doc < tree.permutation@.len(),
        upto <= visit_end(tree),
        tree.leaf_of@[doc] >= tree.n_leaves || forall|p: int|
            tree.body_finish <= p < tree.tail_finish && p < tree.permutation@.len() ==> #[trigger] tree.permutation@[p] != doc,
    ensures
        delta_after(tree, upto)[doc] == F::zero_spec(),
    decreases upto,
{
    if upto > 0 {
        lemma_untouched(tree, doc, (upto - 1) as nat);
        lemma_delta_len(tree, (upto - 1) as nat);
        let p = upto - 1;
        F::order_laws(F::zero_spec(), F::zero_spec(), F::zero_spec());
        if p >= tree.body_finish && tree.leaf_of@[doc] < tree.n_leaves {
            assert(p < tree.tail_finish && p < tree.permutation@.len());
            assert(tree.permutation@[p] != doc);
        }
    }
}

/// A run without weights is a run whose objects all weigh one.
pub proof fn law_no_weights_are_unit_weights<'a, F: Real>(
    bare: &OrderedTree<'a, F>,
    tree: &OrderedTree<'a, F>,
    delta: Vec<F>,
    other: Vec<F>,
)
    requires
        call_ensures(ordered_approx_delta::<F>, (bare,), Ok(delta)),
        call_ensures(ordered_approx_delta::<F>, (tree,), Ok(other)),
        bare.weights@.len() == 0,
        forall|d: int| 0 <= d < tree.weights@.len() ==> #[trigger] tree.weights@[d] == F::one_spec(),
        bare.leaf_of@ == tree.leaf_of@,
        bare.der@ == tree.der@,
        bare.permutation@ == tree.permutation@,
        bare.body_finish == tree.body_finish,
        bare.tail_finish == tree.tail_finish,
        bare.n_leaves == tree.n_leaves,
        bare.scaled_l2 == tree.scaled_l2,
    ensures
        delta@ == other@,
{
    lemma_named(*bare, 0);
    lemma_delta_same(*bare, *tree, visit_end(*bare) as nat);
}

/// One more tree adds its deltas to the trajectory of the trees before it, and no trees leave
/// it at zero.
pub proof fn law_tree_adds_its_deltas<'a, F: Real>(
    backend: Backend,
    trees: &[OrderedTree<'a, F>],
    earlier: &[OrderedTree<'a, F>],
    n: usize,
    sums: Vec<F>,
    before: Vec<F>,
    last: &OrderedTree<'a, F>,
    delta: Vec<F>,
    i: int,
)
    requires
        call_ensures(accumulate_ordered_trajectory::<F>, (backend, trees, n), Ok(sums)),
        call_ensures(accumulate_ordered_trajectory::<F>, (backend, earlier, n), Ok(before)),
        call_ensures(ordered_approx_delta::<F>, (last,), Ok(delta)),
        trees@.len() > 0,
        earlier@ == trees@.drop_last(),
        *last == trees@.last(),
        0 <= i < n,
    ensures
        sums@.len() == n,
        sums@[i] == before@[i].plus_spec(delta@[i]),
        earlier@.len() == 0 ==> before@[i] == F::zero_spec(),
{
    law_trajectory_persists(trees@, i);
}

} // verus!
