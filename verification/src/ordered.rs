//! Ordered boosting: each object is approximated by the objects before it only.

use vstd::prelude::*;
use crate::channel::Real;
use crate::config::Backend;
use crate::error::{CbError, CbResult, Degeneracy, DoubleUse, OrderedPart, RangeFault};
use crate::histogram::add_where;
use crate::pairwise::zeros;
use crate::session::{entry_or, get_or};
use crate::split::{cb_leaf_avg, leaf_avg};

verus! {

/// One tree of an ordered fold: the objects in learning order, the estimation prefix (the
/// body), and the objects that are approximated after it (the tail).
pub struct OrderedTree<'a, F> {
    pub leaf_of: &'a [u32],
    pub der: &'a [F],
    pub weights: &'a [F],
    pub permutation: &'a [i32],
    pub body_finish: usize,
    pub tail_finish: usize,
    pub n_leaves: usize,
    pub scaled_l2: F,
}

/// The weight of an object; one where the run has no weights.
pub fn weight_of<F: Real>(weights: &[F], doc: usize) -> (r: F)
    ensures
        r == entry_or(weights@, doc as int, F::one_spec()),
{
    get_or(weights, doc, F::one())
}

/// The sum of a column over the objects of a leaf among the first `upto` positions.
pub open spec fn prefix_sum<F: Real>(
    permutation: Seq<i32>,
    leaf_of: Seq<u32>,
    value: spec_fn(int) -> F,
    leaf: int,
    upto: nat,
) -> F
    decreases upto,
{
    if upto == 0 {
        F::zero_spec()
    } else {
        let doc = permutation[upto - 1] as int;
        add_where(
            prefix_sum(permutation, leaf_of, value, leaf, (upto - 1) as nat),
            leaf_of[doc] == leaf,
            value(doc),
        )
    }
}

/// The derivative column.
pub open spec fn der_column<F: Real>(tree: OrderedTree<F>) -> spec_fn(int) -> F {
    |doc: int| tree.der@[doc]
}

/// The weight column.
pub open spec fn weight_column_of<F: Real>(tree: OrderedTree<F>) -> spec_fn(int) -> F {
    |doc: int| entry_or(tree.weights@, doc, F::one_spec())
}

/// The average of the object's leaf over the first `upto` positions; zero where the leaf
/// is out of range.
pub open spec fn running_average<F: Real>(tree: OrderedTree<F>, doc: int, upto: nat) -> F {
    let leaf = tree.leaf_of@[doc] as int;
    if leaf < tree.n_leaves {
        leaf_avg(
            prefix_sum(tree.permutation@, tree.leaf_of@, der_column(tree), leaf, upto),
            prefix_sum(tree.permutation@, tree.leaf_of@, weight_column_of(tree), leaf, upto),
            tree.scaled_l2,
        )
    } else {
        leaf_avg(F::zero_spec(), F::zero_spec(), tree.scaled_l2)
    }
}

/// The end of the positions that a tree visits.
pub open spec fn visit_end<F>(tree: OrderedTree<F>) -> int {
    let n = tree.permutation@.len() as int;
    let tail = if tree.tail_finish < n { tree.tail_finish as int } else { n };
    let body = if tree.body_finish < n { tree.body_finish as int } else { n };
    if tail > body {
        tail
    } else {
        body
    }
}

/// The stretch of the learning order that a position is in.
pub open spec fn part_of<F>(tree: OrderedTree<F>, p: int) -> OrderedPart {
    if p < tree.body_finish {
        OrderedPart::Body
    } else if p < tree.tail_finish {
        OrderedPart::Tail
    } else {
        OrderedPart::Rest
    }
}

fn part_at<'a, F>(tree: &OrderedTree<'a, F>, p: usize) -> (r: OrderedPart)
    ensures
        r == part_of(*tree, p as int),
{
    if p < tree.body_finish {
        OrderedPart::Body
    } else if p < tree.tail_finish {
        OrderedPart::Tail
    } else {
        OrderedPart::Rest
    }
}

/// The first position from `p` on whose entry names no object, and what is wrong with it.
pub open spec fn permutation_fault<F>(tree: OrderedTree<F>, p: int) -> Option<CbError>
    decreases tree.permutation@.len() - p,
{
    if p >= tree.permutation@.len() {
        None
    } else if tree.permutation@[p] < 0 {
        Some(CbError::Degenerate(Degeneracy::NegativeIndex { part: part_of(tree, p), position: p as usize }))
    } else if tree.permutation@[p] >= tree.leaf_of@.len() || tree.permutation@[p] >= tree.der@.len() {
        Some(CbError::Degenerate(Degeneracy::IndexRange { part: part_of(tree, p), position: p as usize }))
    } else {
        permutation_fault(tree, p + 1)
    }
}

/// What is wrong with a tree, if anything. Every entry of the permutation has to name an
/// object, also one that no delta is taken at.
pub open spec fn ordered_fault<F>(tree: OrderedTree<F>) -> Option<CbError> {
    if tree.leaf_of@.len() < tree.permutation@.len() || tree.der@.len() < tree.permutation@.len() {
        Some(CbError::Degenerate(Degeneracy::ShortColumn))
    } else {
        permutation_fault(tree, 0)
    }
}

/// Every position names an object that has a leaf and a derivative.
spec fn names_objects<F>(tree: OrderedTree<F>, upto: int) -> bool {
    forall|p: int|
        0 <= p < upto ==> 0 <= #[trigger] tree.permutation@[p] < tree.leaf_of@.len() && tree.permutation@[p] < tree.der@.len()
}

/// Whether every position names an object; the fault of the first that does not.
fn check_permutation<'a, F: Real>(tree: &OrderedTree<'a, F>) -> (r: CbResult<()>)
    ensures
        match permutation_fault(*tree, 0) {
            Some(e) => r == Err::<(), CbError>(e),
            None => r is Ok && names_objects(*tree, tree.permutation@.len() as int),
        },
{
    let n: usize = tree.permutation.len();
    let mut p: usize = 0;
    while p < n
        invariant
            p <= n,
            n == tree.permutation@.len(),
            permutation_fault(*tree, 0) == permutation_fault(*tree, p as int),
            names_objects(*tree, p as int),
        decreases n - p,
    {
        let doc_i: i32 = tree.permutation[p];
        if doc_i < 0 {
            return Err(CbError::Degenerate(Degeneracy::NegativeIndex { part: part_at(tree, p), position: p }));
        }
        let doc: usize = doc_i as usize;
        if doc >= tree.leaf_of.len() || doc >= tree.der.len() {
            return Err(CbError::Degenerate(Degeneracy::IndexRange { part: part_at(tree, p), position: p }));
        }
        p = p + 1;
    }
    Ok(())
}

/// The deltas after the first `upto` positions: a tail object gets the average of its leaf
/// over the positions up to and with its own.
pub open spec fn delta_after<F: Real>(tree: OrderedTree<F>, upto: nat) -> Seq<F>
    decreases upto,
{
    if upto == 0 {
        Seq::new(tree.permutation@.len(), |i: int| F::zero_spec())
    } else {
        let p = upto - 1;
        let rest = delta_after(tree, p as nat);
        let doc = tree.permutation@[p] as int;
        if p >= tree.body_finish && 0 <= doc < tree.permutation@.len() {
            rest.update(doc, running_average(tree, doc, upto))
        } else {
            rest
        }
    }
}

/// The length of the deltas does not change.
pub(crate) proof fn lemma_delta_len<F: Real>(tree: OrderedTree<F>, upto: nat)
    ensures
        delta_after(tree, upto).len() == tree.permutation@.len(),
    decreases upto,
{
    if upto > 0 {
        lemma_delta_len(tree, (upto - 1) as nat);
    }
}

/// What one tree adds to the approximation of each object.
pub fn ordered_approx_delta<'a, F: Real>(tree: &OrderedTree<'a, F>) -> (r: CbResult<Vec<F>>)
    ensures
        match ordered_fault(*tree) {
            Some(e) => r == Err::<Vec<F>, CbError>(e),
            None => r matches Ok(delta) && delta@ == delta_after(*tree, visit_end(*tree) as nat),
        },
{
    let n: usize = tree.permutation.len();
    if tree.leaf_of.len() < n || tree.der.len() < n {
        return Err(CbError::Degenerate(Degeneracy::ShortColumn));
    }
    match check_permutation(tree) {
        Ok(()) => {},
        Err(e) => {
            return Err(e);
        },
    }
    let tail: usize = if tree.tail_finish < n {
        tree.tail_finish
    } else {
        n
    };
    let body: usize = if tree.body_finish < n {
        tree.body_finish
    } else {
        n
    };
    let end: usize = if tail > body {
        tail
    } else {
        body
    };
    let mut delta: Vec<F> = zeros(n);
    let mut leaf_der: Vec<F> = zeros(tree.n_leaves);
    let mut leaf_weight: Vec<F> = zeros(tree.n_leaves);
    assert(delta@ =~= delta_after(*tree, 0));
    let mut p: usize = 0;
    while p < end
        invariant
            p <= end,
            end <= n,
            end == visit_end(*tree),
            n == tree.permutation@.len(),
            tree.leaf_of@.len() >= n,
            tree.der@.len() >= n,
            leaf_der@.len() == tree.n_leaves,
            leaf_weight@.len() == tree.n_leaves,
            delta@ == delta_after(*tree, p as nat),
            delta@.len() == n,
            names_objects(*tree, n as int),
            forall|l: int|
                0 <= l < tree.n_leaves ==> #[trigger] leaf_der@[l] == prefix_sum(tree.permutation@, tree.leaf_of@, der_column(*tree), l, p as nat),
            forall|l: int|
                0 <= l < tree.n_leaves ==> #[trigger] leaf_weight@[l] == prefix_sum(tree.permutation@, tree.leaf_of@, weight_column_of(*tree), l, p as nat),
        decreases end - p,
    {
        let doc: usize = tree.permutation[p] as usize;
        let leaf: usize = tree.leaf_of[doc] as usize;
        let d: F = tree.der[doc];
        let w: F = weight_of(tree.weights, doc);
        let ghost der_before = leaf_der@;
        let ghost weight_before = leaf_weight@;
        if leaf < tree.n_leaves {
            let sd: F = leaf_der[leaf].plus(d);
            leaf_der.set(leaf, sd);
            let sw: F = leaf_weight[leaf].plus(w);
            leaf_weight.set(leaf, sw);
        }
        proof {
            assert forall|l: int| 0 <= l < tree.n_leaves implies #[trigger] leaf_der@[l] == prefix_sum(tree.permutation@, tree.leaf_of@, der_column(*tree), l, (p + 1) as nat) by {
                assert(der_before[l] == prefix_sum(tree.permutation@, tree.leaf_of@, der_column(*tree), l, p as nat));
            }
            assert forall|l: int| 0 <= l < tree.n_leaves implies #[trigger] leaf_weight@[l] == prefix_sum(tree.permutation@, tree.leaf_of@, weight_column_of(*tree), l, (p + 1) as nat) by {
                assert(weight_before[l] == prefix_sum(tree.permutation@, tree.leaf_of@, weight_column_of(*tree), l, p as nat));
            }
        }
        if p >= tree.body_finish {
            let sum_der: F = if leaf < tree.n_leaves {
                leaf_der[leaf]
            } else {
                F::zero()
            };
            let sum_weight: F = if leaf < tree.n_leaves {
                leaf_weight[leaf]
            } else {
                F::zero()
            };
            let v: F = cb_leaf_avg(sum_der, sum_weight, tree.scaled_l2);
            assert(v == running_average(*tree, doc as int, (p + 1) as nat));
            if doc < n {
                delta.set(doc, v);
            }
        }
        p = p + 1;
    }
    Ok(delta)
}

/// An object that appears at no tail position keeps a zero delta. In particular the
/// objects of the body do, where the permutation names each object once.
pub proof fn law_body_rows_keep_zero<F: Real>(tree: OrderedTree<F>, doc: int, upto: nat)
    requires
        0 <= doc < tree.permutation@.len(),
        upto <= tree.permutation@.len(),
        forall|p: int| tree.body_finish <= p < upto ==> #[trigger] tree.permutation@[p] != doc,
    ensures
        delta_after(tree, upto)[doc] == F::zero_spec(),
    decreases upto,
{
    if upto > 0 {
        law_body_rows_keep_zero(tree, doc, (upto - 1) as nat);
        lemma_delta_len(tree, (upto - 1) as nat);
        if upto - 1 >= tree.body_finish {
            assert(tree.permutation@[upto - 1] != doc);
        }
    }
}

/// Two trees agree on the objects at the first `upto` positions: on which they are, on their
/// leaves, derivatives and weights. Beyond these positions and these objects they may differ.
pub open spec fn agree_until<F: Real>(a: OrderedTree<F>, b: OrderedTree<F>, upto: int) -> bool {
    &&& a.permutation@.len() == b.permutation@.len()
    &&& a.body_finish == b.body_finish
    &&& a.tail_finish == b.tail_finish
    &&& a.n_leaves == b.n_leaves
    &&& a.scaled_l2 == b.scaled_l2
    &&& forall|p: int|
        0 <= p < upto ==> {
            let doc = #[trigger] a.permutation@[p] as int;
            &&& b.permutation@[p] == doc
            &&& a.leaf_of@[doc] == b.leaf_of@[doc]
            &&& (der_column(a))(doc) == (der_column(b))(doc)
            &&& (weight_column_of(a))(doc) == (weight_column_of(b))(doc)
        }
}

/// What an object is approximated by does not depend on objects at later positions: two
/// trees that agree on the objects up to a position give the same delta to every object that
/// is at none of the later positions, whatever the later objects are.
pub proof fn law_later_objects_do_not_leak<F: Real>(a: OrderedTree<F>, b: OrderedTree<F>, doc: int, upto: nat)
    requires
        upto <= a.permutation@.len(),
        agree_until(a, b, upto as int),
        0 <= doc < a.permutation@.len(),
        forall|p: int| upto <= p < a.permutation@.len() ==> #[trigger] a.permutation@[p] != doc,
        forall|p: int| upto <= p < b.permutation@.len() ==> #[trigger] b.permutation@[p] != doc,
    ensures
        delta_after(a, visit_end(a) as nat)[doc] == delta_after(b, visit_end(b) as nat)[doc],
{
    let end = visit_end(a) as nat;
    if end <= upto {
        lemma_delta_same(a, b, end);
    } else {
        lemma_delta_same(a, b, upto);
        lemma_delta_kept(a, doc, upto, end);
        lemma_delta_kept(b, doc, upto, end);
    }
}

/// An object never depends on objects after it: in a permutation, which names each object
/// once, the objects up to a position alone decide the delta of each of them.
pub proof fn law_earlier_objects_decide<F: Real>(a: OrderedTree<F>, b: OrderedTree<F>, q: int, upto: nat)
    requires
        0 <= q < upto <= a.permutation@.len(),
        agree_until(a, b, upto as int),
        a.permutation@.no_duplicates(),
        b.permutation@.no_duplicates(),
        0 <= a.permutation@[q] < a.permutation@.len(),
    ensures
        delta_after(a, visit_end(a) as nat)[a.permutation@[q] as int] == delta_after(b, visit_end(b) as nat)[a.permutation@[q] as int],
{
    assert(b.permutation@[q] == a.permutation@[q]);
    law_later_objects_do_not_leak(a, b, a.permutation@[q] as int, upto);
}

/// Trees that agree so far have the same sums so far.
proof fn lemma_prefix_same<F: Real>(
    a: OrderedTree<F>,
    b: OrderedTree<F>,
    va: spec_fn(int) -> F,
    vb: spec_fn(int) -> F,
    leaf: int,
    upto: nat,
)
    requires
        agree_until(a, b, upto as int),
        forall|p: int| 0 <= p < upto ==> va(#[trigger] a.permutation@[p] as int) == vb(a.permutation@[p] as int),
    ensures
        prefix_sum(a.permutation@, a.leaf_of@, va, leaf, upto) == prefix_sum(b.permutation@, b.leaf_of@, vb, leaf, upto),
    decreases upto,
{
    if upto > 0 {
        lemma_prefix_same(a, b, va, vb, leaf, (upto - 1) as nat);
        let doc = a.permutation@[upto - 1] as int;
        assert(va(doc) == vb(doc));
        assert(b.permutation@[upto - 1] == doc);
    }
}

/// Trees that agree so far have the same deltas so far.
pub(crate) proof fn lemma_delta_same<F: Real>(a: OrderedTree<F>, b: OrderedTree<F>, upto: nat)
    requires
        agree_until(a, b, upto as int),
    ensures
        delta_after(a, upto) == delta_after(b, upto),
    decreases upto,
{
    if upto == 0 {
        assert(delta_after(a, 0) =~= delta_after(b, 0));
    } else {
        lemma_delta_same(a, b, (upto - 1) as nat);
        let doc = a.permutation@[upto - 1] as int;
        assert(b.permutation@[upto - 1] == doc);
        let leaf = a.leaf_of@[doc] as int;
        lemma_prefix_same(a, b, der_column(a), der_column(b), leaf, upto);
        lemma_prefix_same(a, b, weight_column_of(a), weight_column_of(b), leaf, upto);
        assert(running_average(a, doc, upto) == running_average(b, doc, upto));
    }
}

/// Positions that do not name an object leave its delta as it is.
pub(crate) proof fn lemma_delta_kept<F: Real>(tree: OrderedTree<F>, doc: int, from: nat, upto: nat)
    requires
        from <= upto <= tree.permutation@.len(),
        0 <= doc < tree.permutation@.len(),
        forall|p: int| from <= p < upto ==> #[trigger] tree.permutation@[p] != doc,
    ensures
        delta_after(tree, upto)[doc] == delta_after(tree, from)[doc],
    decreases upto,
{
    if from < upto {
        lemma_delta_kept(tree, doc, from, (upto - 1) as nat);
        lemma_delta_len(tree, (upto - 1) as nat);
        assert(tree.permutation@[upto - 1] != doc);
    }
}

/// The approximation of an object after the first `upto` trees.
pub open spec fn trajectory<F: Real>(trees: Seq<OrderedTree<F>>, i: int, upto: nat) -> F
    decreases upto,
{
    if upto == 0 {
        F::zero_spec()
    } else {
        let tree = trees[upto - 1];
        trajectory(trees, i, (upto - 1) as nat).plus_spec(delta_after(tree, visit_end(tree) as nat)[i])
    }
}

/// The first fault among the trees from `t` on.
pub open spec fn trees_fault<F>(trees: Seq<OrderedTree<F>>, t: int) -> Option<CbError>
    decreases trees.len() - t,
{
    if t >= trees.len() {
        None
    } else {
        match ordered_fault(trees[t]) {
            Some(e) => Some(e),
            None => trees_fault(trees, t + 1),
        }
    }
}

/// Adds the deltas of every tree to a zero approximation.
pub fn accumulate_ordered_trajectory<'a, F: Real>(
    backend: Backend,
    trees: &[OrderedTree<'a, F>],
    n: usize,
) -> (r: CbResult<Vec<F>>)
    requires
        forall|t: int| 0 <= t < trees@.len() ==> (#[trigger] trees@[t]).permutation@.len() == n,
    ensures
        backend == Backend::Wgpu ==> r == Err::<Vec<F>, CbError>(CbError::OutOfRange(RangeFault::NoDoubles(DoubleUse::Trajectory))),
        backend != Backend::Wgpu && n == 0 ==> (r matches Ok(v) && v@.len() == 0),
        backend != Backend::Wgpu && n > 0 ==> match trees_fault(trees@, 0) {
            Some(e) => r == Err::<Vec<F>, CbError>(e),
            None => r matches Ok(v) && v@ == Seq::new(n as nat, |i: int| trajectory(trees@, i, trees@.len())),
        },
{
    if backend == Backend::Wgpu {
        return Err(CbError::OutOfRange(RangeFault::NoDoubles(DoubleUse::Trajectory)));
    }
    if n == 0 {
        return Ok(Vec::new());
    }
    let m: usize = trees.len();
    let mut sums: Vec<F> = zeros(n);
    let mut t: usize = 0;
    while t < m
        invariant
            t <= m,
            m == trees@.len(),
            n > 0,
            backend != Backend::Wgpu,
            sums@.len() == n,
            forall|t: int| 0 <= t < trees@.len() ==> (#[trigger] trees@[t]).permutation@.len() == n,
            trees_fault(trees@, 0) == trees_fault(trees@, t as int),
            forall|i: int| 0 <= i < n ==> #[trigger] sums@[i] == trajectory(trees@, i, t as nat),
        decreases m - t,
    {
        let tree: &OrderedTree<'a, F> = &trees[t];
        assert(trees@[t as int].permutation@.len() == n);
        let delta: Vec<F> = match ordered_approx_delta(tree) {
            Ok(delta) => delta,
            Err(e) => {
                return Err(e);
            },
        };
        proof {
            lemma_delta_len(*tree, visit_end(*tree) as nat);
        }
        let ghost start = sums@;
        let mut i: usize = 0;
        while i < n
            invariant
                i <= n,
                sums@.len() == n,
                start.len() == n,
                delta@.len() == n,
                forall|k: int|
                    0 <= k < n ==> #[trigger] sums@[k] == if k < i {
                        start[k].plus_spec(delta@[k])
                    } else {
                        start[k]
                    },
            decreases n - i,
        {
            let v: F = sums[i].plus(delta[i]);
            sums.set(i, v);
            i = i + 1;
        }
        proof {
            assert forall|i: int| 0 <= i < n implies #[trigger] sums@[i] == trajectory(trees@, i, (t + 1) as nat) by {
                assert(start[i] == trajectory(trees@, i, t as nat));
            }
        }
        t = t + 1;
    }
    assert(sums@ =~= Seq::new(n as nat, |i: int| trajectory(trees@, i, trees@.len())));
    Ok(sums)
}

/// A trajectory persists across trees: it is the trajectory of the earlier trees plus the
/// deltas of the last one.
pub proof fn law_trajectory_persists<F: Real>(trees: Seq<OrderedTree<F>>, i: int)
    requires
        trees.len() > 0,
    ensures
        trajectory(trees, i, trees.len()) == trajectory(trees.drop_last(), i, (trees.len() - 1) as nat).plus_spec(
            delta_after(trees.last(), visit_end(trees.last()) as nat)[i],
        ),
{
    lemma_trajectory_prefix(trees, i, (trees.len() - 1) as nat);
}

proof fn lemma_trajectory_prefix<F: Real>(trees: Seq<OrderedTree<F>>, i: int, upto: nat)
    requires
        upto < trees.len(),
    ensures
        trajectory(trees, i, upto) == trajectory(trees.drop_last(), i, upto),
    decreases upto,
{
    if upto > 0 {
        lemma_trajectory_prefix(trees, i, (upto - 1) as nat);
    }
}

} // verus!
