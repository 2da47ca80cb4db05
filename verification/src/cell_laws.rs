//! What each cell of a histogram holds: the contributions of the objects that belong to it,
//! in their order, and of no others.

use vstd::prelude::*;
use crate::channel::Channel;
use crate::histogram::{der_sums_fold, hist2_fold, lemma_line_cell, lemma_row, part_stats_fold};
use crate::pairwise::launch_pairwise_make_derivatives;

verus! {

/// The elements added to `init` in their order.
pub open spec fn run_from<F: Channel>(init: F, elements: Seq<F>) -> F
    decreases elements.len(),
{
    if elements.len() == 0 {
        init
    } else {
        run_from(init, elements.drop_last()).plus_spec(elements.last())
    }
}

/// The elements added up from zero, in their order.
pub open spec fn run_total<F: Channel>(elements: Seq<F>) -> F {
    run_from(F::zero_spec(), elements)
}

/// An accumulation that takes the kept objects up, one by one, runs over them.
pub(crate) proof fn lemma_kept_run<F: Channel>(
    indices: Seq<u32>,
    keep: spec_fn(u32) -> bool,
    of: spec_fn(u32) -> F,
    acc: spec_fn(nat) -> F,
    upto: nat,
)
    requires
        upto <= indices.len(),
        forall|k: nat|
            k < upto ==> #[trigger] acc(k + 1) == if keep(indices[k as int]) {
                acc(k).plus_spec(of(indices[k as int]))
            } else {
                acc(k)
            },
    ensures
        acc(upto) == run_from(acc(0), indices.take(upto as int).filter(keep).map_values(of)),
    decreases upto,
{
    reveal(Seq::filter);
    if upto == 0 {
        assert(indices.take(0) =~= Seq::<u32>::empty());
        assert(indices.take(0).filter(keep).map_values(of).len() == 0);
    } else {
        let prev = (upto - 1) as nat;
        lemma_kept_run(indices, keep, of, acc, prev);
        let head = indices.take(upto as int);
        let obj = indices[prev as int];
        assert(head.drop_last() =~= indices.take(prev as int));
        assert(head.last() == obj);
        let before = indices.take(prev as int).filter(keep);
        let after = head.filter(keep);
        assert(acc(prev + 1) == if keep(obj) { acc(prev).plus_spec(of(obj)) } else { acc(prev) });
        if keep(obj) {
            assert(after =~= before.push(obj));
            assert(after.map_values(of) =~= before.map_values(of).push(of(obj)));
            assert(after.map_values(of).drop_last() =~= before.map_values(of));
        } else {
            assert(after =~= before);
        }
    }
}

/// The objects, in the order of `indices`, whose masked bin of feature `f` is `b`.
pub open spec fn bin_objects(cindex: Seq<u32>, indices: Seq<u32>, mask: u32, f: int, b: int) -> Seq<u32> {
    indices.filter(|obj: u32| (cindex[f * indices.len() + obj] & mask) == b)
}

/// A cell of a two-channel histogram holds what it held before, and the derivatives, or the
/// weights, of the objects whose masked bin of that feature is the cell's.
pub proof fn law_histogram_cell<F: Channel>(
    init: F,
    der1: Seq<F>,
    weight: Seq<F>,
    cindex: Seq<u32>,
    indices: Seq<u32>,
    n_bins: int,
    mask: u32,
    f: int,
    b: int,
)
    requires
        0 <= f,
        0 <= b < n_bins,
    ensures
        ({
            let own = bin_objects(cindex, indices, mask, f, b);
            let cell = |channel: int|
                hist2_fold(init, der1, weight, cindex, indices, n_bins, mask, f * (n_bins * 2) + (b * 2 + channel), indices.len());
            &&& cell(0) == run_from(init, own.map_values(|obj: u32| der1[obj as int]))
            &&& cell(1) == run_from(init, own.map_values(|obj: u32| weight[obj as int]))
        }),
{
    let n = indices.len();
    let keep = |obj: u32| (cindex[f * indices.len() + obj] & mask) == b;
    lemma_line_cell(f, n_bins * 2, b * 2);
    lemma_line_cell(f, n_bins * 2, b * 2 + 1);
    let first = |k: nat| hist2_fold(init, der1, weight, cindex, indices, n_bins, mask, f * (n_bins * 2) + (b * 2 + 0), k);
    let second = |k: nat| hist2_fold(init, der1, weight, cindex, indices, n_bins, mask, f * (n_bins * 2) + (b * 2 + 1), k);
    lemma_kept_run(indices, keep, |obj: u32| der1[obj as int], first, n);
    lemma_kept_run(indices, keep, |obj: u32| weight[obj as int], second, n);
    assert(indices.take(n as int) =~= indices);
}

/// A filled two-channel histogram holds, in each cell, what it held before and the
/// contributions of the objects that belong there.
pub(crate) proof fn lemma_histogram_filled<F: Channel>(
    before: Seq<F>,
    after: Seq<F>,
    der1: Seq<F>,
    weight: Seq<F>,
    cindex: Seq<u32>,
    indices: Seq<u32>,
    n_features: int,
    n_bins: int,
    mask: u32,
)
    requires
        before.len() == n_features * (n_bins * 2),
        forall|c: int|
            0 <= c < before.len() ==> #[trigger] after[c] == hist2_fold(
                before[c],
                der1,
                weight,
                cindex,
                indices,
                n_bins,
                mask,
                c,
                indices.len(),
            ),
    ensures
        forall|f: int, b: int|
            0 <= f < n_features && 0 <= b < n_bins ==> {
                let own = #[trigger] bin_objects(cindex, indices, mask, f, b);
                let cell = f * (n_bins * 2) + b * 2;
                &&& after[cell] == run_from(before[cell], own.map_values(|obj: u32| der1[obj as int]))
                &&& after[cell + 1] == run_from(before[cell + 1], own.map_values(|obj: u32| weight[obj as int]))
            },
{
    assert forall|f: int, b: int| 0 <= f < n_features && 0 <= b < n_bins implies {
        let own = #[trigger] bin_objects(cindex, indices, mask, f, b);
        let cell = f * (n_bins * 2) + b * 2;
        &&& after[cell] == run_from(before[cell], own.map_values(|obj: u32| der1[obj as int]))
        &&& after[cell + 1] == run_from(before[cell + 1], own.map_values(|obj: u32| weight[obj as int]))
    } by {
        let cell = f * (n_bins * 2) + b * 2;
        lemma_row(f, n_features, n_bins * 2, b * 2);
        lemma_row(f, n_features, n_bins * 2, b * 2 + 1);
        law_histogram_cell(before[cell], der1, weight, cindex, indices, n_bins, mask, f, b);
        law_histogram_cell(before[cell + 1], der1, weight, cindex, indices, n_bins, mask, f, b);
        assert(after[cell] == hist2_fold(before[cell], der1, weight, cindex, indices, n_bins, mask, cell, indices.len()));
        assert(after[cell + 1] == hist2_fold(before[cell + 1], der1, weight, cindex, indices, n_bins, mask, cell + 1, indices.len()));
        assert(f * (n_bins * 2) + (b * 2 + 0) == cell);
        assert(f * (n_bins * 2) + (b * 2 + 1) == cell + 1);
    }
}

/// A bin of the derivative sums holds the derivatives of the objects that lie in it.
pub proof fn law_derivative_bins<F: Channel>(
    der1: &[F],
    cindex: &[u32],
    indices: &[u32],
    n_bins: usize,
    n_features: usize,
    sums: Vec<F>,
    f: int,
    b: int,
)
    requires
        call_ensures(launch_pairwise_make_derivatives::<F>, (der1, cindex, indices, n_bins, n_features), Ok(sums)),
        der1@.len() > 0,
        0 <= f < n_features,
        0 <= b < n_bins,
    ensures
        ({
            let own = indices@.filter(|obj: u32| cindex@[f * indices@.len() + obj] == b);
            sums@[f * n_bins + b] == run_total(own.map_values(|obj: u32| der1@[obj as int]))
        }),
{
    let n = indices@.len();
    let keep = |obj: u32| cindex@[f * indices@.len() + obj] == b;
    lemma_row(f, n_features as int, n_bins as int, b);
    lemma_line_cell(f, n_bins as int, b);
    let acc = |k: nat| der_sums_fold(F::zero_spec(), der1@, cindex@, indices@, n_bins as int, f * n_bins + b, k);
    lemma_kept_run(indices@, keep, |obj: u32| der1@[obj as int], acc, n);
    assert(indices@.take(n as int) =~= indices@);
}

/// The objects of a partition, in the order of `indices`.
pub open spec fn part_objects(leaf_of: Seq<u32>, indices: Seq<u32>, leaf: int) -> Seq<u32> {
    indices.filter(in_part(leaf_of, leaf))
}

/// Whether an object lies in a partition.
pub open spec fn in_part(leaf_of: Seq<u32>, leaf: int) -> spec_fn(u32) -> bool {
    |obj: u32| leaf_of[obj as int] == leaf
}

/// The statistics of a partition hold what they held before, and the derivatives, or the
/// weights, of the partition's own objects.
pub proof fn law_partition_statistics<F: Channel>(
    init: F,
    der1: Seq<F>,
    weight: Seq<F>,
    indices: Seq<u32>,
    leaf_of: Seq<u32>,
    leaf: int,
)
    requires
        0 <= leaf,
    ensures
        ({
            let own = part_objects(leaf_of, indices, leaf);
            let stat = |channel: int| part_stats_fold(init, der1, weight, indices, leaf_of, leaf * 2 + channel, indices.len());
            &&& stat(0) == run_from(init, own.map_values(|obj: u32| der1[obj as int]))
            &&& stat(1) == run_from(init, own.map_values(|obj: u32| weight[obj as int]))
        }),
{
    let n = indices.len();
    let keep = in_part(leaf_of, leaf);
    let first = |k: nat| part_stats_fold(init, der1, weight, indices, leaf_of, leaf * 2 + 0, k);
    let second = |k: nat| part_stats_fold(init, der1, weight, indices, leaf_of, leaf * 2 + 1, k);
    lemma_kept_run(indices, keep, |obj: u32| der1[obj as int], first, n);
    lemma_kept_run(indices, keep, |obj: u32| weight[obj as int], second, n);
    assert(indices.take(n as int) =~= indices);
}

} // verus!
