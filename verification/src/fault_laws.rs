//! Which inputs are taken, and what an error says of the input that was not.

use vstd::prelude::*;
use crate::channel::{Channel, Real};
use crate::cindex::{PackedCindex, holds_row, pack_cindex, packed_bin, row_fault, rows_fault};
use crate::config::Backend;
use crate::coverage::MulticlassObjective;
use crate::error::{CbError, CbResult, Column, Degeneracy, RangeFault};
use crate::guard::{find_at_least, first_from, lemma_first_from};
use crate::histogram::lemma_row;
use crate::multiclass::{ObjectDers, assemble_multiclass_ders};
use crate::ordered::{OrderedTree, ordered_approx_delta, permutation_fault};
use crate::pairwise::{
    PairwiseSystem, assemble_pairwise_system_host, launch_pairwise_hist, launch_pairwise_hist_8bit,
    launch_pairwise_hist_binary, launch_pairwise_hist_half_byte,
};
use crate::ranking::query_rmse_ders_host;

verus! {

/// A column has no more entries than an index can count.
proof fn lemma_countable<T>(s: &[T])
    ensures
        s@.len() <= usize::MAX,
{
    assert(s@.len() == s.len());
}

/// The entry that a search finds is the first that is not below the bound, and nothing is
/// found exactly where every entry is below.
pub proof fn law_found_entry(s: &[u32], bound: usize, r: Option<u32>)
    requires
        call_ensures(find_at_least, (s, bound), r),
    ensures
        r is None <==> forall|k: int| 0 <= k < s@.len() ==> #[trigger] s@[k] < bound,
        r is Some ==> r->0 >= bound && exists|k: int|
            0 <= k < s@.len() && #[trigger] s@[k] == r->0 && forall|j: int| 0 <= j < k ==> #[trigger] s@[j] < bound,
{
    lemma_found(s@, 0, s@.len() as int, bound as int);
    lemma_first_from(s@, 0, s@.len() as int, bound as int);
}

proof fn lemma_found(s: Seq<u32>, lo: int, hi: int, bound: int)
    requires
        0 <= lo <= hi <= s.len(),
    ensures
        first_from(s, lo, hi, bound) is Some ==> exists|k: int|
            lo <= k < hi && #[trigger] s[k] == first_from(s, lo, hi, bound)->0 && forall|j: int| lo <= j < k ==> #[trigger] s[j] < bound,
    decreases hi - lo,
{
    if lo < hi {
        if s[lo] < bound {
            lemma_found(s, lo + 1, hi, bound);
            if first_from(s, lo, hi, bound) is Some {
                let k = choose|k: int|
                    lo + 1 <= k < hi && #[trigger] s[k] == first_from(s, lo + 1, hi, bound)->0 && forall|j: int|
                        lo + 1 <= j < k ==> #[trigger] s[j] < bound;
                assert(s[k] == first_from(s, lo, hi, bound)->0);
                assert forall|j: int| lo <= j < k implies #[trigger] s[j] < bound by {
                    if j > lo {
                        assert(lo + 1 <= j);
                    }
                }
            }
        } else {
            assert(s[lo] == first_from(s, lo, hi, bound)->0);
        }
    }
}

/// The columns of a pairwise fill fit together: as many second objects and weights as first
/// ones, a bin per feature and object, every object and every bin in range.
pub open spec fn pairs_fit(
    pair_i: Seq<u32>,
    pair_j: Seq<u32>,
    n_weights: int,
    cindex: Seq<u32>,
    n_objects: int,
    n_bins: int,
    n_features: int,
) -> bool {
    &&& pair_j.len() == pair_i.len()
    &&& n_weights == pair_i.len()
    &&& n_features * n_objects <= usize::MAX
    &&& n_features * n_bins * 4 <= usize::MAX
    &&& cindex.len() == n_features * n_objects
    &&& forall|p: int| 0 <= p < pair_i.len() ==> #[trigger] pair_i[p] < n_objects
    &&& forall|p: int| 0 <= p < pair_j.len() ==> #[trigger] pair_j[p] < n_objects
    &&& forall|c: int| 0 <= c < cindex.len() ==> #[trigger] cindex[c] < n_bins
}

/// A pairwise fill with something to fill succeeds exactly where its columns fit together
/// and its line has the width of its family.
pub proof fn law_pairs_accepted<F: Channel>(
    pair_i: &[u32],
    pair_j: &[u32],
    pair_weight: &[F],
    cindex: &[u32],
    n_objects: usize,
    n_bins: usize,
    n_features: usize,
    bits: u32,
    one_hot: bool,
    one_byte: CbResult<Vec<F>>,
    byte: CbResult<Vec<F>>,
    half_byte: CbResult<Vec<F>>,
    binary: CbResult<Vec<F>>,
)
    requires
        call_ensures(
            launch_pairwise_hist::<F>,
            (pair_i, pair_j, pair_weight, cindex, n_objects, n_bins, n_features, bits, one_hot),
            one_byte,
        ),
        call_ensures(
            launch_pairwise_hist_8bit::<F>,
            (pair_i, pair_j, pair_weight, cindex, n_objects, n_bins, n_features, one_hot),
            byte,
        ),
        call_ensures(
            launch_pairwise_hist_half_byte::<F>,
            (pair_i, pair_j, pair_weight, cindex, n_objects, n_bins, n_features),
            half_byte,
        ),
        call_ensures(
            launch_pairwise_hist_binary::<F>,
            (pair_i, pair_j, pair_weight, cindex, n_objects, n_bins, n_features),
            binary,
        ),
        pair_i@.len() > 0,
        n_features > 0,
        n_bins > 0,
    ensures
        ({
            let fit = pairs_fit(
                pair_i@,
                pair_j@,
                pair_weight@.len() as int,
                cindex@,
                n_objects as int,
                n_bins as int,
                n_features as int,
            );
            &&& one_byte is Ok <==> fit && ((bits == 5 && n_bins == 32) || (bits == 6 && n_bins == 64) || (bits == 7 && n_bins == 128))
            &&& byte is Ok <==> fit && n_bins == 256
            &&& half_byte is Ok <==> fit && n_bins == 16
            &&& binary is Ok <==> fit && n_bins == 2
        }),
{
    lemma_first_from(pair_i@, 0, pair_i@.len() as int, n_objects as int);
    lemma_first_from(pair_j@, 0, pair_j@.len() as int, n_objects as int);
    lemma_first_from(cindex@, 0, cindex@.len() as int, n_bins as int);
}

/// What an error of a pairwise fill says is true of its columns: a length that differs from
/// the one it should be, or an entry of the column that is out of range.
pub proof fn law_pair_errors<F: Channel>(
    pair_i: &[u32],
    pair_j: &[u32],
    pair_weight: &[F],
    cindex: &[u32],
    n_objects: usize,
    n_bins: usize,
    n_features: usize,
    bits: u32,
    one_hot: bool,
    e: CbError,
)
    requires
        call_ensures(
            launch_pairwise_hist::<F>,
            (pair_i, pair_j, pair_weight, cindex, n_objects, n_bins, n_features, bits, one_hot),
            Err(e),
        ),
    ensures
        match e {
            CbError::LengthMismatch { column, expected, actual } => {
                &&& expected != actual
                &&& column == Column::PairJ ==> expected == pair_i@.len() && actual == pair_j@.len()
                &&& column == Column::PairWeight ==> expected == pair_i@.len() && actual == pair_weight@.len()
                &&& column == Column::Cindex ==> expected == n_features * n_objects && actual == cindex@.len()
                &&& column == Column::PairJ || column == Column::PairWeight || column == Column::Cindex
            },
            CbError::OutOfRange(RangeFault::PairI { value, n_objects: bound }) => bound == n_objects && value >= n_objects
                && pair_i@.contains(value),
            CbError::OutOfRange(RangeFault::PairJ { value, n_objects: bound }) => bound == n_objects && value >= n_objects
                && pair_j@.contains(value),
            CbError::OutOfRange(RangeFault::BinValue { value, n_bins: bound }) => bound == n_bins && value >= n_bins
                && cindex@.contains(value),
            _ => true,
        },
{
    lemma_countable(pair_i);
    lemma_countable(pair_j);
    lemma_countable(pair_weight);
    lemma_countable(cindex);
    lemma_first_from(pair_i@, 0, pair_i@.len() as int, n_objects as int);
    lemma_first_from(pair_j@, 0, pair_j@.len() as int, n_objects as int);
    lemma_first_from(cindex@, 0, cindex@.len() as int, n_bins as int);
    lemma_found(pair_i@, 0, pair_i@.len() as int, n_objects as int);
    lemma_found(pair_j@, 0, pair_j@.len() as int, n_objects as int);
    lemma_found(cindex@, 0, cindex@.len() as int, n_bins as int);
}

/// A pairwise system has a matrix of weights between each two leaves. Fewer than two leaves
/// have no system, and a backend without doubles solves none.
pub proof fn law_systems_accepted<F: Real>(
    backend: Backend,
    weight_sums: &[F],
    der_sums: &[F],
    l2: F,
    prior: F,
    r: CbResult<Option<PairwiseSystem<F>>>,
)
    requires
        call_ensures(assemble_pairwise_system_host::<F>, (backend, weight_sums, der_sums, l2, prior), r),
    ensures
        ({
            let leaves = der_sums@.len() as int;
            &&& leaves <= 1 ==> r is Ok && r->Ok_0 is None
            &&& leaves > 1 ==> (r is Ok <==> weight_sums@.len() == leaves * leaves && backend != Backend::Wgpu)
            &&& leaves > 1 && r is Ok ==> r->Ok_0 is Some
        }),
{
    lemma_countable(weight_sums);
}

/// A tree of an ordered fold is taken exactly where its columns reach as far as the learning
/// order and every entry of the order names an object that has a leaf and a derivative.
pub proof fn law_ordered_trees_accepted<'a, F: Real>(tree: &OrderedTree<'a, F>, r: CbResult<Vec<F>>)
    requires
        call_ensures(ordered_approx_delta::<F>, (tree,), r),
    ensures
        r is Ok <==> tree.leaf_of@.len() >= tree.permutation@.len() && tree.der@.len() >= tree.permutation@.len() && forall|p: int|
            0 <= p < tree.permutation@.len() ==> 0 <= #[trigger] tree.permutation@[p] < tree.leaf_of@.len() && tree.permutation@[p]
                < tree.der@.len(),
        match r {
            Err(CbError::Degenerate(Degeneracy::NegativeIndex { part, position })) => {
                &&& position < tree.permutation@.len()
                &&& tree.permutation@[position as int] < 0
            },
            Err(CbError::Degenerate(Degeneracy::IndexRange { part, position })) => {
                &&& position < tree.permutation@.len()
                &&& tree.permutation@[position as int] >= tree.leaf_of@.len() || tree.permutation@[position as int] >= tree.der@.len()
            },
            _ => true,
        },
{
    if tree.permutation@.len() <= tree.leaf_of@.len() && tree.permutation@.len() <= tree.der@.len() {
        lemma_countable(tree.permutation);
        lemma_permutation(*tree, 0);
    }
}

proof fn lemma_permutation<F>(tree: OrderedTree<F>, p: int)
    requires
        0 <= p,
        tree.permutation@.len() <= usize::MAX,
    ensures
        permutation_fault(tree, p) is None <==> forall|q: int|
            p <= q < tree.permutation@.len() ==> 0 <= #[trigger] tree.permutation@[q] < tree.leaf_of@.len() && tree.permutation@[q]
                < tree.der@.len(),
        match permutation_fault(tree, p) {
            Some(CbError::Degenerate(Degeneracy::NegativeIndex { part, position })) => p <= position < tree.permutation@.len()
                && tree.permutation@[position as int] < 0,
            Some(CbError::Degenerate(Degeneracy::IndexRange { part, position })) => p <= position < tree.permutation@.len() && (
            tree.permutation@[position as int] >= tree.leaf_of@.len() || tree.permutation@[position as int] >= tree.der@.len()),
            Some(_) => false,
            None => true,
        },
    decreases tree.permutation@.len() - p,
{
    if p < tree.permutation@.len() {
        let doc = tree.permutation@[p];
        if 0 <= doc && doc < tree.leaf_of@.len() && doc < tree.der@.len() {
            lemma_permutation(tree, p + 1);
            if permutation_fault(tree, p + 1) is None {
                assert forall|q: int| p <= q < tree.permutation@.len() implies 0 <= #[trigger] tree.permutation@[q] < tree.leaf_of@.len()
                    && tree.permutation@[q] < tree.der@.len() by {
                    if q > p {
                        assert(p + 1 <= q);
                    }
                }
            }
        }
    }
}

/// A multi-output block is taken exactly where its sizes fit a column and the approximation
/// has an entry per output and object.
pub proof fn law_blocks_accepted<F: Real>(
    objective: MulticlassObjective,
    approx: &[F],
    target: &[F],
    weight: &[F],
    ders: &[ObjectDers<F>],
    n: usize,
    k: usize,
    r: CbResult<(Vec<F>, Vec<F>)>,
)
    requires
        call_ensures(assemble_multiclass_ders::<F>, (objective, approx, target, weight, ders, n, k), r),
    ensures
        r is Ok <==> k * (k + 1) <= usize::MAX && k * n <= usize::MAX && n * (k * (k + 1) / 2) <= usize::MAX && approx@.len() == k * n,
        match r {
            Err(CbError::LengthMismatch { column, expected, actual }) => column == Column::Approx && expected == k * n && actual
                == approx@.len() && expected != actual,
            _ => true,
        },
{
    lemma_countable(approx);
}

/// The query-wise squared error is derived exactly where there is a target per object, the
/// offsets run without a fall from zero to the object count, the weights are there for every
/// object or for none, and the backend has doubles. Without objects there is nothing to
/// derive.
pub proof fn law_query_columns_accepted<F: Real>(
    backend: Backend,
    approx: &[F],
    target: &[F],
    weights: &[F],
    q_offsets: &[u32],
    r: CbResult<(Vec<F>, Vec<F>)>,
)
    requires
        call_ensures(query_rmse_ders_host::<F>, (backend, approx, target, weights, q_offsets), r),
    ensures
        ({
            let n = approx@.len();
            let rising = forall|g: int| 0 <= g < q_offsets@.len() - 1 ==> #[trigger] q_offsets@[g] <= q_offsets@[g + 1];
            r is Ok <==> target@.len() == n && q_offsets@.len() > 0 && (n > 0 ==> {
                &&& backend != Backend::Wgpu
                &&& weights@.len() == 0 || weights@.len() == n
                &&& q_offsets@[0] == 0
                &&& q_offsets@.last() == n
                &&& rising
            })
        }),
{
}

/// A table is packed exactly where it has a bin per feature and object, a one-hot flag per
/// feature, and every bin below the bucket count of its feature, which a word can hold. The
/// packed field of a feature and an object is then the bin itself.
pub proof fn law_tables_accepted(
    bins: &[u32],
    n_buckets: &[usize],
    one_hot: &[bool],
    n: usize,
    r: CbResult<PackedCindex>,
    f: int,
    obj: int,
)
    requires
        call_ensures(pack_cindex, (bins, n_buckets, one_hot, n), r),
        0 <= f < n_buckets@.len(),
        0 <= obj < n,
    ensures
        r is Ok ==> {
            &&& bins@.len() == n_buckets@.len() * n
            &&& one_hot@.len() == n_buckets@.len()
            &&& n_buckets@[f] <= 0x1_0000_0000
            &&& bins@[f * n + obj] < n_buckets@[f]
            &&& r->Ok_0.features@.len() == n_buckets@.len()
            &&& r->Ok_0.features@[f].one_hot == one_hot@[f]
            &&& {
                let feature = r->Ok_0.features@[f];
                (r->Ok_0.words@[feature.offset + obj] >> feature.shift) & feature.mask == bins@[f * n + obj]
            }
        },
        bins@.len() == n_buckets@.len() * n && one_hot@.len() == n_buckets@.len() && (forall|g: int, i: int|
            #![trigger bins@[g * n + i]]
            0 <= g < n_buckets@.len() && 0 <= i < n ==> bins@[g * n + i] < n_buckets@[g]) && (forall|g: int|
            0 <= g < n_buckets@.len() ==> #[trigger] n_buckets@[g] <= 0x1_0000_0000) && n_buckets@.len() * n <= usize::MAX ==> r is Ok,
{
    lemma_row(f, n_buckets@.len() as int, n as int, obj);
    if r is Ok {
        lemma_rows(bins@, n_buckets@, n as int, 0, f);
        lemma_first_from(bins@, f * n, f * n + n, n_buckets@[f] as int);
        let feature = r->Ok_0.features@[f];
        assert(holds_row(r->Ok_0.words@, feature, bins@, f, n as int));
        assert(packed_bin(r->Ok_0.words@, feature, obj) == bins@[f * n + obj]);
    }
    if (forall|g: int, i: int| #![trigger bins@[g * n + i]]
        0 <= g < n_buckets@.len() && 0 <= i < n ==> bins@[g * n + i] < n_buckets@[g]) && (forall|g: int|
        0 <= g < n_buckets@.len() ==> #[trigger] n_buckets@[g] <= 0x1_0000_0000) {
        lemma_rows_fit(bins@, n_buckets@, n as int, 0);
    }
}

proof fn lemma_rows(bins: Seq<u32>, n_buckets: Seq<usize>, n: int, from: int, f: int)
    requires
        0 <= from <= f < n_buckets.len(),
        rows_fault(bins, n_buckets, n, from) is None,
    ensures
        row_fault(bins, n_buckets[f] as int, f, n) is None,
    decreases f - from,
{
    if from < f {
        lemma_rows(bins, n_buckets, n, from + 1, f);
    }
}

proof fn lemma_rows_fit(bins: Seq<u32>, n_buckets: Seq<usize>, n: int, from: int)
    requires
        0 <= from,
        0 <= n,
        forall|g: int, i: int| #![trigger bins[g * n + i]]
            0 <= g < n_buckets.len() && 0 <= i < n ==> bins[g * n + i] < n_buckets[g],
        forall|g: int| 0 <= g < n_buckets.len() ==> #[trigger] n_buckets[g] <= 0x1_0000_0000,
    ensures
        rows_fault(bins, n_buckets, n, from) is None,
    decreases n_buckets.len() - from,
{
    if from < n_buckets.len() {
        let g = from;
        assert forall|k: int| g * n <= k < g * n + n implies #[trigger] bins[k] < n_buckets[g] by {
            let i = k - g * n;
            assert(bins[g * n + i] < n_buckets[g]);
        }
        lemma_first_from(bins, g * n, g * n + n, n_buckets[g] as int);
        lemma_rows_fit(bins, n_buckets, n, from + 1);
    }
}

} // verus!
