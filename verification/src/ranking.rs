//! The query objectives: derivatives and draws that are taken query by query.

use vstd::prelude::*;
use crate::channel::{Channel, Real, ties_spec};
use crate::config::Backend;
use crate::error::{CbError, CbResult, Degeneracy, DoubleUse, RangeFault};
use crate::rng::{draw_of, law_advance_adds_up, law_draw_after_advance, seeded_state, state_after, TFastRng64};
use crate::session::copy_column;
use crate::smooth::Smooth;
use crate::sort::{ascending_order, radix_order};

verus! {

/// The halvings of the shift bracket.
pub const QCE_SHIFT_BISECTION_ITERS: u32 = 8;

/// The refinements of the shift after the bracket.
pub const QCE_SHIFT_NEWTON_ITERS: u32 = 5;

/// The shifts that the search starts from lie within this distance of zero.
pub const QCE_SHIFT_BRACKET: usize = 30;

/// The queries that an offset table describes.
pub open spec fn query_count(q_offsets: Seq<u32>) -> int {
    q_offsets.len() - 1
}

/// Object `i` belongs to query `g`.
pub open spec fn in_query(q_offsets: Seq<u32>, g: int, i: int) -> bool {
    0 <= g < query_count(q_offsets) && q_offsets[g] <= i < q_offsets[g + 1]
}

/// The offsets ascend from zero to the object count, so each object belongs to one query.
pub open spec fn offsets_cover(q_offsets: Seq<u32>, n: int) -> bool {
    &&& q_offsets.len() > 0
    &&& q_offsets[0] == 0
    &&& q_offsets[q_offsets.len() - 1] == n
    &&& forall|g: int| 0 <= g < query_count(q_offsets) ==> #[trigger] q_offsets[g] <= q_offsets[g + 1]
}

/// No offset lies past the objects.
pub open spec fn offsets_within(q_offsets: Seq<u32>, n: int) -> bool {
    forall|g: int| 0 <= g < q_offsets.len() ==> #[trigger] q_offsets[g] <= n
}

/// Covering offsets lie within the objects.
proof fn lemma_cover_within(q_offsets: Seq<u32>, n: int, g: int)
    requires
        offsets_cover(q_offsets, n),
        0 <= g < q_offsets.len(),
    ensures
        q_offsets[g] <= n,
    decreases q_offsets.len() - g,
{
    if g < query_count(q_offsets) {
        lemma_cover_within(q_offsets, n, g + 1);
        assert(q_offsets[g] <= q_offsets[g + 1]);
    }
}

/// Where the offsets cover the objects, every object belongs to exactly one query.
pub proof fn law_each_object_has_one_query(q_offsets: Seq<u32>, n: int, i: int) -> (g: int)
    requires
        offsets_cover(q_offsets, n),
        0 <= i < n,
    ensures
        in_query(q_offsets, g, i),
        forall|h: int| #[trigger] in_query(q_offsets, h, i) ==> h == g,
{
    let g = lemma_find_query(q_offsets, n, i, query_count(q_offsets));
    assert forall|h: int| #[trigger] in_query(q_offsets, h, i) implies h == g by {
        if h < g {
            lemma_offsets_ascend(q_offsets, n, h + 1, g);
        } else if g < h {
            lemma_offsets_ascend(q_offsets, n, g + 1, h);
        }
    }
    g
}

proof fn lemma_offsets_ascend(q_offsets: Seq<u32>, n: int, a: int, b: int)
    requires
        offsets_cover(q_offsets, n),
        0 <= a <= b < q_offsets.len(),
    ensures
        q_offsets[a] <= q_offsets[b],
    decreases b - a,
{
    if a < b {
        lemma_offsets_ascend(q_offsets, n, a, b - 1);
        assert(q_offsets[b - 1] <= q_offsets[b - 1 + 1]);
    }
}

proof fn lemma_find_query(q_offsets: Seq<u32>, n: int, i: int, upto: int) -> (g: int)
    requires
        offsets_cover(q_offsets, n),
        0 <= i < q_offsets[upto],
        0 <= upto <= query_count(q_offsets),
    ensures
        in_query(q_offsets, g, i),
    decreases upto,
{
    if q_offsets[upto - 1] <= i {
        upto - 1
    } else {
        lemma_find_query(q_offsets, n, i, upto - 1)
    }
}

/// Whether the offsets cover the objects.
fn covers(q_offsets: &[u32], n: usize) -> (r: bool)
    ensures
        r == offsets_cover(q_offsets@, n as int),
{
    let m: usize = q_offsets.len();
    if m == 0 || q_offsets[0] != 0 || q_offsets[m - 1] as usize != n {
        return false;
    }
    let mut g: usize = 0;
    while g + 1 < m
        invariant
            m == q_offsets@.len(),
            g + 1 <= m,
            forall|h: int| 0 <= h < g ==> #[trigger] q_offsets@[h] <= q_offsets@[h + 1],
        decreases m - g,
    {
        if q_offsets[g] > q_offsets[g + 1] {
            assert(q_offsets@[g as int] > q_offsets@[g + 1]);
            return false;
        }
        g = g + 1;
    }
    true
}

/// The weights of the objects: a run without weights weighs every object by one.
pub open spec fn weights_or_one<F: Real>(weights: Seq<F>, n: nat) -> Seq<F> {
    if weights.len() == 0 {
        Seq::new(n, |i: int| F::one_spec())
    } else {
        weights
    }
}

/// The weight column of `n` objects.
pub fn weight_column<F: Real>(weights: &[F], n: usize) -> (r: CbResult<Vec<F>>)
    ensures
        if weights@.len() == 0 || weights@.len() == n {
            r matches Ok(w) && w@ == weights_or_one(weights@, n as nat)
        } else {
            r == Err::<Vec<F>, CbError>(
                CbError::Degenerate(Degeneracy::WeightLength { expected: n, actual: weights@.len() as usize }),
            )
        },
{
    if weights.len() == 0 {
        let mut ones: Vec<F> = Vec::new();
        let mut i: usize = 0;
        while i < n
            invariant
                i <= n,
                ones@.len() == i,
                forall|k: int| 0 <= k < i ==> #[trigger] ones@[k] == F::one_spec(),
            decreases n - i,
        {
            ones.push(F::one());
            i = i + 1;
        }
        assert(ones@ =~= weights_or_one(weights@, n as nat));
        return Ok(ones);
    }
    if weights.len() != n {
        return Err(CbError::Degenerate(Degeneracy::WeightLength { expected: n, actual: weights.len() }));
    }
    Ok(copy_column(weights))
}

/// What is wrong with the columns of a query objective, if anything.
pub open spec fn ranking_fault(approx_len: nat, target_len: nat, offsets_len: nat) -> Option<CbError> {
    if approx_len != target_len {
        Some(
            CbError::Degenerate(
                Degeneracy::TargetLength { approx: approx_len as usize, target: target_len as usize },
            ),
        )
    } else if offsets_len == 0 {
        Some(CbError::Degenerate(Degeneracy::NoQueryOffsets))
    } else {
        None
    }
}

/// Checks the columns of a query objective.
pub fn validate_ranking_inputs<F: Real>(approx: &[F], target: &[F], q_offsets: &[u32]) -> (r: CbResult<()>)
    ensures
        r == match ranking_fault(approx@.len(), target@.len(), q_offsets@.len()) {
            Some(e) => Err::<(), CbError>(e),
            None => Ok(()),
        },
{
    if approx.len() != target.len() {
        return Err(
            CbError::Degenerate(Degeneracy::TargetLength { approx: approx.len(), target: target.len() }),
        );
    }
    if q_offsets.len() == 0 {
        return Err(CbError::Degenerate(Degeneracy::NoQueryOffsets));
    }
    Ok(())
}

/// What a query objective reports instead of derivatives, once its columns are checked and
/// hold objects.
pub open spec fn query_fault<F>(backend: Backend, weights: Seq<F>, q_offsets: Seq<u32>, n: nat) -> Option<CbError> {
    if backend == Backend::Wgpu {
        Some(CbError::OutOfRange(RangeFault::NoDoubles(DoubleUse::QueryDer)))
    } else if weights.len() != 0 && weights.len() != n {
        Some(
            CbError::Degenerate(
                Degeneracy::WeightLength { expected: n as usize, actual: weights.len() as usize },
            ),
        )
    } else if !offsets_cover(q_offsets, n as int) {
        Some(CbError::Degenerate(Degeneracy::QueryOffsets))
    } else {
        None
    }
}

/// The sum of a value over the objects from `begin` to `end`, in ascending order.
pub open spec fn query_sum<F: Channel>(value: spec_fn(int) -> F, begin: int, end: int) -> F
    decreases end - begin,
{
    if end <= begin {
        F::zero_spec()
    } else {
        query_sum(value, begin, end - 1).plus_spec(value(end - 1))
    }
}

/// The weighted mean of the residuals of a query; zero where the query weighs nothing.
pub open spec fn query_mean<F: Real>(approx: Seq<F>, target: Seq<F>, weights: Seq<F>, begin: int, end: int) -> F {
    let total = query_sum(|i: int| weights[i], begin, end);
    if total.above_spec(F::zero_spec()) {
        query_sum(|i: int| weights[i].times_spec(target[i].minus_spec(approx[i])), begin, end).over_spec(total)
    } else {
        F::zero_spec()
    }
}

/// The weighted mean of the residuals of a query.
fn mean_of_query<F: Real>(approx: &[F], target: &[F], weights: &[F], begin: usize, end: usize) -> (r: F)
    requires
        begin <= end <= approx@.len(),
        approx@.len() == target@.len(),
        approx@.len() == weights@.len(),
    ensures
        r == query_mean(approx@, target@, weights@, begin as int, end as int),
{
    let ghost weight_of = |i: int| weights@[i];
    let ghost term_of = |i: int| weights@[i].times_spec(target@[i].minus_spec(approx@[i]));
    let mut total: F = F::zero();
    let mut sum: F = F::zero();
    let mut i: usize = begin;
    while i < end
        invariant
            begin <= i <= end,
            end <= approx@.len(),
            approx@.len() == target@.len(),
            approx@.len() == weights@.len(),
            weight_of == (|i: int| weights@[i]),
            term_of == (|i: int| weights@[i].times_spec(target@[i].minus_spec(approx@[i]))),
            total == query_sum(weight_of, begin as int, i as int),
            sum == query_sum(term_of, begin as int, i as int),
        decreases end - i,
    {
        total = total.plus(weights[i]);
        sum = sum.plus(weights[i].times(target[i].minus(approx[i])));
        i = i + 1;
    }
    if total.above(F::zero()) {
        sum.over(total)
    } else {
        F::zero()
    }
}

/// The derivatives of a squared error from the residuals without their query's mean.
pub fn ranking_rmse_der_kernel<F: Real>(centered: &[F], weights: &[F]) -> (r: (Vec<F>, Vec<F>))
    requires
        centered@.len() <= weights@.len(),
    ensures
        r.0@ == Seq::new(centered@.len(), |i: int| centered@[i].times_spec(weights@[i])),
        r.1@ == Seq::new(centered@.len(), |i: int| weights@[i].negated_spec()),
{
    let n: usize = centered.len();
    let mut der1: Vec<F> = Vec::new();
    let mut der2: Vec<F> = Vec::new();
    let mut i: usize = 0;
    while i < n
        invariant
            i <= n,
            n == centered@.len(),
            n <= weights@.len(),
            der1@.len() == i,
            der2@.len() == i,
            forall|k: int| 0 <= k < i ==> #[trigger] der1@[k] == centered@[k].times_spec(weights@[k]),
            forall|k: int| 0 <= k < i ==> #[trigger] der2@[k] == weights@[k].negated_spec(),
        decreases n - i,
    {
        der1.push(centered[i].times(weights[i]));
        der2.push(weights[i].negated());
        i = i + 1;
    }
    assert(der1@ =~= Seq::new(centered@.len(), |i: int| centered@[i].times_spec(weights@[i])));
    assert(der2@ =~= Seq::new(centered@.len(), |i: int| weights@[i].negated_spec()));
    (der1, der2)
}

/// The residual of an object without the mean of its query.
pub open spec fn centered_residual<F: Real>(
    approx: Seq<F>,
    target: Seq<F>,
    weights: Seq<F>,
    q_offsets: Seq<u32>,
    g: int,
    i: int,
) -> F {
    target[i].minus_spec(approx[i]).minus_spec(
        query_mean(approx, target, weights, q_offsets[g] as int, q_offsets[g + 1] as int),
    )
}

/// The derivatives of the query-wise squared error.
pub fn query_rmse_ders_host<F: Real>(
    backend: Backend,
    approx: &[F],
    target: &[F],
    weights: &[F],
    q_offsets: &[u32],
) -> (r: CbResult<(Vec<F>, Vec<F>)>)
    ensures
        match ranking_fault(approx@.len(), target@.len(), q_offsets@.len()) {
            Some(e) => r == Err::<(Vec<F>, Vec<F>), CbError>(e),
            None => if approx@.len() == 0 {
                r matches Ok((der1, der2)) && der1@.len() == 0 && der2@.len() == 0
            } else {
                match query_fault(backend, weights@, q_offsets@, approx@.len()) {
                    Some(e) => r == Err::<(Vec<F>, Vec<F>), CbError>(e),
                    None => {
                        let w = weights_or_one(weights@, approx@.len());
                        r matches Ok((der1, der2)) && {
                            &&& der1@.len() == approx@.len()
                            &&& der2@.len() == approx@.len()
                            &&& forall|g: int, i: int| #[trigger]
                                in_query(q_offsets@, g, i) ==> der1@[i] == centered_residual(
                                    approx@,
                                    target@,
                                    w,
                                    q_offsets@,
                                    g,
                                    i,
                                ).times_spec(w[i]) && der2@[i] == w[i].negated_spec()
                        }
                    },
                }
            },
        },
{
    match validate_ranking_inputs(approx, target, q_offsets) {
        Ok(_) => {},
        Err(e) => {
            return Err(e);
        },
    }
    let n: usize = approx.len();
    if n == 0 {
        return Ok((Vec::new(), Vec::new()));
    }
    if backend == Backend::Wgpu {
        return Err(CbError::OutOfRange(RangeFault::NoDoubles(DoubleUse::QueryDer)));
    }
    let column: Vec<F> = match weight_column(weights, n) {
        Ok(column) => column,
        Err(e) => {
            return Err(e);
        },
    };
    if !covers(q_offsets, n) {
        return Err(CbError::Degenerate(Degeneracy::QueryOffsets));
    }
    let m: usize = q_offsets.len();
    let ghost w = column@;
    let mut centered: Vec<F> = Vec::new();
    let mut g: usize = 0;
    while g + 1 < m
        invariant
            m == q_offsets@.len(),
            g + 1 <= m,
            n == approx@.len(),
            n == target@.len(),
            n == w.len(),
            column@ == w,
            offsets_cover(q_offsets@, n as int),
            centered@.len() == q_offsets@[g as int],
            forall|h: int, i: int| #[trigger]
                in_query(q_offsets@, h, i) && h < g ==> centered@[i] == centered_residual(approx@, target@, w, q_offsets@, h, i),
        decreases m - g,
    {
        let begin: usize = q_offsets[g] as usize;
        let end: usize = q_offsets[g + 1] as usize;
        proof {
            lemma_cover_within(q_offsets@, n as int, g + 1);
            assert(q_offsets@[g as int] <= q_offsets@[g + 1]);
        }
        let mean: F = mean_of_query(approx, target, column.as_slice(), begin, end);
        let ghost before = centered@;
        let mut i: usize = begin;
        while i < end
            invariant
                begin <= i <= end,
                end <= n,
                g + 1 < m,
                m == q_offsets@.len(),
                n == approx@.len(),
                n == target@.len(),
                begin == q_offsets@[g as int],
                end == q_offsets@[g + 1],
                mean == query_mean(approx@, target@, w, begin as int, end as int),
                before.len() == begin,
                centered@.len() == i,
                forall|k: int| 0 <= k < begin ==> #[trigger] centered@[k] == before[k],
                forall|k: int| begin <= k < i ==> #[trigger] centered@[k] == centered_residual(approx@, target@, w, q_offsets@, g as int, k),
            decreases end - i,
        {
            centered.push(target[i].minus(approx[i]).minus(mean));
            i = i + 1;
        }
        proof {
            assert forall|h: int, i: int| #[trigger]
                in_query(q_offsets@, h, i) && h < g + 1 implies centered@[i] == centered_residual(approx@, target@, w, q_offsets@, h, i) by {
                if h < g {
                    lemma_offsets_ascend(q_offsets@, n as int, h + 1, g as int);
                    assert(before[i] == centered_residual(approx@, target@, w, q_offsets@, h, i));
                }
            }
        }
        g = g + 1;
    }
    let (der1, der2) = ranking_rmse_der_kernel(centered.as_slice(), column.as_slice());
    proof {
        assert forall|h: int, i: int| #[trigger] in_query(q_offsets@, h, i) implies der1@[i] == centered_residual(
            approx@,
            target@,
            w,
            q_offsets@,
            h,
            i,
        ).times_spec(w[i]) && der2@[i] == w[i].negated_spec() by {
            lemma_cover_within(q_offsets@, n as int, h + 1);
        }
    }
    Ok((der1, der2))
}

/// The greatest approximation among the weighted objects from `begin` to `end`.
pub open spec fn weighted_max<F: Real>(approx: Seq<F>, weights: Seq<F>, begin: int, end: int) -> F
    decreases end - begin,
{
    if end <= begin {
        F::bottom_spec()
    } else {
        let rest = weighted_max(approx, weights, begin, end - 1);
        if weights[end - 1].above_spec(F::zero_spec()) && approx[end - 1].above_spec(rest) {
            approx[end - 1]
        } else {
            rest
        }
    }
}

/// The shift of a softmax is at least every weighted approximation of its query, so no
/// exponent of a weighted object is positive.
pub proof fn law_weighted_max_bounds<F: Real>(approx: Seq<F>, weights: Seq<F>, begin: int, end: int, i: int)
    requires
        begin <= i < end,
        weights[i].above_spec(F::zero_spec()),
    ensures
        !approx[i].above_spec(weighted_max(approx, weights, begin, end)),
    decreases end - begin,
{
    let rest = weighted_max(approx, weights, begin, end - 1);
    let last = approx[end - 1];
    F::order_laws(last, rest, approx[i]);
    F::order_laws(approx[i], last, rest);
    F::order_laws(approx[i], last, last);
    F::order_laws(last, approx[i], last);
    F::order_laws(last, last, last);
    if i < end - 1 {
        law_weighted_max_bounds(approx, weights, begin, end - 1, i);
    }
}

/// The shift of each query: the greatest approximation among its weighted objects.
pub fn compute_group_max_weighted_host<F: Real>(approx: &[F], weights: &[F], q_offsets: &[u32]) -> (r: Vec<F>)
    requires
        approx@.len() == weights@.len(),
        q_offsets@.len() > 0,
        offsets_within(q_offsets@, approx@.len() as int),
    ensures
        r@ == Seq::new(
            query_count(q_offsets@) as nat,
            |g: int| weighted_max(approx@, weights@, q_offsets@[g] as int, q_offsets@[g + 1] as int),
        ),
{
    let m: usize = q_offsets.len();
    let mut out: Vec<F> = Vec::new();
    let mut g: usize = 0;
    while g + 1 < m
        invariant
            m == q_offsets@.len(),
            g + 1 <= m,
            approx@.len() == weights@.len(),
            offsets_within(q_offsets@, approx@.len() as int),
            out@.len() == g,
            forall|h: int|
                0 <= h < g ==> #[trigger] out@[h] == weighted_max(approx@, weights@, q_offsets@[h] as int, q_offsets@[h + 1] as int),
        decreases m - g,
    {
        let begin: usize = q_offsets[g] as usize;
        let end: usize = q_offsets[g + 1] as usize;
        assert(q_offsets@[g + 1] <= approx@.len());
        let mut max: F = F::bottom();
        let mut i: usize = begin;
        while i < end
            invariant
                begin <= i,
                i <= end || (begin > end && i == begin),
                end <= approx@.len(),
                approx@.len() == weights@.len(),
                max == weighted_max(approx@, weights@, begin as int, i as int),
            decreases end - i,
        {
            if weights[i].above(F::zero()) && approx[i].above(max) {
                max = approx[i];
            }
            i = i + 1;
        }
        assert(max == weighted_max(approx@, weights@, begin as int, end as int));
        out.push(max);
        g = g + 1;
    }
    assert(out@ =~= Seq::new(
        query_count(q_offsets@) as nat,
        |g: int| weighted_max(approx@, weights@, q_offsets@[g] as int, q_offsets@[g + 1] as int),
    ));
    out
}

/// The relevant weight of an object; nothing where the weight or the target is not
/// positive.
pub open spec fn relevant_weight<F: Real>(target: Seq<F>, weights: Seq<F>, begin: int, end: int) -> F
    decreases end - begin,
{
    if end <= begin {
        F::zero_spec()
    } else {
        let rest = relevant_weight(target, weights, begin, end - 1);
        let w = weights[end - 1];
        let t = target[end - 1];
        if w.above_spec(F::zero_spec()) && t.above_spec(F::zero_spec()) {
            rest.plus_spec(w.times_spec(t))
        } else {
            rest
        }
    }
}

/// The weighted exponential of an object under the shift of its query.
pub open spec fn weighted_exp<F: Smooth>(approx: Seq<F>, weights: Seq<F>, max: F, beta: F) -> spec_fn(int) -> F {
    |i: int| beta.times_spec(approx[i].minus_spec(max)).exp_spec().times_spec(weights[i])
}

/// The derivatives of the query-wise softmax at object `i` of the query from `begin` to
/// `end`. An object without weight, or a query without relevant weight, has none.
pub open spec fn softmax_ders<F: Smooth>(
    approx: Seq<F>,
    target: Seq<F>,
    weights: Seq<F>,
    begin: int,
    end: int,
    max: F,
    beta: F,
    lambda: F,
    i: int,
) -> (F, F) {
    let zero = F::zero_spec();
    let sum_wt = relevant_weight(target, weights, begin, end);
    let sum_exp = query_sum(weighted_exp(approx, weights, max, beta), begin, end);
    if sum_wt.above_spec(zero) && weights[i].above_spec(zero) && sum_exp.above_spec(zero) {
        let p = weighted_exp(approx, weights, max, beta)(i).over_spec(sum_exp);
        (
            beta.times_spec(
                sum_wt.negated_spec().times_spec(p).plus_spec(weights[i].times_spec(target[i])),
            ),
            beta.times_spec(sum_wt).times_spec(
                beta.times_spec(p).times_spec(p.minus_spec(F::one_spec())).minus_spec(lambda),
            ),
        )
    } else {
        (zero, zero)
    }
}

/// The derivatives of the query-wise softmax at object `i` of query `g`.
pub open spec fn softmax_at<F: Smooth>(
    approx: Seq<F>,
    target: Seq<F>,
    weights: Seq<F>,
    q_offsets: Seq<u32>,
    group_max: Seq<F>,
    beta: F,
    lambda: F,
    g: int,
    i: int,
) -> (F, F) {
    softmax_ders(
        approx,
        target,
        weights,
        q_offsets[g] as int,
        q_offsets[g + 1] as int,
        group_max[g],
        beta,
        lambda,
        i,
    )
}

/// The relevant weight and the sum of weighted exponentials of a query.
fn softmax_sums<F: Smooth>(
    approx: &[F],
    target: &[F],
    weights: &[F],
    begin: usize,
    end: usize,
    max: F,
    beta: F,
) -> (r: (F, F))
    requires
        begin <= end <= approx@.len(),
        approx@.len() == target@.len(),
        approx@.len() == weights@.len(),
    ensures
        r.0 == relevant_weight(target@, weights@, begin as int, end as int),
        r.1 == query_sum(weighted_exp(approx@, weights@, max, beta), begin as int, end as int),
{
    let mut sum_wt: F = F::zero();
    let mut sum_exp: F = F::zero();
    let mut i: usize = begin;
    while i < end
        invariant
            begin <= i <= end,
            end <= approx@.len(),
            approx@.len() == target@.len(),
            approx@.len() == weights@.len(),
            sum_wt == relevant_weight(target@, weights@, begin as int, i as int),
            sum_exp == query_sum(weighted_exp(approx@, weights@, max, beta), begin as int, i as int),
        decreases end - i,
    {
        let w: F = weights[i];
        let t: F = target[i];
        if w.above(F::zero()) && t.above(F::zero()) {
            sum_wt = sum_wt.plus(w.times(t));
        }
        sum_exp = sum_exp.plus(beta.times(approx[i].minus(max)).exp().times(w));
        i = i + 1;
    }
    (sum_wt, sum_exp)
}

/// The derivatives of the query-wise softmax, from the shift of each query.
pub fn query_softmax_der_kernel<F: Smooth>(
    approx: &[F],
    target: &[F],
    weights: &[F],
    q_offsets: &[u32],
    group_max: &[F],
    beta: F,
    lambda: F,
) -> (r: (Vec<F>, Vec<F>))
    requires
        approx@.len() == target@.len(),
        approx@.len() == weights@.len(),
        offsets_cover(q_offsets@, approx@.len() as int),
        group_max@.len() == query_count(q_offsets@),
    ensures
        r.0@.len() == approx@.len(),
        r.1@.len() == approx@.len(),
        forall|g: int, i: int| #[trigger]
            in_query(q_offsets@, g, i) ==> (r.0@[i], r.1@[i]) == softmax_at(
                approx@,
                target@,
                weights@,
                q_offsets@,
                group_max@,
                beta,
                lambda,
                g,
                i,
            ),
{
    let n: usize = approx.len();
    let m: usize = q_offsets.len();
    let mut der1: Vec<F> = Vec::new();
    let mut der2: Vec<F> = Vec::new();
    let mut g: usize = 0;
    while g + 1 < m
        invariant
            m == q_offsets@.len(),
            g + 1 <= m,
            n == approx@.len(),
            n == target@.len(),
            n == weights@.len(),
            group_max@.len() == query_count(q_offsets@),
            offsets_cover(q_offsets@, n as int),
            der1@.len() == q_offsets@[g as int],
            der2@.len() == q_offsets@[g as int],
            forall|h: int, i: int| #[trigger]
                in_query(q_offsets@, h, i) && h < g ==> (der1@[i], der2@[i]) == softmax_at(
                    approx@,
                    target@,
                    weights@,
                    q_offsets@,
                    group_max@,
                    beta,
                    lambda,
                    h,
                    i,
                ),
        decreases m - g,
    {
        let begin: usize = q_offsets[g] as usize;
        let end: usize = q_offsets[g + 1] as usize;
        proof {
            lemma_cover_within(q_offsets@, n as int, g + 1);
            assert(q_offsets@[g as int] <= q_offsets@[g + 1]);
        }
        let max: F = group_max[g];
        let (sum_wt, sum_exp) = softmax_sums(approx, target, weights, begin, end, max, beta);
        let ghost before1 = der1@;
        let ghost before2 = der2@;
        let mut i: usize = begin;
        while i < end
            invariant
                begin <= i <= end,
                end <= n,
                g + 1 < m,
                m == q_offsets@.len(),
                n == approx@.len(),
                n == target@.len(),
                n == weights@.len(),
                max == group_max@[g as int],
                begin == q_offsets@[g as int],
                end == q_offsets@[g + 1],
                sum_wt == relevant_weight(target@, weights@, begin as int, end as int),
                sum_exp == query_sum(weighted_exp(approx@, weights@, max, beta), begin as int, end as int),
                before1.len() == begin,
                before2.len() == begin,
                der1@.len() == i,
                der2@.len() == i,
                forall|k: int| 0 <= k < begin ==> #[trigger] der1@[k] == before1[k],
                forall|k: int| 0 <= k < begin ==> #[trigger] der2@[k] == before2[k],
                forall|k: int|
                    begin <= k < i ==> (#[trigger] der1@[k], #[trigger] der2@[k]) == softmax_at(
                        approx@,
                        target@,
                        weights@,
                        q_offsets@,
                        group_max@,
                        beta,
                        lambda,
                        g as int,
                        k,
                    ),
            decreases end - i,
        {
            let w: F = weights[i];
            let mut e1: F = F::zero();
            let mut e2: F = F::zero();
            if sum_wt.above(F::zero()) && w.above(F::zero()) && sum_exp.above(F::zero()) {
                let p: F = beta.times(approx[i].minus(max)).exp().times(w).over(sum_exp);
                e1 = beta.times(sum_wt.negated().times(p).plus(w.times(target[i])));
                e2 = beta.times(sum_wt).times(beta.times(p).times(p.minus(F::one())).minus(lambda));
            }
            assert((e1, e2) == softmax_at(approx@, target@, weights@, q_offsets@, group_max@, beta, lambda, g as int, i as int));
            der1.push(e1);
            der2.push(e2);
            i = i + 1;
        }
        proof {
            assert forall|h: int, i: int| #[trigger] in_query(q_offsets@, h, i) && h < g + 1 implies (der1@[i], der2@[i]) == softmax_at(
                approx@,
                target@,
                weights@,
                q_offsets@,
                group_max@,
                beta,
                lambda,
                h,
                i,
            ) by {
                if h < g {
                    lemma_offsets_ascend(q_offsets@, n as int, h + 1, g as int);
                    assert((before1[i], before2[i]) == softmax_at(approx@, target@, weights@, q_offsets@, group_max@, beta, lambda, h, i));
                }
            }
        }
        g = g + 1;
    }
    (der1, der2)
}

/// The derivatives of the query-wise softmax. The shift of a query is the greatest
/// approximation among its weighted objects.
pub fn query_softmax_ders_host<F: Smooth>(
    backend: Backend,
    approx: &[F],
    target: &[F],
    weights: &[F],
    q_offsets: &[u32],
    beta: F,
    lambda: F,
) -> (r: CbResult<(Vec<F>, Vec<F>)>)
    ensures
        match ranking_fault(approx@.len(), target@.len(), q_offsets@.len()) {
            Some(e) => r == Err::<(Vec<F>, Vec<F>), CbError>(e),
            None => if approx@.len() == 0 {
                r matches Ok((der1, der2)) && der1@.len() == 0 && der2@.len() == 0
            } else {
                match query_fault(backend, weights@, q_offsets@, approx@.len()) {
                    Some(e) => r == Err::<(Vec<F>, Vec<F>), CbError>(e),
                    None => {
                        let w = weights_or_one(weights@, approx@.len());
                        r matches Ok((der1, der2)) && {
                            &&& der1@.len() == approx@.len()
                            &&& der2@.len() == approx@.len()
                            &&& forall|g: int, i: int| #[trigger]
                                in_query(q_offsets@, g, i) ==> (der1@[i], der2@[i]) == softmax_ders(
                                    approx@,
                                    target@,
                                    w,
                                    q_offsets@[g] as int,
                                    q_offsets@[g + 1] as int,
                                    weighted_max(approx@, w, q_offsets@[g] as int, q_offsets@[g + 1] as int),
                                    beta,
                                    lambda,
                                    i,
                                )
                        }
                    },
                }
            },
        },
{
    match validate_ranking_inputs(approx, target, q_offsets) {
        Ok(_) => {},
        Err(e) => {
            return Err(e);
        },
    }
    let n: usize = approx.len();
    if n == 0 {
        return Ok((Vec::new(), Vec::new()));
    }
    if backend == Backend::Wgpu {
        return Err(CbError::OutOfRange(RangeFault::NoDoubles(DoubleUse::QueryDer)));
    }
    let column: Vec<F> = match weight_column(weights, n) {
        Ok(column) => column,
        Err(e) => {
            return Err(e);
        },
    };
    if !covers(q_offsets, n) {
        return Err(CbError::Degenerate(Degeneracy::QueryOffsets));
    }
    proof {
        assert forall|g: int| 0 <= g < q_offsets@.len() implies #[trigger] q_offsets@[g] <= n by {
            lemma_cover_within(q_offsets@, n as int, g);
        }
    }
    let group_max: Vec<F> = compute_group_max_weighted_host(approx, column.as_slice(), q_offsets);
    Ok(query_softmax_der_kernel(approx, target, column.as_slice(), q_offsets, group_max.as_slice(), beta, lambda))
}

/// The chance of an object under a shift.
pub open spec fn shifted_chance<F: Smooth>(a: F, shift: F) -> F {
    F::one_spec().over_spec(F::one_spec().plus_spec(F::zero_spec().minus_spec(a.plus_spec(shift)).exp_spec()))
}

/// The weighted chances of a query under a shift.
pub open spec fn shifted_mass<F: Smooth>(approx: Seq<F>, weights: Seq<F>, begin: int, end: int, shift: F) -> F {
    query_sum(|i: int| weights[i].times_spec(shifted_chance(approx[i], shift)), begin, end)
}

/// The derivative of the weighted chances of a query by the shift.
pub open spec fn shifted_slope<F: Smooth>(approx: Seq<F>, weights: Seq<F>, begin: int, end: int, shift: F) -> F {
    query_sum(
        |i: int|
            weights[i].times_spec(shifted_chance(approx[i], shift)).times_spec(
                F::one_spec().minus_spec(shifted_chance(approx[i], shift)),
            ),
        begin,
        end,
    )
}

/// The weighted targets of a query.
pub open spec fn target_mass<F: Smooth>(target: Seq<F>, weights: Seq<F>, begin: int, end: int) -> F {
    query_sum(|i: int| weights[i].times_spec(target[i]), begin, end)
}

/// The bracket of the shift after `k` halvings.
pub open spec fn shift_bracket<F: Smooth>(
    approx: Seq<F>,
    target: Seq<F>,
    weights: Seq<F>,
    begin: int,
    end: int,
    bracket: F,
    k: nat,
) -> (F, F)
    decreases k,
{
    if k == 0 {
        (F::zero_spec().minus_spec(bracket), bracket)
    } else {
        let (lo, hi) = shift_bracket(approx, target, weights, begin, end, bracket, (k - 1) as nat);
        let mid = F::half_spec().times_spec(lo.plus_spec(hi));
        if target_mass(target, weights, begin, end).above_spec(shifted_mass(approx, weights, begin, end, mid)) {
            (mid, hi)
        } else {
            (lo, mid)
        }
    }
}

/// The shift after `k` refinements of the middle of its bracket.
pub open spec fn refined_shift<F: Smooth>(
    approx: Seq<F>,
    target: Seq<F>,
    weights: Seq<F>,
    begin: int,
    end: int,
    bracket: F,
    k: nat,
) -> F
    decreases k,
{
    if k == 0 {
        let (lo, hi) = shift_bracket(approx, target, weights, begin, end, bracket, QCE_SHIFT_BISECTION_ITERS as nat);
        F::half_spec().times_spec(lo.plus_spec(hi))
    } else {
        let b = refined_shift(approx, target, weights, begin, end, bracket, (k - 1) as nat);
        let slope = shifted_slope(approx, weights, begin, end, b);
        if slope.above_spec(F::zero_spec()) {
            b.minus_spec(
                shifted_mass(approx, weights, begin, end, b).minus_spec(
                    target_mass(target, weights, begin, end),
                ).over_spec(slope),
            )
        } else {
            b
        }
    }
}

/// The weighted targets, or the weighted chances and their derivative, of a query.
fn masses_of_query<F: Smooth>(approx: &[F], weights: &[F], begin: usize, end: usize, shift: F) -> (r: (F, F))
    requires
        end <= approx@.len(),
        approx@.len() == weights@.len(),
    ensures
        r.0 == shifted_mass(approx@, weights@, begin as int, end as int, shift),
        r.1 == shifted_slope(approx@, weights@, begin as int, end as int, shift),
{
    let ghost mass_of = |i: int| weights@[i].times_spec(shifted_chance(approx@[i], shift));
    let ghost slope_of = |i: int|
        weights@[i].times_spec(shifted_chance(approx@[i], shift)).times_spec(
            F::one_spec().minus_spec(shifted_chance(approx@[i], shift)),
        );
    let mut mass: F = F::zero();
    let mut slope: F = F::zero();
    let mut i: usize = begin;
    while i < end
        invariant
            begin <= i,
            i <= end || (begin > end && i == begin),
            end <= approx@.len(),
            approx@.len() == weights@.len(),
            mass_of == (|i: int| weights@[i].times_spec(shifted_chance(approx@[i], shift))),
            slope_of == (|i: int|
                weights@[i].times_spec(shifted_chance(approx@[i], shift)).times_spec(
                    F::one_spec().minus_spec(shifted_chance(approx@[i], shift)),
                )),
            mass == query_sum(mass_of, begin as int, i as int),
            slope == query_sum(slope_of, begin as int, i as int),
        decreases end - i,
    {
        let z: F = approx[i].plus(shift);
        let p: F = F::one().over(F::one().plus(F::zero().minus(z).exp()));
        let wp: F = weights[i].times(p);
        mass = mass.plus(wp);
        slope = slope.plus(wp.times(F::one().minus(p)));
        i = i + 1;
    }
    assert(mass == query_sum(mass_of, begin as int, end as int));
    assert(slope == query_sum(slope_of, begin as int, end as int));
    (mass, slope)
}

/// The weighted targets of a query.
fn targets_of_query<F: Smooth>(target: &[F], weights: &[F], begin: usize, end: usize) -> (r: F)
    requires
        end <= target@.len(),
        target@.len() == weights@.len(),
    ensures
        r == target_mass(target@, weights@, begin as int, end as int),
{
    let ghost term_of = |i: int| weights@[i].times_spec(target@[i]);
    let mut sum: F = F::zero();
    let mut i: usize = begin;
    while i < end
        invariant
            begin <= i,
            i <= end || (begin > end && i == begin),
            end <= target@.len(),
            target@.len() == weights@.len(),
            term_of == (|i: int| weights@[i].times_spec(target@[i])),
            sum == query_sum(term_of, begin as int, i as int),
        decreases end - i,
    {
        sum = sum.plus(weights[i].times(target[i]));
        i = i + 1;
    }
    assert(sum == query_sum(term_of, begin as int, end as int));
    sum
}

/// The shift of a query: a fixed number of halvings of the bracket, then a fixed number of
/// refinements.
fn shift_of_query<F: Smooth>(approx: &[F], target: &[F], weights: &[F], begin: usize, end: usize, bracket: F) -> (r: F)
    requires
        end <= approx@.len(),
        approx@.len() == target@.len(),
        approx@.len() == weights@.len(),
    ensures
        r == refined_shift(approx@, target@, weights@, begin as int, end as int, bracket, QCE_SHIFT_NEWTON_ITERS as nat),
{
    let t_mass: F = targets_of_query(target, weights, begin, end);
    let mut lo: F = F::zero().minus(bracket);
    let mut hi: F = bracket;
    let mut it: u32 = 0;
    while it < QCE_SHIFT_BISECTION_ITERS
        invariant
            it <= QCE_SHIFT_BISECTION_ITERS,
            end <= approx@.len(),
            approx@.len() == weights@.len(),
            t_mass == target_mass(target@, weights@, begin as int, end as int),
            (lo, hi) == shift_bracket(approx@, target@, weights@, begin as int, end as int, bracket, it as nat),
        decreases QCE_SHIFT_BISECTION_ITERS - it,
    {
        let mid: F = F::half().times(lo.plus(hi));
        let (mass, _) = masses_of_query(approx, weights, begin, end, mid);
        if t_mass.above(mass) {
            lo = mid;
        } else {
            hi = mid;
        }
        it = it + 1;
    }
    let mut b: F = F::half().times(lo.plus(hi));
    let mut nit: u32 = 0;
    while nit < QCE_SHIFT_NEWTON_ITERS
        invariant
            nit <= QCE_SHIFT_NEWTON_ITERS,
            end <= approx@.len(),
            approx@.len() == weights@.len(),
            t_mass == target_mass(target@, weights@, begin as int, end as int),
            b == refined_shift(approx@, target@, weights@, begin as int, end as int, bracket, nit as nat),
        decreases QCE_SHIFT_NEWTON_ITERS - nit,
    {
        let (mass, slope) = masses_of_query(approx, weights, begin, end, b);
        if slope.above(F::zero()) {
            b = b.minus(mass.minus(t_mass).over(slope));
        }
        nit = nit + 1;
    }
    b
}

/// The shifts of the queries, for a cross-entropy over queries.
pub open spec fn query_shifts<F: Smooth>(
    approx: Seq<F>,
    target: Seq<F>,
    weights: Seq<F>,
    q_offsets: Seq<u32>,
    bracket: F,
) -> Seq<F> {
    Seq::new(
        query_count(q_offsets) as nat,
        |g: int|
            refined_shift(
                approx,
                target,
                weights,
                q_offsets[g] as int,
                q_offsets[g + 1] as int,
                bracket,
                QCE_SHIFT_NEWTON_ITERS as nat,
            ),
    )
}

/// Searches the shift of each query under which its weighted chances match its weighted
/// targets.
pub fn query_cross_entropy_shift_kernel<F: Smooth>(
    approx: &[F],
    target: &[F],
    weights: &[F],
    q_offsets: &[u32],
    bracket: F,
) -> (r: Vec<F>)
    requires
        approx@.len() == target@.len(),
        approx@.len() == weights@.len(),
        q_offsets@.len() > 0,
        offsets_within(q_offsets@, approx@.len() as int),
    ensures
        r@ == query_shifts(approx@, target@, weights@, q_offsets@, bracket),
{
    let m: usize = q_offsets.len();
    let mut out: Vec<F> = Vec::new();
    let mut g: usize = 0;
    while g + 1 < m
        invariant
            m == q_offsets@.len(),
            g + 1 <= m,
            approx@.len() == target@.len(),
            approx@.len() == weights@.len(),
            offsets_within(q_offsets@, approx@.len() as int),
            out@.len() == g,
            forall|h: int| 0 <= h < g ==> #[trigger] out@[h] == query_shifts(approx@, target@, weights@, q_offsets@, bracket)[h],
        decreases m - g,
    {
        assert(q_offsets@[g + 1] <= approx@.len());
        let b: F = shift_of_query(approx, target, weights, q_offsets[g] as usize, q_offsets[g + 1] as usize, bracket);
        out.push(b);
        g = g + 1;
    }
    assert(out@ =~= query_shifts(approx@, target@, weights@, q_offsets@, bracket));
    out
}

/// The shifts of the queries.
pub fn query_cross_entropy_shifts_host<F: Smooth>(
    backend: Backend,
    approx: &[F],
    target: &[F],
    weights: &[F],
    q_offsets: &[u32],
) -> (r: CbResult<Vec<F>>)
    requires
        offsets_within(q_offsets@, approx@.len() as int),
    ensures
        match ranking_fault(approx@.len(), target@.len(), q_offsets@.len()) {
            Some(e) => r == Err::<Vec<F>, CbError>(e),
            None => if approx@.len() == 0 || query_count(q_offsets@) == 0 {
                r matches Ok(shifts) && shifts@.len() == 0
            } else if backend == Backend::Wgpu {
                r == Err::<Vec<F>, CbError>(CbError::OutOfRange(RangeFault::NoDoubles(DoubleUse::QueryDer)))
            } else if weights@.len() != 0 && weights@.len() != approx@.len() {
                r == Err::<Vec<F>, CbError>(
                    CbError::Degenerate(
                        Degeneracy::WeightLength { expected: approx@.len() as usize, actual: weights@.len() as usize },
                    ),
                )
            } else {
                r matches Ok(shifts) && shifts@ == query_shifts(
                    approx@,
                    target@,
                    weights_or_one(weights@, approx@.len()),
                    q_offsets@,
                    F::count_spec(QCE_SHIFT_BRACKET),
                )
            },
        },
{
    match validate_ranking_inputs(approx, target, q_offsets) {
        Ok(_) => {},
        Err(e) => {
            return Err(e);
        },
    }
    let n: usize = approx.len();
    if n == 0 || q_offsets.len() == 1 {
        return Ok(Vec::new());
    }
    if backend == Backend::Wgpu {
        return Err(CbError::OutOfRange(RangeFault::NoDoubles(DoubleUse::QueryDer)));
    }
    let column: Vec<F> = match weight_column(weights, n) {
        Ok(column) => column,
        Err(e) => {
            return Err(e);
        },
    };
    Ok(query_cross_entropy_shift_kernel(approx, target, column.as_slice(), q_offsets, F::count(QCE_SHIFT_BRACKET)))
}

/// The seed of query `q`: the run's seed gives a block seed, and the block seed gives one
/// draw per query.
pub open spec fn query_seed(random_seed: u64, q: nat) -> u64 {
    draw_of(seeded_state(draw_of(seeded_state(random_seed), 1)), q + 1)
}

/// The seeds of the queries.
pub fn derive_query_seeds_inline(random_seed: u64, n_queries: usize) -> (r: Vec<u64>)
    ensures
        r@ == Seq::new(n_queries as nat, |q: int| query_seed(random_seed, q as nat)),
{
    let mut outer: TFastRng64 = TFastRng64::from_seed(random_seed);
    let block_seed: u64 = outer.gen_rand();
    let mut rng: TFastRng64 = TFastRng64::from_seed(block_seed);
    let ghost start = rng@;
    let mut seeds: Vec<u64> = Vec::new();
    assert(rng@ =~= state_after(start, 0));
    let mut q: usize = 0;
    while q < n_queries
        invariant
            q <= n_queries,
            start == seeded_state(draw_of(seeded_state(random_seed), 1)),
            rng@ == state_after(start, q as nat),
            seeds@.len() == q,
            forall|k: int| 0 <= k < q ==> #[trigger] seeds@[k] == query_seed(random_seed, k as nat),
        decreases n_queries - q,
    {
        proof {
            law_draw_after_advance(start, q as nat);
            law_advance_adds_up(start, q as nat, 1);
        }
        let seed: u64 = rng.gen_rand();
        seeds.push(seed);
        q = q + 1;
    }
    seeds
}

/// The uniform draws that the perturbed orders of `n` objects take.
pub fn yetirank_draw_count(n: usize, permutations: u32) -> (r: usize)
    requires
        permutations * n <= usize::MAX,
    ensures
        r == permutations * n,
{
    proof {
        assert(permutations <= usize::MAX || n == 0) by (nonlinear_arith)
            requires
                permutations * n <= usize::MAX,
        ;
    }
    permutations as usize * n
}

/// A value comes before another in a descending order: it is above, or level and earlier.
pub open spec fn comes_first<F: Real>(values: Seq<F>, p: int, q: int) -> bool {
    values[p].above_spec(values[q]) || (ties_spec(values[p], values[q]) && p < q)
}

/// From `begin` to `end`, `order` lists the positions from `begin` to `end`, from the
/// greatest value to the least, level ones in ascending position. (As no position comes
/// before itself, none is listed twice.)
pub open spec fn descending_between<F: Real>(values: Seq<F>, order: Seq<u32>, begin: int, end: int) -> bool {
    &&& forall|i: int| begin <= i < end ==> begin <= #[trigger] order[i] < end
    &&& forall|i: int, j: int|
        begin <= i < j < end ==> comes_first(values, #[trigger] order[i] as int, #[trigger] order[j] as int)
}

/// Each query's part of `order` lists the query's objects in descending order.
pub open spec fn descending_in_queries<F: Real>(values: Seq<F>, q_offsets: Seq<u32>, order: Seq<u32>) -> bool {
    &&& order.len() == values.len()
    &&& forall|g: int|
        0 <= g < query_count(q_offsets) ==> descending_between(
            values,
            order,
            #[trigger] q_offsets[g] as int,
            q_offsets[g + 1] as int,
        )
}

/// What is listed after `end` does not matter to the order before it.
proof fn lemma_descending_kept<F: Real>(values: Seq<F>, before: Seq<u32>, more: Seq<u32>, begin: int, end: int)
    requires
        0 <= begin,
        end <= before.len(),
        descending_between(values, before, begin, end),
    ensures
        descending_between(values, before + more, begin, end),
{
    let order = before + more;
    assert forall|i: int| begin <= i < end implies begin <= #[trigger] order[i] < end by {
        assert(order[i] == before[i]);
    }
    assert forall|i: int, j: int| begin <= i < j < end implies comes_first(values, #[trigger] order[i] as int, #[trigger] order[j] as int) by {
        assert(order[i] == before[i] && order[j] == before[j]);
    }
}

/// The order of a query, listed after the orders of the queries before it.
proof fn lemma_descending_added<F: Real>(values: Seq<F>, before: Seq<u32>, more: Seq<u32>, end: int)
    requires
        before.len() + more.len() == end,
        forall|i: int| 0 <= i < more.len() ==> before.len() <= #[trigger] more[i] < end,
        forall|i: int, j: int|
            0 <= i < j < more.len() ==> comes_first(values, #[trigger] more[i] as int, #[trigger] more[j] as int),
    ensures
        descending_between(values, before + more, before.len() as int, end),
{
    let order = before + more;
    let begin = before.len() as int;
    assert forall|i: int| begin <= i < end implies begin <= #[trigger] order[i] < end by {
        assert(order[i] == more[i - begin]);
    }
    assert forall|i: int, j: int| begin <= i < j < end implies comes_first(values, #[trigger] order[i] as int, #[trigger] order[j] as int) by {
        assert(order[i] == more[i - begin] && order[j] == more[j - begin]);
    }
}

/// Numbers that are not negative.
pub open spec fn none_negative<F: Real>(values: Seq<F>) -> bool {
    forall|i: int|
        0 <= i < values.len() ==> (#[trigger] values[i]).is_number() && !F::zero_spec().above_spec(values[i])
}

/// The stable descending order of one query's values.
fn order_of_query<F: Smooth>(values: &[F], begin: usize, end: usize) -> (r: Vec<u32>)
    requires
        begin <= end <= values@.len(),
        values@.len() <= u32::MAX,
        none_negative(values@),
    ensures
        r@.len() == end - begin,
        forall|i: int| 0 <= i < r@.len() ==> begin <= #[trigger] r@[i] < end,
        forall|i: int, j: int| 0 <= i < j < r@.len() ==> comes_first(values@, #[trigger] r@[i] as int, #[trigger] r@[j] as int),
{
    let mut keys: Vec<u64> = Vec::new();
    let mut i: usize = begin;
    while i < end
        invariant
            begin <= i <= end <= values@.len(),
            keys@.len() == i - begin,
            forall|k: int| 0 <= k < keys@.len() ==> #[trigger] keys@[k] == u64::MAX - values@[begin + k].sort_key_spec(),
        decreases end - i,
    {
        let key: u64 = values[i].sort_key();
        keys.push(u64::MAX - key);
        i = i + 1;
    }
    let order: Vec<u32> = radix_order(&keys);
    let size: usize = order.len();
    let mut out: Vec<u32> = Vec::new();
    let mut k: usize = 0;
    while k < size
        invariant
            k <= size,
            size == order@.len(),
            size == keys@.len(),
            size == end - begin,
            begin <= end <= u32::MAX,
            ascending_order(keys@, order@),
            out@.len() == k,
            forall|i: int| 0 <= i < k ==> #[trigger] out@[i] == begin + order@[i],
        decreases size - k,
    {
        assert(order@[k as int] < keys@.len());
        out.push(begin as u32 + order[k]);
        k = k + 1;
    }
    proof {
        assert forall|i: int| 0 <= i < out@.len() implies begin <= #[trigger] out@[i] < end by {
            assert(order@[i] < keys@.len());
        }
        assert forall|i: int, j: int| 0 <= i < j < out@.len() implies comes_first(values@, #[trigger] out@[i] as int, #[trigger] out@[j] as int) by {
            let p = order@[i] as int;
            let q = order@[j] as int;
            assert(order@[i] < keys@.len() && order@[j] < keys@.len());
            assert(keys@[p] < keys@[q] || (keys@[p] == keys@[q] && p < q));
            let x = values@[begin + p];
            let y = values@[begin + q];
            F::sort_key_laws(x, y);
            F::sort_key_laws(y, x);
        }
    }
    out
}

/// The stable descending order of the values of each query.
pub fn descending_order_per_query<F: Smooth>(values: &[F], q_offsets: &[u32]) -> (r: CbResult<Vec<u32>>)
    requires
        values@.len() <= u32::MAX,
        none_negative(values@),
    ensures
        if offsets_cover(q_offsets@, values@.len() as int) {
            r matches Ok(order) && descending_in_queries(values@, q_offsets@, order@)
        } else {
            r == Err::<Vec<u32>, CbError>(CbError::Degenerate(Degeneracy::QueryOffsets))
        },
{
    let n: usize = values.len();
    if !covers(q_offsets, n) {
        return Err(CbError::Degenerate(Degeneracy::QueryOffsets));
    }
    let m: usize = q_offsets.len();
    let mut out: Vec<u32> = Vec::new();
    let mut g: usize = 0;
    while g + 1 < m
        invariant
            m == q_offsets@.len(),
            g + 1 <= m,
            n == values@.len(),
            n <= u32::MAX,
            none_negative(values@),
            offsets_cover(q_offsets@, n as int),
            out@.len() == q_offsets@[g as int],
            forall|h: int|
                0 <= h < g ==> descending_between(values@, out@, #[trigger] q_offsets@[h] as int, q_offsets@[h + 1] as int),
        decreases m - g,
    {
        let begin: usize = q_offsets[g] as usize;
        let end: usize = q_offsets[g + 1] as usize;
        proof {
            lemma_cover_within(q_offsets@, n as int, g + 1);
            assert(q_offsets@[g as int] <= q_offsets@[g + 1]);
        }
        let order: Vec<u32> = order_of_query(values, begin, end);
        let size: usize = order.len();
        let ghost before = out@;
        let mut k: usize = 0;
        while k < size
            invariant
                k <= size,
                size == order@.len(),
                out@ == before + order@.subrange(0, k as int),
            decreases size - k,
        {
            out.push(order[k]);
            k = k + 1;
            assert(out@ =~= before + order@.subrange(0, k as int));
        }
        proof {
            assert(out@ =~= before + order@);
            assert forall|h: int| 0 <= h < g + 1 implies descending_between(
                values@,
                out@,
                #[trigger] q_offsets@[h] as int,
                q_offsets@[h + 1] as int,
            ) by {
                if h < g {
                    lemma_offsets_ascend(q_offsets@, n as int, h + 1, g as int);
                    lemma_descending_kept(values@, before, order@, q_offsets@[h] as int, q_offsets@[h + 1] as int);
                } else {
                    lemma_descending_added(values@, before, order@, end as int);
                }
            }
        }
        g = g + 1;
    }
    Ok(out)
}

} // verus!
