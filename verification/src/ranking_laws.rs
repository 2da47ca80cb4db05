//! What the query-wise derivatives are as numbers, and what holds over a query.

use vstd::prelude::*;
use crate::cell_laws::run_total;
use crate::channel::Real;
use crate::config::Backend;
use crate::exact::{
    exact, lemma_cancel, lemma_distribute, lemma_minus, lemma_ratio, lemma_regroup, lemma_times_minus,
};
use crate::ranking::{
    centered_residual, comes_first, derive_query_seeds_inline, descending_between, descending_order_per_query,
    in_query, query_cross_entropy_shift_kernel, query_cross_entropy_shifts_host, query_mean, query_rmse_ders_host,
    query_shifts, query_softmax_ders_host, query_sum, refined_shift, relevant_weight, shift_bracket, shifted_chance,
    shifted_mass, shifted_slope, softmax_ders, target_mass, weighted_exp, weighted_max, weights_or_one,
};
use crate::rng::{draw_of, law_draw_after_advance, seeded_state, state_after};
use crate::smooth::Smooth;

verus! {

/// The sum of numbers from `begin` to `end`.
pub open spec fn number_sum(f: spec_fn(int) -> real, begin: int, end: int) -> real
    decreases end - begin,
{
    if end <= begin {
        0 as real
    } else {
        number_sum(f, begin, end - 1) + f(end - 1)
    }
}

proof fn lemma_number_sum_scaled(f: spec_fn(int) -> real, g: spec_fn(int) -> real, m: real, h: spec_fn(int) -> real, begin: int, end: int)
    requires
        forall|i: int| begin <= i < end ==> #[trigger] h(i) == f(i) - m * g(i),
    ensures
        number_sum(h, begin, end) == number_sum(f, begin, end) - m * number_sum(g, begin, end),
    decreases end - begin,
{
    if end > begin {
        lemma_number_sum_scaled(f, g, m, h, begin, end - 1);
        let (a, b) = (number_sum(g, begin, end - 1), g(end - 1));
        assert(h(end - 1) == f(end - 1) - m * g(end - 1));
        assert(m * (a + b) == m * a + m * b) by (nonlinear_arith);
    }
}

/// A sum of elements is the sum of their numbers, as far as every partial sum has room.
proof fn lemma_query_sum<F: Real>(
    val: spec_fn(F) -> real,
    room: spec_fn(real) -> bool,
    f: spec_fn(int) -> F,
    g: spec_fn(int) -> real,
    begin: int,
    end: int,
)
    requires
        exact(val, room),
        begin <= end,
        forall|i: int| begin <= i < end ==> val(f(i)) == #[trigger] g(i),
        forall|k: int| begin <= k <= end ==> room(#[trigger] number_sum(g, begin, k)),
    ensures
        val(query_sum(f, begin, end)) == number_sum(g, begin, end),
    decreases end - begin,
{
    if end > begin {
        lemma_query_sum(val, room, f, g, begin, end - 1);
        assert(val(f(end - 1)) == g(end - 1));
        assert(room(number_sum(g, begin, end)));
    }
}

/// The steps of a query-wise squared error over the query from `begin` to `end` have room.
pub open spec fn centered_fits<F: Real>(
    val: spec_fn(F) -> real,
    room: spec_fn(real) -> bool,
    approx: Seq<F>,
    target: Seq<F>,
    w: Seq<F>,
    begin: int,
    end: int,
) -> bool {
    let weight = |i: int| val(w[i]);
    let pull = |i: int| val(w[i]) * (val(target[i]) - val(approx[i]));
    let mean = number_sum(pull, begin, end) / number_sum(weight, begin, end);
    &&& forall|k: int| begin <= k <= end ==> room(#[trigger] number_sum(weight, begin, k))
    &&& forall|k: int| begin <= k <= end ==> room(#[trigger] number_sum(pull, begin, k))
    &&& room(mean)
    &&& forall|i: int| #![trigger w[i]]
        begin <= i < end ==> {
            let res = val(target[i]) - val(approx[i]);
            &&& room(res)
            &&& room(val(w[i]) * res)
            &&& room(res - mean)
            &&& room((res - mean) * val(w[i]))
            &&& room(-val(w[i]))
        }
}

/// The first derivatives of the query-wise squared error cancel over every query that weighs
/// anything, and two objects of a query differ by their residuals: per unit of weight, the
/// difference of their derivatives is the difference of their residuals. The second
/// derivative is the negated weight.
pub proof fn law_query_rmse_cancels<F: Real>(
    val: spec_fn(F) -> real,
    room: spec_fn(real) -> bool,
    backend: Backend,
    approx: &[F],
    target: &[F],
    weights: &[F],
    q_offsets: &[u32],
    der1: Vec<F>,
    der2: Vec<F>,
    g: int,
    i: int,
    j: int,
)
    requires
        exact(val, room),
        call_ensures(query_rmse_ders_host::<F>, (backend, approx, target, weights, q_offsets), Ok((der1, der2))),
        approx@.len() > 0,
        weights@.len() == approx@.len(),
        in_query(q_offsets@, g, i),
        in_query(q_offsets@, g, j),
        ({
            let (begin, end) = (q_offsets@[g] as int, q_offsets@[g + 1] as int);
            &&& centered_fits(val, room, approx@, target@, weights@, begin, end)
            &&& number_sum(|i: int| val(weights@[i]), begin, end) > 0 as real
        }),
    ensures
        number_sum(|i: int| val(der1@[i]), q_offsets@[g] as int, q_offsets@[g + 1] as int) == 0 as real,
        val(der1@[i]) * val(weights@[j]) - val(der1@[j]) * val(weights@[i]) == ((val(target@[i]) - val(approx@[i])) - (val(target@[j])
            - val(approx@[j]))) * (val(weights@[i]) * val(weights@[j])),
        val(der2@[i]) == -val(weights@[i]),
{
    let (begin, end) = (q_offsets@[g] as int, q_offsets@[g + 1] as int);
    let w = weights_or_one(weights@, approx@.len());
    assert(w =~= weights@);
    let weight = |i: int| val(weights@[i]);
    let pull = |i: int| val(weights@[i]) * (val(target@[i]) - val(approx@[i]));
    let we = |i: int| w[i];
    let pe = |i: int| w[i].times_spec(target@[i].minus_spec(approx@[i]));
    let total = number_sum(weight, begin, end);
    let sum = number_sum(pull, begin, end);
    assert forall|i: int| begin <= i < end implies val(we(i)) == #[trigger] weight(i) by {}
    assert forall|i: int| begin <= i < end implies val(pe(i)) == #[trigger] pull(i) by {
        assert(room(val(weights@[i]) * (val(target@[i]) - val(approx@[i]))));
        assert(val(target@[i].minus_spec(approx@[i])) == val(target@[i]) - val(approx@[i]));
    }
    lemma_query_sum(val, room, we, weight, begin, end);
    lemma_query_sum(val, room, pe, pull, begin, end);
    let mean = sum / total;
    let me = query_mean(approx@, target@, w, begin, end);
    assert(val(me) == mean);
    let out = |i: int| val(der1@[i]);
    assert forall|i: int| begin <= i < end implies #[trigger] out(i) == pull(i) - mean * weight(i) && out(i) == (val(target@[i]) - val(
        approx@[i],
    ) - mean) * weight(i) && val(der2@[i]) == -weight(i) by {
        assert(in_query(q_offsets@, g, i));
        let res = target@[i].minus_spec(approx@[i]);
        let x = val(target@[i]) - val(approx@[i]);
        assert(weights@[i] == w[i]);
        assert(room(x - mean));
        assert(val(res) == x);
        let c = centered_residual(approx@, target@, w, q_offsets@, g, i);
        assert(val(c) == x - mean);
        assert(der1@[i] == c.times_spec(w[i]));
        let y = weight(i);
        assert((x - mean) * y == y * x - mean * y) by (nonlinear_arith);
    }
    lemma_number_sum_scaled(pull, weight, mean, out, begin, end);
    lemma_ratio(sum, total);
    let (x, y) = (val(target@[i]) - val(approx@[i]), val(target@[j]) - val(approx@[j]));
    let (a, b) = (weight(i), weight(j));
    assert(out(i) == (x - mean) * a);
    assert(out(j) == (y - mean) * b);
    lemma_pulls(x, y, a, b, mean);
}

proof fn lemma_pulls(x: real, y: real, a: real, b: real, m: real)
    ensures
        (x - m) * a * b - (y - m) * b * a == (x - y) * (a * b),
{
    let ab = a * b;
    let (u, v) = (x - m, y - m);
    lemma_regroup(u, a, b);
    lemma_regroup(v, b, a);
    assert(b * a == ab) by (nonlinear_arith)
        requires
            ab == a * b,
    ;
    lemma_distribute(u, v, ab);
}

proof fn lemma_run<F: Real>(f: spec_fn(int) -> F, begin: int, end: int)
    requires
        begin <= end,
    ensures
        query_sum(f, begin, end) == run_total(Seq::new((end - begin) as nat, |k: int| f(begin + k))),
    decreases end - begin,
{
    let all = Seq::new((end - begin) as nat, |k: int| f(begin + k));
    if end > begin {
        lemma_run(f, begin, end - 1);
        assert(all.drop_last() =~= Seq::new((end - 1 - begin) as nat, |k: int| f(begin + k)));
        assert(all.last() == f(end - 1));
    }
}

/// The steps of a query-wise softmax at one object have room: `e` is the object's weighted
/// exponential, `s` that of the query, `m` the relevant weight of the query.
pub open spec fn softmax_fits(room: spec_fn(real) -> bool, w: real, t: real, e: real, s: real, m: real, beta: real, lambda: real) -> bool {
    let p = e / s;
    let one = 1 as real;
    &&& room(p)
    &&& room(-m)
    &&& room(-m * p)
    &&& room(w * t)
    &&& room(-m * p + w * t)
    &&& room(beta * (-m * p + w * t))
    &&& room(beta * m)
    &&& room(beta * p)
    &&& room(p - one)
    &&& room(beta * p * (p - one))
    &&& room(beta * p * (p - one) - lambda)
    &&& room(beta * m * (beta * p * (p - one) - lambda))
}

/// A query-wise softmax derivative is the weighted target less the object's share of the
/// query's relevant weight, times the inverse temperature; the share is that of the object's
/// weighted exponential in the query's. The second derivative is the share times its
/// opposite, negated, with the regularisation, under the relevant weight. Where the query has
/// no relevant weight, or the object no weight, both are zero.
pub proof fn law_query_softmax<F: Smooth>(
    val: spec_fn(F) -> real,
    room: spec_fn(real) -> bool,
    backend: Backend,
    approx: &[F],
    target: &[F],
    weights: &[F],
    q_offsets: &[u32],
    beta: F,
    lambda: F,
    der1: Vec<F>,
    der2: Vec<F>,
    g: int,
    i: int,
    max: F,
    whole: F,
    relevant: F,
)
    requires
        exact(val, room),
        call_ensures(query_softmax_ders_host::<F>, (backend, approx, target, weights, q_offsets, beta, lambda), Ok((der1, der2))),
        approx@.len() > 0,
        weights@.len() == approx@.len(),
        in_query(q_offsets@, g, i),
        ({
            let begin = q_offsets@[g] as int;
            let n = (q_offsets@[g + 1] - begin) as nat;
            let grown = |k: int| beta.times_spec(approx@[k].minus_spec(max)).exp_spec().times_spec(weights@[k]);
            &&& max == weighted_max(approx@, weights@, begin, q_offsets@[g + 1] as int)
            &&& whole == run_total(Seq::new(n, |k: int| grown(begin + k)))
            &&& relevant == relevant_weight(target@, weights@, begin, q_offsets@[g + 1] as int)
            &&& val(whole) > 0 as real && val(relevant) > 0 as real && val(weights@[i]) > 0 as real ==> softmax_fits(
                room,
                val(weights@[i]),
                val(target@[i]),
                val(grown(i)),
                val(whole),
                val(relevant),
                val(beta),
                val(lambda),
            )
        }),
    ensures
        ({
            let own = beta.times_spec(approx@[i].minus_spec(max)).exp_spec().times_spec(weights@[i]);
            let (d1, d2) = (val(der1@[i]), val(der2@[i]));
            let (b, m, p) = (val(beta), val(relevant), val(own) / val(whole));
            &&& val(whole) > 0 as real && m > 0 as real && val(weights@[i]) > 0 as real ==> {
                &&& d1 == b * (val(weights@[i]) * val(target@[i]) - m * p)
                &&& d2 == -(b * m * (b * p * (1 as real - p) + val(lambda)))
            }
            &&& !(val(whole) > 0 as real && m > 0 as real && val(weights@[i]) > 0 as real) ==> d1 == 0 as real && d2 == 0 as real
        }),
{
    let (begin, end) = (q_offsets@[g] as int, q_offsets@[g + 1] as int);
    let f = weighted_exp(approx@, weights@, max, beta);
    lemma_run(f, begin, end);
    assert(Seq::new((end - begin) as nat, |k: int| f(begin + k)) =~= Seq::new(
        (end - begin) as nat,
        |k: int| beta.times_spec(approx@[begin + k].minus_spec(max)).exp_spec().times_spec(weights@[begin + k]),
    ));
    assert(query_sum(f, begin, end) == whole);
    let own = f(i);
    let w = weights_or_one(weights@, approx@.len());
    assert(w =~= weights@);
    assert(in_query(q_offsets@, g, i));
    let at = softmax_ders(approx@, target@, w, begin, end, max, beta, lambda, i);
    assert((der1@[i], der2@[i]) == at);
    assert(weights@[i].above_spec(F::zero_spec()) == (val(weights@[i]) > 0 as real));
    assert(whole.above_spec(F::zero_spec()) == (val(whole) > 0 as real));
    assert(relevant.above_spec(F::zero_spec()) == (val(relevant) > 0 as real));
    if val(whole) > 0 as real && val(relevant) > 0 as real && val(weights@[i]) > 0 as real {
        let one = F::one_spec();
        let (b, m, l) = (val(beta), val(relevant), val(lambda));
        let pe = own.over_spec(whole);
        let p = val(own) / val(whole);
        assert(val(pe) == p);
        let nm = relevant.negated_spec();
        assert(val(nm) == -m);
        let nmp = nm.times_spec(pe);
        assert(val(nmp) == -m * p);
        let wt = weights@[i].times_spec(target@[i]);
        let t = val(weights@[i]) * val(target@[i]);
        assert(val(wt) == t);
        let sum = nmp.plus_spec(wt);
        assert(val(sum) == -m * p + t);
        assert(der1@[i] == beta.times_spec(sum));
        lemma_minus(m, p);
        assert(-m * p + t == t - m * p);
        let bm = beta.times_spec(relevant);
        assert(val(bm) == b * m);
        let bp = beta.times_spec(pe);
        assert(val(bp) == b * p);
        let q = pe.minus_spec(one);
        assert(val(q) == p - 1 as real);
        let bpq = bp.times_spec(q);
        assert(val(bpq) == b * p * (p - 1 as real));
        let inner = bpq.minus_spec(lambda);
        let z = b * p * (p - 1 as real) - l;
        assert(val(inner) == z);
        assert(der2@[i] == bm.times_spec(inner));
        let o = 1 as real - p;
        lemma_times_minus(b * p, o);
        assert(p - 1 as real == -o);
        assert(z == -(b * p * o + l));
        lemma_times_minus(b * m, b * p * o + l);
    }
}

/// The relevant weight of a query adds up, over its objects in order, the weighted targets of
/// those whose weight and target are positive.
pub proof fn law_relevant_weight<F: Real>(target: Seq<F>, weights: Seq<F>, begin: int, end: int)
    requires
        begin < end,
    ensures
        ({
            let (w, t) = (weights[end - 1], target[end - 1]);
            let zero = F::zero_spec();
            let before = relevant_weight(target, weights, begin, end - 1);
            &&& w.above_spec(zero) && t.above_spec(zero) ==> relevant_weight(target, weights, begin, end) == before.plus_spec(
                w.times_spec(t),
            )
            &&& !w.above_spec(zero) || !t.above_spec(zero) ==> relevant_weight(target, weights, begin, end) == before
            &&& relevant_weight(target, weights, begin, begin) == zero
        }),
{
}

/// The shift of a softmax is the approximation of one of the weighted objects of its query,
/// or the bottom where there is none to be above it.
pub proof fn law_weighted_max_is_attained<F: Real>(approx: Seq<F>, weights: Seq<F>, begin: int, end: int)
    ensures
        weighted_max(approx, weights, begin, end) == F::bottom_spec() || exists|i: int|
            begin <= i < end && weights[i].above_spec(F::zero_spec()) && weighted_max(approx, weights, begin, end) == #[trigger] approx[i],
    decreases end - begin,
{
    if begin < end {
        law_weighted_max_is_attained(approx, weights, begin, end - 1);
        let rest = weighted_max(approx, weights, begin, end - 1);
        let all = weighted_max(approx, weights, begin, end);
        if all == rest && rest != F::bottom_spec() {
            let i = choose|i: int| begin <= i < end - 1 && weights[i].above_spec(F::zero_spec()) && rest == #[trigger] approx[i];
            assert(all == approx[i]);
        } else if all != rest {
            assert(all == approx[end - 1]);
        }
    }
}

/// The search for a shift keeps the weighted targets between its ends: below its lower end
/// the weighted chances stay under them, at its upper end they reach them. An end that was
/// never moved is the bracket's own.
pub proof fn law_shift_stays_bracketed<F: Smooth>(
    approx: Seq<F>,
    target: Seq<F>,
    weights: Seq<F>,
    begin: int,
    end: int,
    bracket: F,
    k: nat,
)
    ensures
        ({
            let (lo, hi) = shift_bracket(approx, target, weights, begin, end, bracket, k);
            let wanted = target_mass(target, weights, begin, end);
            &&& lo == F::zero_spec().minus_spec(bracket) || wanted.above_spec(shifted_mass(approx, weights, begin, end, lo))
            &&& hi == bracket || !wanted.above_spec(shifted_mass(approx, weights, begin, end, hi))
        }),
    decreases k,
{
    if k > 0 {
        law_shift_stays_bracketed(approx, target, weights, begin, end, bracket, (k - 1) as nat);
    }
}

/// Every step of the search halves the bracket and moves one end to its middle.
pub proof fn law_shift_bracket_halves<F: Smooth>(
    val: spec_fn(F) -> real,
    room: spec_fn(real) -> bool,
    approx: Seq<F>,
    target: Seq<F>,
    weights: Seq<F>,
    begin: int,
    end: int,
    bracket: F,
    k: nat,
)
    requires
        exact(val, room),
        2 as real * val(F::half_spec()) == 1 as real,
        ({
            let (lo, hi) = shift_bracket(approx, target, weights, begin, end, bracket, k);
            room(val(lo) + val(hi)) && room(val(F::half_spec()) * (val(lo) + val(hi)))
        }),
    ensures
        ({
            let (lo, hi) = shift_bracket(approx, target, weights, begin, end, bracket, k);
            let (next_lo, next_hi) = shift_bracket(approx, target, weights, begin, end, bracket, k + 1);
            &&& 2 as real * (val(next_hi) - val(next_lo)) == val(hi) - val(lo)
            &&& next_lo == lo || next_hi == hi
        }),
{
    let (lo, hi) = shift_bracket(approx, target, weights, begin, end, bracket, k);
    let both = lo.plus_spec(hi);
    assert(val(both) == val(lo) + val(hi));
    let mid = F::half_spec().times_spec(both);
    let h = val(F::half_spec());
    let s = val(lo) + val(hi);
    assert(val(mid) == h * s);
    assert(2 as real * (h * s) == s) by (nonlinear_arith)
        requires
            2 as real * h == 1 as real,
    ;
}

/// A refinement moves the shift by what the weighted chances miss of the weighted targets,
/// over their slope: the move times the slope is the gap. Without a slope the shift stays.
pub proof fn law_shift_refinement<F: Smooth>(
    val: spec_fn(F) -> real,
    room: spec_fn(real) -> bool,
    approx: Seq<F>,
    target: Seq<F>,
    weights: Seq<F>,
    begin: int,
    end: int,
    bracket: F,
    k: nat,
)
    requires
        exact(val, room),
        ({
            let b = refined_shift(approx, target, weights, begin, end, bracket, k);
            let gap = val(shifted_mass(approx, weights, begin, end, b)) - val(target_mass(target, weights, begin, end));
            let slope = val(shifted_slope(approx, weights, begin, end, b));
            slope > 0 as real ==> room(gap) && room(gap / slope) && room(val(b) - gap / slope)
        }),
    ensures
        ({
            let b = refined_shift(approx, target, weights, begin, end, bracket, k);
            let next = refined_shift(approx, target, weights, begin, end, bracket, k + 1);
            let missing = val(target_mass(target, weights, begin, end)) - val(shifted_mass(approx, weights, begin, end, b));
            let slope = val(shifted_slope(approx, weights, begin, end, b));
            &&& slope > 0 as real ==> (val(next) - val(b)) * slope == missing
            &&& slope <= 0 as real ==> next == b
            &&& slope > 0 as real && missing == 0 as real ==> next == b
        }),
{
    let b = refined_shift(approx, target, weights, begin, end, bracket, k);
    let next = refined_shift(approx, target, weights, begin, end, bracket, k + 1);
    let (me, te) = (shifted_mass(approx, weights, begin, end, b), target_mass(target, weights, begin, end));
    let se = shifted_slope(approx, weights, begin, end, b);
    let slope = val(se);
    if slope > 0 as real {
        let ge = me.minus_spec(te);
        let gap = val(me) - val(te);
        assert(val(ge) == gap);
        let step = ge.over_spec(se);
        let q = gap / slope;
        assert(val(step) == q);
        assert(next == b.minus_spec(step));
        assert(val(next) == val(b) - q);
        lemma_ratio(gap, slope);
        lemma_minus(q, slope);
        assert(val(next) - val(b) == -q);
        if gap == 0 as real {
            assert(0 as real * slope == 0 as real);
            lemma_cancel(q, 0 as real, slope);
            assert(val(next) == val(b));
        }
    }
}

/// The chance of an object under a shift is the number whose odds against are the exponential
/// of the negated shifted approximation; the weighted chances of a query, and their slope,
/// add up object by object.
pub proof fn law_shifted_chances<F: Smooth>(
    val: spec_fn(F) -> real,
    room: spec_fn(real) -> bool,
    approx: Seq<F>,
    target: Seq<F>,
    weights: Seq<F>,
    begin: int,
    end: int,
    shift: F,
)
    requires
        exact(val, room),
        begin < end,
        ({
            let e = val(F::zero_spec().minus_spec(approx[end - 1].plus_spec(shift)).exp_spec());
            e > 0 as real && room(1 as real + e) && room(1 as real / (1 as real + e))
        }),
    ensures
        ({
            let e = val(F::zero_spec().minus_spec(approx[end - 1].plus_spec(shift)).exp_spec());
            let p = shifted_chance(approx[end - 1], shift);
            let w = weights[end - 1];
            &&& val(p) * e == 1 as real - val(p)
            &&& (0 as real) < val(p) < 1 as real
            &&& shifted_mass(approx, weights, begin, end, shift) == shifted_mass(approx, weights, begin, end - 1, shift).plus_spec(
                w.times_spec(p),
            )
            &&& shifted_slope(approx, weights, begin, end, shift) == shifted_slope(approx, weights, begin, end - 1, shift).plus_spec(
                w.times_spec(p).times_spec(F::one_spec().minus_spec(p)),
            )
            &&& target_mass(target, weights, begin, end) == target_mass(target, weights, begin, end - 1).plus_spec(
                w.times_spec(target[end - 1]),
            )
            &&& shifted_mass(approx, weights, begin, begin, shift) == F::zero_spec()
            &&& shifted_slope(approx, weights, begin, begin, shift) == F::zero_spec()
            &&& target_mass(target, weights, begin, begin) == F::zero_spec()
        }),
{
    let ee = F::zero_spec().minus_spec(approx[end - 1].plus_spec(shift)).exp_spec();
    let e = val(ee);
    let one = F::one_spec();
    let o = 1 as real;
    let s = one.plus_spec(ee);
    assert(val(s) == o + e);
    let p = o / (o + e);
    assert(val(shifted_chance(approx[end - 1], shift)) == p);
    lemma_ratio(o, o + e);
    assert(p > 0 as real && p < o && p * e == o - p) by (nonlinear_arith)
        requires
            p * (o + e) == o,
            o == 1 as real,
            e > 0 as real,
    ;
}

/// The shift of each query is searched in its own objects only: eight halvings of the whole
/// bracket, then five refinements of its middle.
pub proof fn law_query_shift<F: Smooth>(
    approx: &[F],
    target: &[F],
    weights: &[F],
    q_offsets: &[u32],
    bracket: F,
    r: Vec<F>,
    g: int,
)
    requires
        call_ensures(query_cross_entropy_shift_kernel::<F>, (approx, target, weights, q_offsets, bracket), r),
        0 <= g < q_offsets@.len() - 1,
    ensures
        ({
            let (begin, end) = (q_offsets@[g] as int, q_offsets@[g + 1] as int);
            let (lo, hi) = shift_bracket(approx@, target@, weights@, begin, end, bracket, 8);
            &&& shift_bracket(approx@, target@, weights@, begin, end, bracket, 0) == (F::zero_spec().minus_spec(bracket), bracket)
            &&& refined_shift(approx@, target@, weights@, begin, end, bracket, 0) == F::half_spec().times_spec(lo.plus_spec(hi))
            &&& r@[g] == refined_shift(approx@, target@, weights@, begin, end, bracket, 5)
        }),
{
    assert(r@[g] == query_shifts(approx@, target@, weights@, q_offsets@, bracket)[g]);
}

/// The seeds of the queries are the draws of one generator, which the first draw of the run's
/// own generator seeds: query after query takes the next draw.
pub proof fn law_query_seeds(random_seed: u64, n_queries: usize, r: Vec<u64>, q: int)
    requires
        call_ensures(derive_query_seeds_inline, (random_seed, n_queries), r),
        0 <= q < n_queries,
    ensures
        r@.len() == n_queries,
        ({
            let block = draw_of(seeded_state(random_seed), 1);
            r@[q] == draw_of(state_after(seeded_state(block), q as nat), 1)
        }),
{
    law_draw_after_advance(seeded_state(draw_of(seeded_state(random_seed), 1)), q as nat);
}

/// The order of a query lists its own objects, from the greatest value down: what comes later
/// is never above what comes before, and of two level values the earlier object comes first.
pub proof fn law_query_order<F: Smooth>(values: &[F], q_offsets: &[u32], order: Vec<u32>, g: int, a: int, b: int)
    requires
        call_ensures(descending_order_per_query::<F>, (values, q_offsets), Ok(order)),
        in_query(q_offsets@, g, a),
        in_query(q_offsets@, g, b),
        a < b,
    ensures
        order@.len() == values@.len(),
        in_query(q_offsets@, g, order@[a] as int),
        in_query(q_offsets@, g, order@[b] as int),
        order@[a] != order@[b],
        !values@[order@[b] as int].above_spec(values@[order@[a] as int]),
        !values@[order@[a] as int].above_spec(values@[order@[b] as int]) ==> order@[a] < order@[b],
{
    let (begin, end) = (q_offsets@[g] as int, q_offsets@[g + 1] as int);
    assert(descending_between(values@, order@, begin, end));
    assert(begin <= order@[a] < end && begin <= order@[b] < end);
    let (x, y) = (values@[order@[a] as int], values@[order@[b] as int]);
    assert(comes_first(values@, order@[a] as int, order@[b] as int));
    F::order_laws(x, y, x);
    F::order_laws(y, x, y);
    F::order_laws(x, x, x);
}

/// The shifts of a run are searched within thirty of zero, each object at its own weight, or
/// at one where the run has no weights.
pub proof fn law_run_shifts<F: Smooth>(
    backend: Backend,
    approx: &[F],
    target: &[F],
    weights: &[F],
    q_offsets: &[u32],
    shifts: Vec<F>,
    weighted: Vec<F>,
    g: int,
)
    requires
        call_ensures(query_cross_entropy_shifts_host::<F>, (backend, approx, target, weights, q_offsets), Ok(shifts)),
        approx@.len() > 0,
        weighted@.len() == approx@.len(),
        forall|i: int|
            0 <= i < approx@.len() ==> #[trigger] weighted@[i] == if weights@.len() == 0 { F::one_spec() } else { weights@[i] },
        0 <= g < q_offsets@.len() - 1,
    ensures
        backend != Backend::Wgpu,
        shifts@.len() == q_offsets@.len() - 1,
        shifts@[g] == refined_shift(
            approx@,
            target@,
            weighted@,
            q_offsets@[g] as int,
            q_offsets@[g + 1] as int,
            F::count_spec(30),
            5,
        ),
{
    assert(weights_or_one(weights@, approx@.len()) =~= weighted@);
}

} // verus!
