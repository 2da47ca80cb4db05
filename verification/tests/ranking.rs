//! The query objectives on real values.

use cb_backend::channel::{Channel, Real, REDUCE_FIXEDPOINT_SCALE};
use cb_backend::config::Backend;
use cb_backend::coverage::{ranking_objective_covered, RankingObjective};
use cb_backend::error::{CbError, Degeneracy, DoubleUse, RangeFault};
use cb_backend::ranking::{
    compute_group_max_weighted_host, derive_query_seeds_inline, descending_order_per_query, query_cross_entropy_shifts_host,
    query_rmse_ders_host, query_softmax_ders_host, ranking_rmse_der_kernel, validate_ranking_inputs, weight_column,
    yetirank_draw_count,
};
use cb_backend::smooth::Smooth;

/// A double-precision element.
#[derive(Clone, Copy, Debug, PartialEq)]
struct Double(f64);

impl Channel for Double {
    fn zero() -> Self {
        Double(0.0)
    }

    fn plus(self, other: Self) -> Self {
        Double(self.0 + other.0)
    }

    fn zero_spec() -> Self {
        Self::zero()
    }

    fn plus_spec(self, other: Self) -> Self {
        self.plus(other)
    }
}

impl Real for Double {
    fn one() -> Self {
        Double(1.0)
    }

    fn bottom() -> Self {
        Double(f64::NEG_INFINITY)
    }

    fn floor() -> Self {
        Double(f64::from(f32::MIN))
    }

    fn tiny() -> Self {
        Double(1e-100)
    }

    fn eps() -> Self {
        Double(1e-20)
    }

    fn negated(self) -> Self {
        Double(-self.0)
    }

    fn sqrt(self) -> Self {
        Double(self.0.sqrt())
    }

    fn ln(self) -> Self {
        Double(self.0.ln())
    }

    fn minus(self, other: Self) -> Self {
        Double(self.0 - other.0)
    }

    fn times(self, other: Self) -> Self {
        Double(self.0 * other.0)
    }

    fn over(self, other: Self) -> Self {
        Double(self.0 / other.0)
    }

    fn narrow(self) -> Self {
        Double(f64::from(self.0 as f32))
    }

    fn count(n: usize) -> Self {
        Double(n as f64)
    }

    fn decode(raw: u64) -> Self {
        Double((raw as i64) as f64 / REDUCE_FIXEDPOINT_SCALE as f64)
    }

    fn encode(self) -> u64 {
        ((self.0 * REDUCE_FIXEDPOINT_SCALE as f64).round() as i64) as u64
    }

    fn above(self, other: Self) -> bool {
        self.0 > other.0
    }

    fn ties(self, other: Self) -> bool {
        self.0 == other.0
    }

    fn one_spec() -> Self {
        Self::one()
    }

    fn bottom_spec() -> Self {
        Self::bottom()
    }

    fn floor_spec() -> Self {
        Self::floor()
    }

    fn tiny_spec() -> Self {
        Self::tiny()
    }

    fn eps_spec() -> Self {
        Self::eps()
    }

    fn negated_spec(self) -> Self {
        self.negated()
    }

    fn sqrt_spec(self) -> Self {
        self.sqrt()
    }

    fn ln_spec(self) -> Self {
        self.ln()
    }

    fn narrow_spec(self) -> Self {
        self.narrow()
    }

    fn minus_spec(self, other: Self) -> Self {
        self.minus(other)
    }

    fn times_spec(self, other: Self) -> Self {
        self.times(other)
    }

    fn over_spec(self, other: Self) -> Self {
        self.over(other)
    }

    fn count_spec(n: usize) -> Self {
        Self::count(n)
    }

    fn decode_spec(raw: u64) -> Self {
        Self::decode(raw)
    }

    fn encode_spec(self) -> u64 {
        self.encode()
    }

    fn above_spec(self, other: Self) -> bool {
        self.above(other)
    }

    fn is_number(self) -> bool {
        !self.0.is_nan()
    }

    fn order_laws(_: Self, _: Self, _: Self) {}
}

impl Smooth for Double {
    fn half() -> Self {
        Double(0.5)
    }

    fn chance() -> Self {
        Double(1e-13)
    }

    fn abs(self) -> Self {
        Double(self.0.abs())
    }

    fn exp(self) -> Self {
        Double(self.0.exp())
    }

    fn powf(self, e: Self) -> Self {
        Double(self.0.powf(e.0))
    }

    fn tanh(self) -> Self {
        Double(self.0.tanh())
    }

    fn cosh(self) -> Self {
        Double(self.0.cosh())
    }

    fn class(self) -> usize {
        if self.0.is_finite() && self.0 >= 0.0 {
            self.0.round() as usize
        } else {
            0
        }
    }

    fn sort_key(self) -> u64 {
        (self.0 + 0.0).to_bits()
    }

    fn half_spec() -> Self {
        Self::half()
    }

    fn chance_spec() -> Self {
        Self::chance()
    }

    fn abs_spec(self) -> Self {
        self.abs()
    }

    fn exp_spec(self) -> Self {
        self.exp()
    }

    fn tanh_spec(self) -> Self {
        self.tanh()
    }

    fn cosh_spec(self) -> Self {
        self.cosh()
    }

    fn powf_spec(self, e: Self) -> Self {
        self.powf(e)
    }

    fn class_spec(self) -> usize {
        self.class()
    }

    fn sort_key_spec(self) -> u64 {
        self.sort_key()
    }

    fn sort_key_laws(_: Self, _: Self) {}
}

fn doubles(values: &[f64]) -> Vec<Double> {
    values.iter().map(|&v| Double(v)).collect()
}

fn plain(values: &[Double]) -> Vec<f64> {
    values.iter().map(|v| v.0).collect()
}

const TOL: f64 = 1e-4;

fn max_abs_divergence(device: &[f64], reference: &[f64]) -> f64 {
    device.iter().zip(reference.iter()).map(|(&x, &y)| (x - y).abs()).fold(0.0_f64, f64::max)
}

fn uneven_fixture() -> (Vec<f64>, Vec<f64>, Vec<u32>) {
    let approx = vec![0.5, -0.2, 1.3, 0.1, 0.4, -0.7, 0.9, 0.2, -0.3];
    let target = vec![1.0, 0.0, 2.0, 0.0, 1.0, 3.0, 1.0, 0.0, 2.0];
    let q_offsets = vec![0u32, 3, 5, 9];
    (approx, target, q_offsets)
}

/// The squared error within queries, written out.
fn rmse_reference(approx: &[f64], target: &[f64], q_offsets: &[u32]) -> (Vec<f64>, Vec<f64>) {
    let mut der1 = Vec::new();
    let mut der2 = Vec::new();
    for w in q_offsets.windows(2) {
        let (b, e) = (w[0] as usize, w[1] as usize);
        let mean = (b..e).map(|i| target[i] - approx[i]).sum::<f64>() / (e - b) as f64;
        for i in b..e {
            der1.push(target[i] - approx[i] - mean);
            der2.push(-1.0);
        }
    }
    (der1, der2)
}

/// The softmax within queries, written out.
fn softmax_reference(
    approx: &[f64],
    target: &[f64],
    q_offsets: &[u32],
    beta: f64,
    lambda: f64,
) -> (Vec<f64>, Vec<f64>) {
    let mut der1 = Vec::new();
    let mut der2 = Vec::new();
    for w in q_offsets.windows(2) {
        let (b, e) = (w[0] as usize, w[1] as usize);
        let relevant: f64 = (b..e).filter(|&i| target[i] > 0.0).map(|i| target[i]).sum();
        let max = (b..e).map(|i| approx[i]).fold(f64::NEG_INFINITY, f64::max);
        let total: f64 = (b..e).map(|i| (beta * (approx[i] - max)).exp()).sum();
        for i in b..e {
            if relevant > 0.0 {
                let p = (beta * (approx[i] - max)).exp() / total;
                der1.push(beta * (target[i] - relevant * p));
                der2.push(beta * relevant * (beta * p * (p - 1.0) - lambda));
            } else {
                der1.push(0.0);
                der2.push(0.0);
            }
        }
    }
    (der1, der2)
}

#[test]
fn query_rmse_der_matches_cpu_within_epsilon() {
    let (approx, target, q_offsets) = uneven_fixture();
    let (cpu_der1, cpu_der2) = rmse_reference(&approx, &target, &q_offsets);

    let (dev_der1, dev_der2) =
        query_rmse_ders_host(Backend::Cpu, &doubles(&approx), &doubles(&target), &[], &q_offsets)
            .expect("device QueryRMSE der must succeed on the in-range fixture");
    let (dev_der1, dev_der2) = (plain(&dev_der1), plain(&dev_der2));

    assert_eq!(dev_der1.len(), cpu_der1.len(), "der1 length must match CPU");
    assert_eq!(dev_der2.len(), cpu_der2.len(), "der2 length must match CPU");
    assert!(
        dev_der1.iter().all(|v| v.is_finite()) && dev_der2.iter().all(|v| v.is_finite()),
        "device QueryRMSE der must be finite"
    );

    let d1 = max_abs_divergence(&dev_der1, &cpu_der1);
    let d2 = max_abs_divergence(&dev_der2, &cpu_der2);
    assert!(d1 <= TOL, "device QueryRMSE der1 diverged from CPU: {d1:e} > {TOL:e}");
    assert!(d2 <= TOL, "device QueryRMSE der2 diverged from CPU: {d2:e} > {TOL:e}");
}

#[test]
fn query_softmax_der_matches_cpu_within_epsilon() {
    let (approx, target, q_offsets) = uneven_fixture();
    let beta = 1.0_f64;
    let lambda = 0.01_f64;
    let (cpu_der1, cpu_der2) = softmax_reference(&approx, &target, &q_offsets, beta, lambda);

    let (dev_der1, dev_der2) = query_softmax_ders_host(
        Backend::Cpu,
        &doubles(&approx),
        &doubles(&target),
        &[],
        &q_offsets,
        Double(beta),
        Double(lambda),
    )
    .expect("device QuerySoftMax der must succeed on the in-range fixture");
    let (dev_der1, dev_der2) = (plain(&dev_der1), plain(&dev_der2));

    assert_eq!(dev_der1.len(), cpu_der1.len(), "der1 length must match CPU");
    assert_eq!(dev_der2.len(), cpu_der2.len(), "der2 length must match CPU");
    assert!(
        dev_der1.iter().all(|v| v.is_finite()) && dev_der2.iter().all(|v| v.is_finite()),
        "device QuerySoftMax der must be finite"
    );

    let d1 = max_abs_divergence(&dev_der1, &cpu_der1);
    let d2 = max_abs_divergence(&dev_der2, &cpu_der2);
    assert!(d1 <= TOL, "device QuerySoftMax der1 diverged from CPU: {d1:e} > {TOL:e}");
    assert!(d2 <= TOL, "device QuerySoftMax der2 diverged from CPU: {d2:e} > {TOL:e}");
}

#[test]
fn query_cross_entropy_gated_off_and_shift_search_self_consistent() {
    assert!(
        !ranking_objective_covered::<Double>(&RankingObjective::QueryCrossEntropy),
        "QueryCrossEntropy must be independently gated off"
    );
    assert!(
        ranking_objective_covered::<Double>(&RankingObjective::QueryRmse),
        "QueryRMSE must stay covered even though QueryCrossEntropy is deferred"
    );
    assert!(
        ranking_objective_covered(&RankingObjective::QuerySoftMax { beta: Double(1.0), lambda: Double(0.01) }),
        "QuerySoftMax must stay covered even though QueryCrossEntropy is deferred"
    );

    let approx = vec![0.5, -0.2, 1.3, 0.1, 0.4, -0.7, 0.9, 0.2, -0.3];
    let target = vec![0.5, 0.2, 0.8, 0.3, 0.6, 0.1, 0.9, 0.4, 0.7];
    let q_offsets = vec![0u32, 3, 5, 9];

    let shifts =
        query_cross_entropy_shifts_host(Backend::Cpu, &doubles(&approx), &doubles(&target), &[], &q_offsets)
            .expect("QueryCrossEntropy shift search must succeed on the in-range fixture");
    let shifts = plain(&shifts);
    assert_eq!(shifts.len(), q_offsets.len() - 1, "one shift per query");
    assert!(shifts.iter().all(|s| s.is_finite()), "every per-query shift must be finite");

    let mut worst = 0.0_f64;
    for (g, w) in q_offsets.windows(2).enumerate() {
        let (begin, end) = (w[0] as usize, w[1] as usize);
        let shift = shifts.get(g).copied().unwrap_or(0.0);
        let mut f = 0.0_f64;
        let mut t = 0.0_f64;
        for i in begin..end {
            let a = approx.get(i).copied().unwrap_or(0.0);
            f += 1.0 / (1.0 + (-(a + shift)).exp());
            t += target.get(i).copied().unwrap_or(0.0);
        }
        worst = worst.max((f - t).abs());
    }
    assert!(worst <= 1e-3, "QueryCrossEntropy bounded shift search did not converge: worst |F-T|={worst:e} > 1e-3");
}

const FROZEN_SEEDS: [u64; 2] = [11_230_867_027_785_084_481, 17_628_939_635_266_696_464];

#[test]
fn seeds_match_frozen_cpu_chain() {
    let seeds = derive_query_seeds_inline(42, 2);
    assert_eq!(seeds.as_slice(), &FROZEN_SEEDS, "per-query seed chain diverged");
}

#[test]
fn draw_count_matches() {
    let perms = 4u32;
    let n = 6usize;
    assert_eq!(yetirank_draw_count(n, perms), perms as usize * n);
    assert_eq!(yetirank_draw_count(n, perms), 24, "expected 4 * 6 = 24 uniform draws");
}

#[test]
fn stochastic_pair_is_covered() {
    assert!(ranking_objective_covered(&RankingObjective::YetiRank { permutations: 4, decay: Double(0.85) }));
    assert!(ranking_objective_covered(&RankingObjective::PFoundF { permutations: 4, decay: Double(0.85) }));
}

fn cpu_stable_descending_order(perturbed: &[f64], q_offsets: &[u32]) -> Vec<u32> {
    let mut out: Vec<u32> = Vec::with_capacity(perturbed.len());
    for w in q_offsets.windows(2) {
        let begin = w[0] as usize;
        let end = w[1] as usize;
        let mut idx: Vec<u32> = (begin as u32..end as u32).collect();
        idx.sort_by(|&a, &b| {
            let va = perturbed[a as usize];
            let vb = perturbed[b as usize];
            vb.partial_cmp(&va).expect("perturbed values are finite in the fixture")
        });
        out.extend(idx);
    }
    out
}

#[test]
fn tie_order_matches_cpu_stable_descending() {
    let perturbed = vec![
        2.0, 1.5, 1.5, 3.0, 1.5, //
        0.5, 0.5, 0.9, 0.5,
    ];
    let q_offsets = vec![0u32, 5, 9];

    assert_eq!(perturbed[1], perturbed[2], "fixture must contain an exact tie");
    assert_eq!(perturbed[2], perturbed[4], "fixture must contain a 3-way tie");

    let got = descending_order_per_query(&doubles(&perturbed), &q_offsets).expect("descending order");
    let want = cpu_stable_descending_order(&perturbed, &q_offsets);
    assert_eq!(got.len(), perturbed.len(), "order must be a full permutation");
    assert_eq!(got, want, "the order diverged from a stable descending sort");
    assert_eq!(
        got,
        vec![3u32, 0, 1, 2, 4, 7, 5, 6, 8],
        "tied values must stay in ascending original-index order per query"
    );
}

fn assert_der_close(got: &[f64], want: &[f64], who: &str) {
    assert_eq!(got.len(), want.len(), "{who}: der length mismatch");
    for (i, (&g, &w)) in got.iter().zip(want.iter()).enumerate() {
        let div = (g - w).abs();
        assert!(div <= TOL, "{who}: der[{i}] = {g} vs frozen {w} ({div} > {TOL})");
    }
}

fn softmax_fixture() -> (Vec<f64>, Vec<f64>, Vec<f64>, Vec<u32>, f64, f64) {
    let approx = vec![3.0, 1.0, 0.5, 0.2, 0.8, -0.1];
    let target = vec![1.0, 1.0, 1.0, 1.0, 0.0, 1.0];
    let weights = vec![0.0, 2.0, 1.0, 1.0, 1.0, 1.0];
    let q_offsets = vec![0u32, 3, 6];
    let beta = 1.0;
    let lambda = 0.0;
    (approx, target, weights, q_offsets, beta, lambda)
}

fn frozen_softmax_der1() -> Vec<f64> {
    vec![
        0.0,
        -0.3019103871433044,
        0.3019103871433041,
        0.4386653515985748,
        -1.022818416162833,
        0.5841530645642584,
    ]
}

fn frozen_softmax_der2() -> Vec<f64> {
    vec![
        0.0,
        -0.5356465769972252,
        -0.5356465769972254,
        -0.40378635465344936,
        -0.4997396599419099,
        -0.32938259858009267,
    ]
}

#[test]
fn softmax_weight_max_seed() {
    let (approx, target, weights, q_offsets, beta, lambda) = softmax_fixture();

    let seeds = compute_group_max_weighted_host(&doubles(&approx), &doubles(&weights), &q_offsets);
    assert_eq!(
        plain(&seeds),
        vec![1.0, 0.8],
        "the seed of a query must be the max over its weighted documents (1.0, not the 3.0 of the \
         document without weight)"
    );

    let (der1, der2) = query_softmax_ders_host(
        Backend::Cpu,
        &doubles(&approx),
        &doubles(&target),
        &doubles(&weights),
        &q_offsets,
        Double(beta),
        Double(lambda),
    )
    .expect("query_softmax der");
    let (der1, der2) = (plain(&der1), plain(&der2));
    assert_eq!(der1.len(), approx.len());
    assert_eq!(der2.len(), approx.len());
    for v in der1.iter().chain(der2.iter()) {
        assert!(v.is_finite(), "softmax der must be finite (no inf/NaN)");
    }
    assert_der_close(&der1, &frozen_softmax_der1(), "softmax der1");
    assert_der_close(&der2, &frozen_softmax_der2(), "softmax der2");
}

#[test]
fn ranking_columns_are_checked() {
    let a = doubles(&[0.1, 0.2]);
    let t = doubles(&[1.0, 0.0]);
    assert_eq!(
        validate_ranking_inputs(&a, &t[..1], &[0, 2]),
        Err(CbError::Degenerate(Degeneracy::TargetLength { approx: 2, target: 1 }))
    );
    assert_eq!(
        validate_ranking_inputs(&a, &t, &[]),
        Err(CbError::Degenerate(Degeneracy::NoQueryOffsets))
    );
    assert_eq!(validate_ranking_inputs(&a, &t, &[0, 2]), Ok(()));
    assert_eq!(
        weight_column(&a, 3),
        Err(CbError::Degenerate(Degeneracy::WeightLength { expected: 3, actual: 2 }))
    );
    assert_eq!(weight_column::<Double>(&[], 2), Ok(doubles(&[1.0, 1.0])));
    assert_eq!(weight_column(&t, 2), Ok(t.clone()));
}

#[test]
fn ranking_faults_come_in_order() {
    let a = doubles(&[0.1, 0.2]);
    let t = doubles(&[1.0, 0.0]);
    let w = doubles(&[1.0]);
    let empty: Vec<Double> = Vec::new();
    assert_eq!(
        query_rmse_ders_host(Backend::Wgpu, &a, &t, &w, &[0, 1]),
        Err(CbError::OutOfRange(RangeFault::NoDoubles(DoubleUse::QueryDer)))
    );
    assert_eq!(
        query_rmse_ders_host(Backend::Cpu, &a, &t, &w, &[0, 1]),
        Err(CbError::Degenerate(Degeneracy::WeightLength { expected: 2, actual: 1 }))
    );
    assert_eq!(
        query_rmse_ders_host(Backend::Cpu, &a, &t, &[], &[0, 1]),
        Err(CbError::Degenerate(Degeneracy::QueryOffsets))
    );
    assert_eq!(
        query_softmax_ders_host(Backend::Cpu, &a, &t, &[], &[1, 2], Double(1.0), Double(0.0)),
        Err(CbError::Degenerate(Degeneracy::QueryOffsets))
    );
    assert_eq!(query_rmse_ders_host(Backend::Wgpu, &empty, &empty, &w, &[0]), Ok((vec![], vec![])));
    assert_eq!(query_cross_entropy_shifts_host(Backend::Cpu, &a, &t, &w, &[0]), Ok(vec![]));
    assert_eq!(
        query_cross_entropy_shifts_host(Backend::Wgpu, &a, &t, &[], &[0, 2]),
        Err(CbError::OutOfRange(RangeFault::NoDoubles(DoubleUse::QueryDer)))
    );
    assert_eq!(
        descending_order_per_query(&a, &[0, 1]),
        Err(CbError::Degenerate(Degeneracy::QueryOffsets))
    );
}

#[test]
fn a_weighted_query_is_centred_on_its_weighted_mean() {
    let (der1, der2) = query_rmse_ders_host(
        Backend::Cpu,
        &doubles(&[0.0, 0.0]),
        &doubles(&[1.0, 5.0]),
        &doubles(&[3.0, 1.0]),
        &[0, 2],
    )
    .expect("a covered query");
    assert_eq!(plain(&der1), vec![-3.0, 3.0]);
    assert_eq!(plain(&der2), vec![-3.0, -1.0]);
    let (d1, d2) = ranking_rmse_der_kernel(&doubles(&[0.5, -2.0]), &doubles(&[2.0, 4.0]));
    assert_eq!((plain(&d1), plain(&d2)), (vec![1.0, -8.0], vec![-2.0, -4.0]));
}

#[test]
fn a_query_without_relevance_has_no_softmax_derivative() {
    let (der1, der2) = query_softmax_ders_host(
        Backend::Cpu,
        &doubles(&[0.4, 0.6]),
        &doubles(&[0.0, 0.0]),
        &[],
        &[0, 2],
        Double(1.0),
        Double(0.5),
    )
    .expect("a covered query");
    assert_eq!((plain(&der1), plain(&der2)), (vec![0.0, 0.0], vec![0.0, 0.0]));
}

#[test]
fn more_seeds_extend_the_chain() {
    let seeds = derive_query_seeds_inline(42, 5);
    assert_eq!(&seeds[..2], &FROZEN_SEEDS);
    assert_eq!(seeds.len(), 5);
    assert_eq!(derive_query_seeds_inline(42, 0), Vec::<u64>::new());
}
