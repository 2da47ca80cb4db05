//! Split scoring over fixed-point histograms.

use cb_backend::channel::{Channel, Real, REDUCE_FIXEDPOINT_SCALE};
use cb_backend::cindex::pack_cindex;
use cb_backend::error::CbResult;
use cb_backend::histogram::pointwise_hist2_nonbinary_kernel;
use cb_backend::split::{
    best_of_blocks, cb_leaf_avg, cb_leaf_score_term, find_optimal_split_kernel, score_ordered_over_segment_binsums,
    score_partition_over_binsums, select_best_split_kernel, select_best_split_over_scores, BestSplit, SCORE_FN_L2,
    SCORE_FN_SOLAR_L2,
};

/// A double-precision element.
#[derive(Clone, Copy, Debug, PartialEq)]
struct Double(f64);

impl Channel for Double {
    fn zero() -> Self {
        Double(0.0)
    }

    fn plus(self, other: Self) -> Self {
        Double(self.0 + other.0)
    }

    fn zero_spec() -> Self {
        Self::zero()
    }

    fn plus_spec(self, other: Self) -> Self {
        self.plus(other)
    }
}

impl Real for Double {
    fn one() -> Self {
        Double(1.0)
    }

    fn bottom() -> Self {
        Double(f64::NEG_INFINITY)
    }

    fn floor() -> Self {
        Double(f64::from(f32::MIN))
    }

    fn tiny() -> Self {
        Double(1e-100)
    }

    fn eps() -> Self {
        Double(1e-20)
    }

    fn negated(self) -> Self {
        Double(-self.0)
    }

    fn sqrt(self) -> Self {
        Double(self.0.sqrt())
    }

    fn ln(self) -> Self {
        Double(self.0.ln())
    }

    fn minus(self, other: Self) -> Self {
        Double(self.0 - other.0)
    }

    fn times(self, other: Self) -> Self {
        Double(self.0 * other.0)
    }

    fn over(self, other: Self) -> Self {
        Double(self.0 / other.0)
    }

    fn narrow(self) -> Self {
        Double(f64::from(self.0 as f32))
    }

    fn count(n: usize) -> Self {
        Double(n as f64)
    }

    fn decode(raw: u64) -> Self {
        Double((raw as i64) as f64 / REDUCE_FIXEDPOINT_SCALE as f64)
    }

    fn encode(self) -> u64 {
        ((self.0 * REDUCE_FIXEDPOINT_SCALE as f64).round() as i64) as u64
    }

    fn above(self, other: Self) -> bool {
        self.0 > other.0
    }

    fn ties(self, other: Self) -> bool {
        self.0 == other.0
    }

    fn one_spec() -> Self {
        Self::one()
    }

    fn bottom_spec() -> Self {
        Self::bottom()
    }

    fn floor_spec() -> Self {
        Self::floor()
    }

    fn tiny_spec() -> Self {
        Self::tiny()
    }

    fn eps_spec() -> Self {
        Self::eps()
    }

    fn negated_spec(self) -> Self {
        self.negated()
    }

    fn sqrt_spec(self) -> Self {
        self.sqrt()
    }

    fn ln_spec(self) -> Self {
        self.ln()
    }

    fn narrow_spec(self) -> Self {
        self.narrow()
    }

    fn minus_spec(self, other: Self) -> Self {
        self.minus(other)
    }

    fn times_spec(self, other: Self) -> Self {
        self.times(other)
    }

    fn over_spec(self, other: Self) -> Self {
        self.over(other)
    }

    fn count_spec(n: usize) -> Self {
        Self::count(n)
    }

    fn decode_spec(raw: u64) -> Self {
        Self::decode(raw)
    }

    fn encode_spec(self) -> u64 {
        self.encode()
    }

    fn above_spec(self, other: Self) -> bool {
        self.above(other)
    }

    fn is_number(self) -> bool {
        !self.0.is_nan()
    }

    fn order_laws(_: Self, _: Self, _: Self) {}
}

fn doubles(values: &[f64]) -> Vec<Double> {
    values.iter().map(|&v| Double(v)).collect()
}

fn encode(v: f64) -> u64 {
    ((v * REDUCE_FIXEDPOINT_SCALE as f64).round() as i64) as u64
}

fn build_bin_sums(
    n_parts: usize,
    n_features: usize,
    n_bins: usize,
    cell: impl Fn(usize, usize, usize) -> (f64, f64),
) -> Vec<u64> {
    let mut out = vec![0u64; n_parts * n_features * n_bins * 2];
    for part in 0..n_parts {
        for f in 0..n_features {
            for b in 0..n_bins {
                let (w, d) = cell(part, f, b);
                let base = part * (n_features * n_bins * 2) + (f * n_bins + b) * 2;
                if let Some(slot) = out.get_mut(base) {
                    *slot = encode(w);
                }
                if let Some(slot) = out.get_mut(base + 1) {
                    *slot = encode(d);
                }
            }
        }
    }
    out
}

fn cpu_one_hot_score(
    sums: &[(f64, f64)],
    n_parts: usize,
    n_bins: usize,
    value: usize,
    lambda: f64,
) -> f64 {
    let term = |d: f64, w: f64| -> f64 {
        if w > 0.0 {
            d * d / (w + lambda)
        } else {
            0.0
        }
    };
    let mut acc = 0.0;
    for part in 0..n_parts {
        let mut total_w = 0.0;
        let mut total_d = 0.0;
        let mut left_w = 0.0;
        let mut left_d = 0.0;
        for b in 0..n_bins {
            let (w, d) = sums.get(part * n_bins + b).copied().unwrap_or((0.0, 0.0));
            total_w += w;
            total_d += d;
            if b == value {
                left_w = w;
                left_d = d;
            }
        }
        acc += term(left_d, left_w);
        acc += term(total_d - left_d, total_w - left_w);
    }
    acc
}

fn score_pass(
    bin_sums: &[u64],
    n_parts: usize,
    n_bins: usize,
    n_bins_used: usize,
    n_features: usize,
    real_folds: &[u32],
    one_hot: bool,
    feature_lo: usize,
    feature_hi: usize,
    lambda: f64,
) -> CbResult<Option<BestSplit<Double>>> {
    score_partition_over_binsums(
        bin_sums,
        n_parts,
        n_bins,
        n_bins_used,
        n_features,
        Double(lambda),
        SCORE_FN_L2,
        real_folds,
        one_hot,
        feature_lo,
        feature_hi,
    )
}

#[test]
fn one_hot_fold_matches_the_cpu_equality_score_at_depth_two() {
    let n_parts = 4usize;
    let n_float = 1usize;
    let n_cat = 2usize;
    let n_features = n_float + n_cat;
    let n_bins = 4usize;
    let lambda = 1.0_f64;
    let real_folds = vec![n_bins as u32, 4, 4];

    let cell = |part: usize, f: usize, b: usize| -> (f64, f64) {
        let w = 1.0 + (part + f + b) as f64 * 0.25;
        let d = ((part * 7 + f * 3 + b) % 5) as f64 - 2.0;
        (w, d)
    };
    let bin_sums = build_bin_sums(n_parts, n_features, n_bins, cell);

    let best = score_pass(
        &bin_sums,
        n_parts,
        n_bins,
        n_bins,
        n_features,
        &real_folds,
        /* one_hot = */ true,
        /* feature_lo = */ n_float,
        /* feature_hi = */ n_features,
        lambda,
    )
    .expect("scorer must not error")
    .expect("a one-hot pass over 2 cat features must produce a winner");

    let mut cpu_best = (f64::NEG_INFINITY, usize::MAX, usize::MAX);
    for f in n_float..n_features {
        let sums: Vec<(f64, f64)> = (0..n_parts)
            .flat_map(|p| (0..n_bins).map(move |b| (p, b)))
            .map(|(p, b)| cell(p, f, b))
            .collect();
        for v in 0..n_bins {
            let s = cpu_one_hot_score(&sums, n_parts, n_bins, v, lambda);
            if s > cpu_best.0 {
                cpu_best = (s, f, v);
            }
        }
    }

    assert_eq!(
        (best.feature_id as usize, best.bin_id as usize),
        (cpu_best.1, cpu_best.2),
        "the device one-hot winner must be the CPU equality-fold argmax"
    );
    assert!(
        (best.gain.0 - cpu_best.0).abs() <= 1e-5 * cpu_best.0.abs().max(1.0),
        "device gain {} vs CPU {} exceeds 1e-5",
        best.gain.0,
        cpu_best.0
    );
}

#[test]
fn one_hot_highest_real_bin_can_win_through_score_partition_over_binsums() {
    let n_parts = 1usize;
    let n_features = 1usize;
    let n_bins = 4usize;
    let real_folds = vec![4u32];
    let lambda = 1.0_f64;

    let bin_sums = build_bin_sums(n_parts, n_features, n_bins, |_p, _f, b| {
        if b == 3 {
            (1.0, 100.0)
        } else {
            (1.0, 0.0)
        }
    });

    let best = score_pass(
        &bin_sums,
        n_parts,
        n_bins,
        n_bins,
        n_features,
        &real_folds,
        true,
        0,
        n_features,
        lambda,
    )
    .expect("scorer must not error")
    .expect("the highest real bin must be a selectable candidate");

    assert_eq!(
        best.bin_id,
        real_folds[0] - 1,
        "the highest REAL bin must be selectable on the one-hot pass — the trailing-border \
         exclusion belongs to the THRESHOLD path only, and it lives in the host belt as \
         well as the kernel"
    );
}

#[test]
fn one_hot_padded_bins_never_win() {
    let n_parts = 1usize;
    let n_features = 1usize;
    let n_bins = 32usize; // the padded line width
    let real_cardinality = 2usize; // the column's TRUE cardinality
    let real_folds = vec![real_cardinality as u32];
    let lambda = 1.0_f64;

    let bin_sums = build_bin_sums(n_parts, n_features, n_bins, |_p, _f, b| {
        if b == 17 {
            (1.0, 1000.0)
        } else if b < real_cardinality {
            (1.0, 1.0)
        } else {
            (0.0, 0.0)
        }
    });

    let best = score_pass(
        &bin_sums,
        n_parts,
        n_bins,
        n_bins,
        n_features,
        &real_folds,
        true,
        0,
        n_features,
        lambda,
    )
    .expect("scorer must not error");

    if let Some(split) = best {
        assert!(
            (split.bin_id as usize) < real_cardinality,
            "a PADDED bin ({}) won the one-hot pass; candidates must be bounded by \
             `real_folds` ({real_cardinality}), never by the padded line width",
            split.bin_id
        );
    }
}

#[test]
fn one_hot_winner_reports_the_absolute_device_feature_index() {
    let n_parts = 1usize;
    let n_float = 3usize;
    let n_features = 5usize; // device features 3 and 4 are one-hot
    let n_bins = 4usize;
    let real_folds = vec![4u32, 4, 4, 4, 4];
    let lambda = 1.0_f64;

    let bin_sums = build_bin_sums(n_parts, n_features, n_bins, |_p, f, b| {
        if f == 4 && b == 1 {
            (1.0, 50.0)
        } else if f == 4 {
            (1.0, 0.0)
        } else {
            (1.0, 0.0)
        }
    });

    let best = score_pass(
        &bin_sums,
        n_parts,
        n_bins,
        n_bins,
        n_features,
        &real_folds,
        true,
        n_float,
        n_features,
        lambda,
    )
    .expect("scorer must not error")
    .expect("device feature 4 carries a real candidate");

    assert_eq!(
        best.feature_id, 4,
        "the pass must report the ABSOLUTE device feature index (4), not the \
         pass-relative one (4 - feature_lo = 1), which would attribute a one-hot \
         split to a float feature"
    );
}

#[test]
fn pass_b_with_no_eligible_candidate_produces_no_winner() {
    let n_parts = 1usize;
    let n_float = 1usize;
    let n_features = 2usize;
    let n_bins = 4usize;
    let real_folds = vec![4u32, 0];
    let lambda = 1.0_f64;

    let bin_sums = build_bin_sums(n_parts, n_features, n_bins, |_p, _f, _b| (1.0, 1.0));

    let best = score_pass(
        &bin_sums,
        n_parts,
        n_bins,
        n_bins,
        n_features,
        &real_folds,
        true,
        n_float,
        n_features,
        lambda,
    )
    .expect("scorer must not error");

    assert!(
        best.is_none(),
        "a pass whose every candidate is ineligible must return None, not a phantom \
         winner decoded from the pass's own sentinel"
    );
}

#[test]
fn float_only_scorer_output_is_numerically_identical_after_the_one_hot_arm() {
    let n_parts = 2usize;
    let n_features = 3usize;
    let n_bins = 8usize;
    let lambda = 2.0_f64;
    let real_folds = vec![n_bins as u32; n_features];

    let cell = |part: usize, f: usize, b: usize| -> (f64, f64) {
        let w = 1.0 + ((part * 5 + f * 3 + b) % 7) as f64;
        let d = ((part * 11 + f * 13 + b * 3) % 9) as f64 - 4.0;
        (w, d)
    };
    let bin_sums = build_bin_sums(n_parts, n_features, n_bins, cell);

    let best = score_pass(
        &bin_sums,
        n_parts,
        n_bins,
        n_bins,
        n_features,
        &real_folds,
        /* one_hot = */ false,
        /* feature_lo = */ 0,
        /* feature_hi = */ n_features,
        lambda,
    )
    .expect("scorer must not error")
    .expect("a float-only level must produce a winner");

    let term = |d: f64, w: f64| -> f64 {
        if w > 0.0 {
            d * d / (w + lambda)
        } else {
            0.0
        }
    };
    let mut cpu_best = (f64::NEG_INFINITY, usize::MAX, usize::MAX);
    for f in 0..n_features {
        for border in 0..n_bins.saturating_sub(1) {
            let mut acc = 0.0;
            for part in 0..n_parts {
                let (mut lw, mut ld, mut rw, mut rd) = (0.0, 0.0, 0.0, 0.0);
                for b in 0..n_bins {
                    let (w, d) = cell(part, f, b);
                    if b <= border {
                        lw += w;
                        ld += d;
                    } else {
                        rw += w;
                        rd += d;
                    }
                }
                acc += term(ld, lw);
                acc += term(rd, rw);
            }
            if acc > cpu_best.0 {
                cpu_best = (acc, f, border);
            }
        }
    }

    assert_eq!(
        (best.feature_id as usize, best.bin_id as usize),
        (cpu_best.1, cpu_best.2),
        "the float-only winner must be unchanged by the one-hot arm"
    );
    assert!(
        (best.gain.0 - cpu_best.0).abs() <= 1e-5 * cpu_best.0.abs().max(1.0),
        "float-only gain {} vs reference {}",
        best.gain.0,
        cpu_best.0
    );
}

const N: usize = 30;
const N_FEATURES: usize = 3;
const N_BINS: usize = 32;
const N_BINS_USED: usize = 4;
const L2: f64 = 3.0;

const SEGMENTS: [(usize, usize); 5] = [(1, 2), (2, 4), (4, 8), (8, 16), (16, 30)];

struct Fixture {
    bins: Vec<Vec<usize>>,
    der1: Vec<f64>,
    weight: Vec<f64>,
    permutation: Vec<usize>,
}

impl Fixture {
    fn new() -> Self {
        let bins: Vec<Vec<usize>> = (0..N_FEATURES)
            .map(|f| {
                (0..N)
                    .map(|i| match f {
                        0 => i % N_BINS_USED,
                        1 => (i / 4) % N_BINS_USED,
                        _ => (i * 7 + 3) % N_BINS_USED,
                    })
                    .collect()
            })
            .collect();
        let der1 = (0..N)
            .map(|i| ((i as f64) * 0.37).sin() * 0.5 + 0.05 * (i as f64 % 3.0))
            .collect();
        let weight = (0..N).map(|i| 0.5 + 0.5 * ((i % 5) as f64) / 4.0).collect();
        let permutation = (0..N).map(|p| (p * 7) % N).collect();
        Self {
            bins,
            der1,
            weight,
            permutation,
        }
    }

    fn body_sum_weight(&self, body_finish: usize) -> f64 {
        self.weight.iter().take(body_finish).sum()
    }

    fn scaled_l2(&self, body_finish: usize) -> f64 {
        if body_finish == 0 {
            L2
        } else {
            L2 * (self.body_sum_weight(body_finish) / body_finish as f64)
        }
    }

    fn per_segment_lambda(&self) -> Vec<f64> {
        SEGMENTS
            .iter()
            .map(|&(body_finish, _)| self.scaled_l2(body_finish))
            .collect()
    }
}

fn leaf_term(d: f64, w: f64, lambda: f64) -> f64 {
    if w > 0.0 {
        d * d / (w + lambda)
    } else {
        0.0
    }
}

fn cpu_ordered_score(
    fx: &Fixture,
    part_of: &[usize],
    n_parts: usize,
    feature: usize,
    border: usize,
) -> f64 {
    let mut segment_scores: Vec<f64> = Vec::with_capacity(SEGMENTS.len());
    for &(body_finish, tail_finish) in SEGMENTS.iter() {
        let lambda = fx.scaled_l2(body_finish);
        let mut sum_d = vec![0.0_f64; n_parts * 2];
        let mut sum_w = vec![0.0_f64; n_parts * 2];
        for p in 0..tail_finish.min(fx.permutation.len()) {
            let obj = match fx.permutation.get(p) {
                Some(&o) => o,
                None => continue,
            };
            let bin = fx.bins.get(feature).and_then(|c| c.get(obj)).copied().unwrap_or(0);
            let part = part_of.get(obj).copied().unwrap_or(0);
            let side = usize::from(bin > border);
            let leaf = part * 2 + side;
            if let Some(slot) = sum_d.get_mut(leaf) {
                *slot += fx.der1.get(obj).copied().unwrap_or(0.0);
            }
            if let Some(slot) = sum_w.get_mut(leaf) {
                *slot += fx.weight.get(obj).copied().unwrap_or(0.0);
            }
        }
        let mut acc = 0.0;
        for leaf in 0..n_parts * 2 {
            acc += leaf_term(
                sum_d.get(leaf).copied().unwrap_or(0.0),
                sum_w.get(leaf).copied().unwrap_or(0.0),
                lambda,
            );
        }
        segment_scores.push(acc);
    }
    segment_scores.iter().sum()
}

fn cpu_best_candidate(fx: &Fixture, part_of: &[usize], n_parts: usize) -> (usize, usize, f64) {
    let mut best = (usize::MAX, usize::MAX, f64::NEG_INFINITY);
    for feature in 0..N_FEATURES {
        for border in 0..N_BINS_USED - 1 {
            let score = cpu_ordered_score(fx, part_of, n_parts, feature, border);
            if score > best.2 {
                best = (feature, border, score);
            }
        }
    }
    best
}

fn build_segment_bin_sums(fx: &Fixture, part_of: &[usize], n_parts: usize) -> Vec<u64> {
    let leaf_stride = N_FEATURES * N_BINS * 2;
    let seg_stride = n_parts * leaf_stride;
    let mut acc = vec![0.0_f64; SEGMENTS.len() * seg_stride];
    for (s, &(_, tail_finish)) in SEGMENTS.iter().enumerate() {
        for p in 0..tail_finish.min(fx.permutation.len()) {
            let obj = match fx.permutation.get(p) {
                Some(&o) => o,
                None => continue,
            };
            let part = part_of.get(obj).copied().unwrap_or(0);
            let d = fx.der1.get(obj).copied().unwrap_or(0.0);
            let w = fx.weight.get(obj).copied().unwrap_or(0.0);
            for f in 0..N_FEATURES {
                let bin = fx.bins.get(f).and_then(|c| c.get(obj)).copied().unwrap_or(0);
                let base = s * seg_stride + part * leaf_stride + (f * N_BINS + bin) * 2;
                if let Some(slot) = acc.get_mut(base) {
                    *slot += w;
                }
                if let Some(slot) = acc.get_mut(base + 1) {
                    *slot += d;
                }
            }
        }
    }
    acc.into_iter().map(encode).collect()
}

fn device_best(fx: &Fixture, part_of: &[usize], n_parts: usize) -> Option<BestSplit<Double>> {
    let bin_sums = build_segment_bin_sums(fx, part_of, n_parts);
    match score_ordered_over_segment_binsums(
        &bin_sums,
        n_parts,
        N_BINS,
        N_BINS_USED,
        N_FEATURES,
        &doubles(&fx.per_segment_lambda()),
    ) {
        Ok(best) => best,
        Err(e) => panic!("ordered scorer returned an error: {e:?}"),
    }
}

#[test]
fn ordered_scorer_matches_cpu_reference_at_level_0() {
    let fx = Fixture::new();
    let part_of = vec![0usize; N];
    let (cpu_f, cpu_b, cpu_score) = cpu_best_candidate(&fx, &part_of, 1);

    let best = match device_best(&fx, &part_of, 1) {
        Some(b) => b,
        None => panic!("device ordered scorer found no candidate at level 0"),
    };

    assert_eq!(
        (best.feature_id as usize, best.bin_id as usize),
        (cpu_f, cpu_b),
        "level 0: device chose (f={}, b={}), CPU reference chose (f={cpu_f}, b={cpu_b})",
        best.feature_id,
        best.bin_id,
    );
    let diff = (best.gain.0 - cpu_score).abs();
    assert!(
        diff <= 1e-4,
        "level 0 summed score: device {} vs CPU {cpu_score} (|diff| = {diff} > 1e-4)",
        best.gain.0,
    );
}

#[test]
fn ordered_scorer_matches_cpu_reference_at_level_1() {
    let fx = Fixture::new();
    let part_of: Vec<usize> = (0..N)
        .map(|obj| {
            let bin = fx.bins.get(1).and_then(|c| c.get(obj)).copied().unwrap_or(0);
            usize::from(bin > 1)
        })
        .collect();
    let (cpu_f, cpu_b, cpu_score) = cpu_best_candidate(&fx, &part_of, 2);

    let best = match device_best(&fx, &part_of, 2) {
        Some(b) => b,
        None => panic!("device ordered scorer found no candidate at level 1"),
    };

    assert_eq!(
        (best.feature_id as usize, best.bin_id as usize),
        (cpu_f, cpu_b),
        "level 1: device chose (f={}, b={}), CPU reference chose (f={cpu_f}, b={cpu_b})",
        best.feature_id,
        best.bin_id,
    );
    let diff = (best.gain.0 - cpu_score).abs();
    assert!(
        diff <= 1e-4,
        "level 1 summed score: device {} vs CPU {cpu_score} (|diff| = {diff} > 1e-4)",
        best.gain.0,
    );
}

#[test]
fn disjoint_range_segments_would_score_differently_than_nested_prefixes() {
    let fx = Fixture::new();
    let part_of = vec![0usize; N];

    let prefix_score = cpu_ordered_score(&fx, &part_of, 1, 0, 1);

    let mut disjoint_total = 0.0;
    for &(body_finish, tail_finish) in SEGMENTS.iter() {
        let lambda = fx.scaled_l2(body_finish);
        let mut sum_d = vec![0.0_f64; 2];
        let mut sum_w = vec![0.0_f64; 2];
        for p in body_finish..tail_finish.min(fx.permutation.len()) {
            let obj = match fx.permutation.get(p) {
                Some(&o) => o,
                None => continue,
            };
            let bin = fx.bins.first().and_then(|c| c.get(obj)).copied().unwrap_or(0);
            let side = usize::from(bin > 1);
            if let Some(slot) = sum_d.get_mut(side) {
                *slot += fx.der1.get(obj).copied().unwrap_or(0.0);
            }
            if let Some(slot) = sum_w.get_mut(side) {
                *slot += fx.weight.get(obj).copied().unwrap_or(0.0);
            }
        }
        for leaf in 0..2 {
            disjoint_total += leaf_term(
                sum_d.get(leaf).copied().unwrap_or(0.0),
                sum_w.get(leaf).copied().unwrap_or(0.0),
                lambda,
            );
        }
    }

    assert!(
        (prefix_score - disjoint_total).abs() > 1e-3,
        "the prefix and disjoint readings scored the same ({prefix_score} vs {disjoint_total}); \
         this fixture cannot tell the readings apart"
    );
}

#[test]
fn device_prefix_fill_feeds_the_ordered_scorer() {
    let fx = Fixture::new();
    let part_of = vec![0usize; N];
    let n_parts = 1usize;

    let mut bins: Vec<u32> = Vec::with_capacity(N_FEATURES * N);
    for f in 0..N_FEATURES {
        for obj in 0..N {
            bins.push(fx.bins.get(f).and_then(|c| c.get(obj)).copied().unwrap_or(0) as u32);
        }
    }
    let n_buckets = vec![N_BINS; N_FEATURES];
    let one_hot = vec![false; N_FEATURES];
    let packed = match pack_cindex(&bins, &n_buckets, &one_hot, N) {
        Ok(p) => p,
        Err(e) => panic!("pack_cindex failed: {}", e.message()),
    };
    let arrays = match packed.device_arrays() {
        Ok(a) => a,
        Err(e) => panic!("device_arrays failed: {e:?}"),
    };

    let der1: Vec<u64> = fx.der1.iter().map(|&v| encode(v)).collect();
    let weight: Vec<u64> = fx.weight.iter().map(|&v| encode(v)).collect();
    let mut packed_hist: Vec<u64> = Vec::new();
    for &(_, tail_finish) in SEGMENTS.iter() {
        let prefix: Vec<u32> = fx.permutation[..tail_finish].iter().map(|&p| p as u32).collect();
        // The prefix as a pool of its own: its objects' fields, in prefix order.
        let mut cindex: Vec<u32> = Vec::new();
        for f in 0..N_FEATURES {
            for &obj in &prefix {
                let word = packed.words[arrays.offsets[f] as usize + obj as usize];
                cindex.push((word >> arrays.shifts[f]) & arrays.masks[f]);
            }
        }
        let d: Vec<u64> = prefix.iter().map(|&o| der1[o as usize]).collect();
        let w: Vec<u64> = prefix.iter().map(|&o| weight[o as usize]).collect();
        let order: Vec<u32> = (0..tail_finish as u32).collect();
        let mut cells = vec![0u64; N_FEATURES * N_BINS * 2];
        pointwise_hist2_nonbinary_kernel(&d, &w, &cindex, &order, &mut cells, N_FEATURES, N_BINS);
        // The scorer reads the weight before the derivative.
        for pair in cells.chunks(2) {
            packed_hist.push(pair[1]);
            packed_hist.push(pair[0]);
        }
    }

    let best = match score_ordered_over_segment_binsums(
        &packed_hist,
        n_parts,
        N_BINS,
        N_BINS_USED,
        N_FEATURES,
        &doubles(&fx.per_segment_lambda()),
    ) {
        Ok(Some(b)) => b,
        Ok(None) => panic!("device found no candidate over the device-filled histograms"),
        Err(e) => panic!("ordered scorer errored over device-filled histograms: {e:?}"),
    };

    let (cpu_f, cpu_b, cpu_score) = cpu_best_candidate(&fx, &part_of, n_parts);
    assert_eq!(
        (best.feature_id as usize, best.bin_id as usize),
        (cpu_f, cpu_b),
        "device-filled: chose (f={}, b={}), CPU reference chose (f={cpu_f}, b={cpu_b})",
        best.feature_id,
        best.bin_id,
    );
    let diff = (best.gain.0 - cpu_score).abs();
    assert!(
        diff <= 1e-4,
        "device-filled summed score: {} vs CPU {cpu_score} (|diff| = {diff} > 1e-4)",
        best.gain.0,
    );
}

#[test]
fn the_first_of_equal_scores_wins() {
    let scores = doubles(&[1.0, 3.0, 2.0, 3.0]);
    let best = select_best_split_over_scores(&scores, 2).expect("in range").expect("a winner");
    assert_eq!((best.feature_id, best.bin_id, best.score), (0, 1, Double(3.0)));
    assert_eq!(best_of_blocks(&scores, &[3, 9, 1]), Some(1));
    assert_eq!(best_of_blocks(&scores, &[9]), None);
    assert!(matches!(select_best_split_over_scores(&scores, 0), Ok(None)));
    assert!(matches!(select_best_split_over_scores::<Double>(&[], 4), Ok(None)));
    let (gain, idx) = select_best_split_kernel(&scores);
    assert_eq!((gain, idx), (Double(3.0), 1));
    let nan = doubles(&[f64::NAN, f64::NAN]);
    assert!(matches!(select_best_split_over_scores(&nan, 2), Ok(None)));
}

#[test]
fn a_later_winner_beyond_one_lane_sweep_is_found() {
    let mut values = vec![0.0_f64; 100];
    values[70] = 5.0;
    values[99] = 5.0;
    let (gain, idx) = select_best_split_kernel(&doubles(&values));
    assert_eq!((gain, idx), (Double(5.0), 70));
}

#[test]
fn leaf_terms_follow_their_formulas() {
    let (sum, w, l) = (Double(3.0), Double(2.0), Double(1.0));
    assert_eq!(cb_leaf_avg(sum, w, l), Double(1.0));
    assert_eq!(cb_leaf_avg(sum, Double(0.0), l), Double(0.0));
    assert_eq!(cb_leaf_score_term(sum, w, l, SCORE_FN_L2), Double(3.0));
    let solar = cb_leaf_score_term(sum, w, l, SCORE_FN_SOLAR_L2).0;
    assert!((solar - (-9.0) * (1.0 + 2.0 * 3.0_f64.ln()) / 2.0).abs() < 1e-12);
}

#[test]
fn a_stump_is_scored_on_the_weights_and_derivatives_of_its_sides() {
    // One feature of four bins: weights one, derivatives -1, -1, 1, 1.
    let cells = doubles(&[1.0, -1.0, 1.0, -1.0, 1.0, 1.0, 1.0, 1.0]);
    let swapped: Vec<Double> = cells.chunks(2).flat_map(|p| vec![p[1], p[0]]).collect();
    let found = find_optimal_split_kernel(&swapped, Double(0.0), 1, 4, SCORE_FN_L2);
    assert_eq!(found.best_idx, 1);
    assert_eq!(found.best_gain, Double(4.0));
    assert_eq!(found.scores.len(), 4);
}

#[test]
fn sides_of_a_line_add_up() {
    let cells = build_bin_sums(1, 1, 4, |_p, _f, b| (1.0 + b as f64, b as f64 - 2.0));
    let whole: u64 = (0..4).fold(0u64, |acc, b| acc.wrapping_add(cells[b * 2 + 1]));
    let left: u64 = (0..2).fold(0u64, |acc, b| acc.wrapping_add(cells[b * 2 + 1]));
    let right: u64 = (2..4).fold(0u64, |acc, b| acc.wrapping_add(cells[b * 2 + 1]));
    assert_eq!(left.wrapping_add(right), whole);
    let best = score_pass(&cells, 1, 4, 4, 1, &[4], false, 0, 1, 1.0).expect("in range").expect("a winner");
    assert!(best.bin_id < 3, "the last border separates nothing");
}
