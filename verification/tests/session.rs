//! Sessions: what is covered, what is checked, and what trees ask of a device.

use cb_backend::channel::{Channel, Real, REDUCE_FIXEDPOINT_SCALE};
use cb_backend::cindex::pack_cindex;
use cb_backend::config::{
    device_backend_active, Backend, DeviceBootstrapType, DeviceCtrAveraging, DeviceCtrColumn, DeviceCtrConfig,
    DeviceGrowPolicy, DeviceTrainConfig, EScoreFunction, Loss,
};
use cb_backend::coverage::{ctr_covered, pad_hist_line_bins, NonsymPolicy};
use cb_backend::ctr::{ctr_fold, read_ctr_columns, select_from_readback, CtrFold};
use cb_backend::error::{CbError, Column, Degeneracy, RangeFault};
use cb_backend::loss::host_der1;
use cb_backend::partition::partition_split_packed;
use cb_backend::rng::TFastRng64;
use cb_backend::session::{compute_exact_leaf_values, exact_leaf_groups, GpuTrainSession, GrowAction, Sample};
use cb_backend::smooth::Smooth;
use cb_backend::split::{cb_leaf_avg, score_partition_over_binsums, SCORE_FN_COSINE};
use cb_backend::warmup::{cindex_feature_major, warmup_classes, warmup_pool};

/// A double-precision element.
#[derive(Clone, Copy, Debug, PartialEq)]
struct Double(f64);

impl Channel for Double {
    fn zero() -> Self {
        Double(0.0)
    }

    fn plus(self, other: Self) -> Self {
        Double(self.0 + other.0)
    }

    fn zero_spec() -> Self {
        Self::zero()
    }

    fn plus_spec(self, other: Self) -> Self {
        self.plus(other)
    }
}

impl Real for Double {
    fn one() -> Self {
        Double(1.0)
    }

    fn bottom() -> Self {
        Double(f64::NEG_INFINITY)
    }

    fn floor() -> Self {
        Double(f64::from(f32::MIN))
    }

    fn tiny() -> Self {
        Double(1e-100)
    }

    fn eps() -> Self {
        Double(1e-20)
    }

    fn negated(self) -> Self {
        Double(-self.0)
    }

    fn sqrt(self) -> Self {
        Double(self.0.sqrt())
    }

    fn ln(self) -> Self {
        Double(self.0.ln())
    }

    fn minus(self, other: Self) -> Self {
        Double(self.0 - other.0)
    }

    fn times(self, other: Self) -> Self {
        Double(self.0 * other.0)
    }

    fn over(self, other: Self) -> Self {
        Double(self.0 / other.0)
    }

    fn narrow(self) -> Self {
        Double(f64::from(self.0 as f32))
    }

    fn count(n: usize) -> Self {
        Double(n as f64)
    }

    fn decode(raw: u64) -> Self {
        Double((raw as i64) as f64 / REDUCE_FIXEDPOINT_SCALE as f64)
    }

    fn encode(self) -> u64 {
        ((self.0 * REDUCE_FIXEDPOINT_SCALE as f64).round() as i64) as u64
    }

    fn above(self, other: Self) -> bool {
        self.0 > other.0
    }

    fn ties(self, other: Self) -> bool {
        self.0 == other.0
    }

    fn one_spec() -> Self {
        Self::one()
    }

    fn bottom_spec() -> Self {
        Self::bottom()
    }

    fn floor_spec() -> Self {
        Self::floor()
    }

    fn tiny_spec() -> Self {
        Self::tiny()
    }

    fn eps_spec() -> Self {
        Self::eps()
    }

    fn negated_spec(self) -> Self {
        self.negated()
    }

    fn sqrt_spec(self) -> Self {
        self.sqrt()
    }

    fn ln_spec(self) -> Self {
        self.ln()
    }

    fn narrow_spec(self) -> Self {
        self.narrow()
    }

    fn minus_spec(self, other: Self) -> Self {
        self.minus(other)
    }

    fn times_spec(self, other: Self) -> Self {
        self.times(other)
    }

    fn over_spec(self, other: Self) -> Self {
        self.over(other)
    }

    fn count_spec(n: usize) -> Self {
        Self::count(n)
    }

    fn decode_spec(raw: u64) -> Self {
        Self::decode(raw)
    }

    fn encode_spec(self) -> u64 {
        self.encode()
    }

    fn above_spec(self, other: Self) -> bool {
        self.above(other)
    }

    fn is_number(self) -> bool {
        !self.0.is_nan()
    }

    fn order_laws(_: Self, _: Self, _: Self) {}
}

impl Smooth for Double {
    fn half() -> Self {
        Double(0.5)
    }

    fn chance() -> Self {
        Double(1e-13)
    }

    fn abs(self) -> Self {
        Double(self.0.abs())
    }

    fn exp(self) -> Self {
        Double(self.0.exp())
    }

    fn powf(self, e: Self) -> Self {
        Double(self.0.powf(e.0))
    }

    fn tanh(self) -> Self {
        Double(self.0.tanh())
    }

    fn cosh(self) -> Self {
        Double(self.0.cosh())
    }

    fn class(self) -> usize {
        if self.0.is_finite() && self.0 >= 0.0 {
            self.0.round() as usize
        } else {
            0
        }
    }

    fn sort_key(self) -> u64 {
        (self.0 + 0.0).to_bits()
    }

    fn half_spec() -> Self {
        Self::half()
    }

    fn chance_spec() -> Self {
        Self::chance()
    }

    fn abs_spec(self) -> Self {
        self.abs()
    }

    fn exp_spec(self) -> Self {
        self.exp()
    }

    fn tanh_spec(self) -> Self {
        self.tanh()
    }

    fn cosh_spec(self) -> Self {
        self.cosh()
    }

    fn powf_spec(self, e: Self) -> Self {
        self.powf(e)
    }

    fn class_spec(self) -> usize {
        self.class()
    }

    fn sort_key_spec(self) -> u64 {
        self.sort_key()
    }

    fn sort_key_laws(_: Self, _: Self) {}
}

fn doubles(values: &[f64]) -> Vec<Double> {
    values.iter().map(|&v| Double(v)).collect()
}

const GROW_EPS: f64 = 1e-4;

const LEAF_BOUND: f64 = 1e-3;

fn default_config() -> DeviceTrainConfig<Double> {
    DeviceTrainConfig::plain(Backend::Cpu, Double(1.0), Double(0.5), Double(1e-6))
}

fn scale_l2_reg(l2: f64, sum_weight: f64, n: usize) -> f64 {
    l2 * (sum_weight / n as f64)
}

fn ramp_centred(n: usize) -> Vec<f64> {
    (0..n).map(|k| (k as f64) - (n as f64) / 2.0).collect()
}

fn weight_mod5(n: usize) -> Vec<f64> {
    (0..n).map(|k| 0.5 + ((k % 5) as f64) * 0.25).collect()
}

fn ctr_column(member_bins: Vec<Vec<u32>>, prior: f64, borders: &[f64]) -> DeviceCtrColumn<Double> {
    DeviceCtrColumn {
        member_bins,
        prior: Double(prior),
        borders: doubles(borders),
        bucket_count: 0,
        weight_group: 0,
        ctr_type: 0,
        target_border_idx: 0,
        projection_members: vec![],
    }
}

/// A column as a device hands it back.
fn column_bytes(column: &[u32]) -> Vec<u8> {
    column.iter().flat_map(|v| v.to_ne_bytes()).collect()
}

/// The stream of a device sampling, continued from its state.
struct Stream([u64; 4]);

impl Stream {
    fn next(&mut self) -> u64 {
        let step = |x: u64, c: u64| x.wrapping_mul(6364136223846793005).wrapping_add(c);
        let mix = |x: u64| ((((x >> 18) ^ x) >> 27) as u32).rotate_right((x >> 59) as u32);
        self.0[0] = step(self.0[0], self.0[1]);
        self.0[2] = step(self.0[2], self.0[3]);
        (u64::from(mix(self.0[0])) << 32) | u64::from(mix(self.0[2]))
    }
}

struct Tree {
    splits: Vec<(u32, u32)>,
    leaf_of: Vec<u32>,
    leaf_values: Vec<f64>,
}

/// Grows a symmetric tree level by level: fixed-point histograms per leaf, the scorer, the
/// packed routing, and the leaf averages.
fn grow_oblivious_tree(
    der1: &[f64],
    weight: &[f64],
    cindex: &[u32],
    n: usize,
    n_bins: usize,
    n_bins_used: usize,
    n_features: usize,
    depth: usize,
    scaled_l2: f64,
    score_fn: u32,
) -> Tree {
    let encode = |v: f64| Double(v).encode();
    let packed = pack_cindex(cindex, &vec![n_bins; n_features], &vec![false; n_features], n).expect("a valid table");
    let arrays = packed.device_arrays().expect("small offsets");
    let mut leaf_of = vec![0u32; n];
    let mut splits = Vec::new();
    for level in 0..depth {
        let n_parts = 1usize << level;
        let mut cells = vec![0u64; n_parts * n_features * n_bins * 2];
        for obj in 0..n {
            for f in 0..n_features {
                let bin = cindex[f * n + obj] as usize;
                let at = leaf_of[obj] as usize * (n_features * n_bins * 2) + (f * n_bins + bin) * 2;
                cells[at] = cells[at].wrapping_add(encode(weight[obj]));
                cells[at + 1] = cells[at + 1].wrapping_add(encode(der1[obj]));
            }
        }
        let best = score_partition_over_binsums(
            &cells,
            n_parts,
            n_bins,
            n_bins_used,
            n_features,
            Double(scaled_l2),
            score_fn,
            &[],
            false,
            0,
            n_features,
        )
        .expect("in range")
        .expect("a candidate at every level");
        let f = best.feature_id as usize;
        leaf_of = partition_split_packed(
            &packed.words,
            &leaf_of,
            arrays.offsets[f] as usize,
            arrays.shifts[f],
            arrays.masks[f],
            best.bin_id,
            level as u32,
            false,
        );
        splits.push((best.feature_id, best.bin_id));
    }
    let leaf_values = (0..1u32 << depth)
        .map(|leaf| {
            let members: Vec<usize> = (0..n).filter(|&i| leaf_of[i] == leaf).collect();
            let d: f64 = members.iter().map(|&i| der1[i]).sum();
            let w: f64 = members.iter().map(|&i| weight[i]).sum();
            cb_leaf_avg(Double(d), Double(w), Double(scaled_l2)).0
        })
        .collect();
    Tree { splits, leaf_of, leaf_values }
}

/// The weighted median of residuals.
fn median(residuals: &[Double], weights: &[Double]) -> f64 {
    let mut order: Vec<usize> = (0..residuals.len()).collect();
    order.sort_by(|&a, &b| residuals[a].0.partial_cmp(&residuals[b].0).expect("finite residuals"));
    let total: f64 = weights.iter().map(|w| w.0).sum();
    let mut seen = 0.0;
    for i in order {
        seen += weights[i].0;
        if seen * 2.0 >= total {
            return residuals[i].0;
        }
    }
    0.0
}

/// Does what a resident device does for one tree of a session.
fn grow_resident(session: &GpuTrainSession<Double>, approx: &[f64], target: &[f64], kept: &[f64]) -> Tree {
    let der1 = host_der1(session.der_kernel, &doubles(approx), &doubles(target));
    let n = session.n();
    let sampled: Vec<f64> = (0..n).map(|i| session.weight[i].0 * kept[i]).collect();
    let ders: Vec<f64> = (0..n).map(|i| der1[i].0 * kept[i]).collect();
    let tree = grow_oblivious_tree(
        &ders,
        &sampled,
        &session.cindex,
        n,
        session.n_bins_line,
        session.n_bins,
        session.n_features_effective(),
        session.depth,
        session.scaled_l2.0,
        session.score_fn,
    );
    let exact = match &session.exact_leaf {
        Some(ex) => {
            let (res, w) = exact_leaf_groups(
                &tree.leaf_of,
                1 << session.depth,
                &doubles(approx),
                &doubles(target),
                &session.weight,
                ex.mape,
            );
            res.iter().zip(w.iter()).map(|(r, w)| Double(median(r, w))).collect()
        }
        None => Vec::new(),
    };
    let grown = session.finish_tree(tree.splits, tree.leaf_of, doubles(&tree.leaf_values), exact);
    assert_eq!(grown.approx_dim, 1);
    Tree {
        splits: grown.splits,
        leaf_of: grown.leaf_of,
        leaf_values: grown.leaf_values.iter().map(|v| v.0).collect(),
    }
}

fn max_divergence(device: &[f64], baseline: &[f64]) -> (f64, f64) {
    let mut abs = 0.0_f64;
    let mut rel = 0.0_f64;
    for (&d, &b) in device.iter().zip(baseline.iter()) {
        let a = (d - b).abs();
        abs = abs.max(a);
        let denom = b.abs().max(1e-12);
        rel = rel.max(a / denom);
    }
    (abs, rel)
}

#[test]
fn session_depth_gt1_gate_declines_uncovered() {
    let n = 37usize;
    let n_features = 3usize;
    let n_bins = 32usize;
    let weight = weight_mod5(n);
    let cindex = cindex_feature_major(n, n_features, n_bins);
    let scaled_l2 = scale_l2_reg(3.0, weight.iter().sum::<f64>(), n);
    let lr = 0.3_f64;

    let open = |depth: usize,
                plain: bool,
                folds: usize,
                loss: &Loss<Double>,
                sf: EScoreFunction,
                cfg: &DeviceTrainConfig<Double>| {
        GpuTrainSession::begin(
            loss, depth, plain, folds, sf, &cindex, &doubles(&weight), n, n_features, n_bins, Double(lr), Double(scaled_l2),
            cfg, &[],
        )
        .expect("begin must not error while classifying coverage")
        .is_some()
    };
    let def = default_config();

    assert!(
        open(6, true, 1, &Loss::Rmse, EScoreFunction::Cosine, &def),
        "depth-6 Plain/fold1/RMSE/Cosine must now be covered"
    );
    assert!(
        open(2, true, 1, &Loss::Logloss, EScoreFunction::Cosine, &def),
        "depth-2 Plain/fold1/Logloss/Cosine must now be covered"
    );

    assert!(
        !open(6, false, 1, &Loss::Rmse, EScoreFunction::Cosine, &def),
        "non-Plain (Ordered) must decline even at depth>1"
    );
    assert!(
        !open(6, true, 2, &Loss::Rmse, EScoreFunction::Cosine, &def),
        "fold_count>1 must decline even at depth>1"
    );
    assert!(
        !open(6, true, 1, &Loss::Mae, EScoreFunction::Cosine, &def),
        "an unmapped loss must decline even at depth>1"
    );
    assert!(
        !open(0, true, 1, &Loss::Rmse, EScoreFunction::Cosine, &def),
        "depth==0 (no tree to grow) must decline"
    );

    let depthwise = DeviceTrainConfig {
        grow_policy: DeviceGrowPolicy::Depthwise,
        ..default_config()
    };
    assert!(
        open(6, true, 1, &Loss::Rmse, EScoreFunction::Cosine, &depthwise),
        "Depthwise grow_policy must now be covered"
    );
    let lossguide = DeviceTrainConfig {
        grow_policy: DeviceGrowPolicy::Lossguide,
        max_leaves: Some(8),
        ..default_config()
    };
    assert!(
        open(6, true, 1, &Loss::Rmse, EScoreFunction::Cosine, &lossguide),
        "Lossguide grow_policy (with a leaf cap) must now be covered"
    );
    let region = DeviceTrainConfig {
        grow_policy: DeviceGrowPolicy::Region,
        ..default_config()
    };
    assert!(
        !open(6, true, 1, &Loss::Rmse, EScoreFunction::Cosine, &region),
        "Region grow_policy must still decline"
    );
    let exact = DeviceTrainConfig {
        exact_leaf: true,
        ..default_config()
    };
    assert!(
        !open(6, true, 1, &Loss::Rmse, EScoreFunction::Cosine, &exact),
        "an exact-leaf config with a NON-quantile loss (RMSE) must decline"
    );
    assert!(
        !open(6, true, 1, &Loss::Logloss, EScoreFunction::Cosine, &exact),
        "an exact-leaf config with Logloss (non-quantile) must decline"
    );
}

#[test]
fn session_exact_leaf_gate_covers_quantile_family() {
    let n = 41usize;
    let n_features = 3usize;
    let n_bins = 32usize;
    let weight = weight_mod5(n);
    let cindex = cindex_feature_major(n, n_features, n_bins);
    let scaled_l2 = scale_l2_reg(3.0, weight.iter().sum::<f64>(), n);
    let lr = 0.3_f64;

    let open = |loss: &Loss<Double>, cfg: &DeviceTrainConfig<Double>| {
        GpuTrainSession::begin(
            loss, 6, true, 1, EScoreFunction::Cosine, &cindex, &doubles(&weight), n, n_features, n_bins, Double(lr),
            Double(scaled_l2), cfg, &[],
        )
        .expect("begin must not error while classifying the exact-leaf arm")
        .is_some()
    };

    let exact = DeviceTrainConfig { exact_leaf: true, ..default_config() };
    let exact_q = DeviceTrainConfig {
        exact_leaf: true,
        quantile_alpha: Double(0.25),
        quantile_delta: Double(1e-6),
        ..default_config()
    };

    assert!(open(&Loss::Mae, &exact), "exact-leaf + MAE must open a session");
    assert!(
        open(&Loss::Quantile { alpha: Double(0.25), delta: Double(1e-6) }, &exact_q),
        "exact-leaf + Quantile must open a session"
    );
    assert!(open(&Loss::Mape, &exact), "exact-leaf + MAPE must open a session");

    assert!(!open(&Loss::Rmse, &exact), "exact-leaf + RMSE must decline (non-quantile)");

    let exact_plus_bootstrap = DeviceTrainConfig {
        exact_leaf: true,
        bootstrap_type: DeviceBootstrapType::Bernoulli,
        ..default_config()
    };
    assert!(
        !open(&Loss::Mae, &exact_plus_bootstrap),
        "exact-leaf + a second non-default family flag must still decline (all-or-nothing)"
    );

    let def = default_config();
    assert!(!open(&Loss::Mae, &def), "MAE without exact_leaf keeps the Newton path (declines)");
    assert!(open(&Loss::Rmse, &def), "RMSE (Newton) still opens — default path unchanged");
}

#[test]
fn session_bootstrap_gate_covers_bernoulli_bayesian_poisson() {
    let n = 41usize;
    let n_features = 3usize;
    let n_bins = 32usize;
    let weight = weight_mod5(n);
    let cindex = cindex_feature_major(n, n_features, n_bins);
    let scaled_l2 = scale_l2_reg(3.0, weight.iter().sum::<f64>(), n);

    let open = |cfg: &DeviceTrainConfig<Double>| {
        GpuTrainSession::begin(
            &Loss::Rmse, 6, true, 1, EScoreFunction::Cosine, &cindex, &doubles(&weight), n, n_features,
            n_bins, Double(0.3), Double(scaled_l2), cfg, &[],
        )
        .expect("begin must not error while classifying the bootstrap arm")
        .is_some()
    };

    let bern = DeviceTrainConfig {
        bootstrap_type: DeviceBootstrapType::Bernoulli,
        sample_rate: Double(0.7),
        rng_seed: 17,
        ..default_config()
    };
    let bayes = DeviceTrainConfig {
        bootstrap_type: DeviceBootstrapType::Bayesian,
        rng_seed: 42,
        ..default_config()
    };
    let pois = DeviceTrainConfig {
        bootstrap_type: DeviceBootstrapType::Poisson,
        rng_seed: 7,
        ..default_config()
    };
    assert!(open(&bern), "Bernoulli bootstrap must open a session");
    assert!(open(&bayes), "Bayesian bootstrap must open a session");
    assert!(open(&pois), "Poisson bootstrap must open a session");

    let mvs = DeviceTrainConfig {
        bootstrap_type: DeviceBootstrapType::Mvs,
        ..default_config()
    };
    assert!(!open(&mvs), "MVS bootstrap must still decline");

    let bern_plus_exact = DeviceTrainConfig {
        bootstrap_type: DeviceBootstrapType::Bernoulli,
        exact_leaf: true,
        ..default_config()
    };
    assert!(
        !open(&bern_plus_exact),
        "bootstrap + a second non-default family flag must decline (all-or-nothing)"
    );

    assert!(open(&default_config()), "the No-bootstrap default still opens");
}

#[test]
fn session_ctr_gate_covers_single_permutation() {
    let n = 64usize;
    let n_features = 3usize;
    let n_bins = 32usize;
    let weight = weight_mod5(n);
    let cindex = cindex_feature_major(n, n_features, n_bins);
    let scaled_l2 = scale_l2_reg(3.0, weight.iter().sum::<f64>(), n);

    let cat: Vec<u32> = (0..n).map(|k| (k % 5) as u32).collect();
    let target_class: Vec<u32> = (0..n).map(|k| (k % 2) as u32).collect();
    let permutation: Vec<u32> = (0..n as u32).collect();
    let borders: Vec<f64> = (1..n_bins).map(|b| b as f64 / n_bins as f64).collect();
    assert_eq!(borders.len() + 1, n_bins, "borders must yield exactly n_bins buckets");
    let covered_ctr = || DeviceCtrConfig {
        permutation: permutation.clone(),
        target_class: target_class.clone(),
        columns: vec![ctr_column(vec![cat.clone()], 0.5, &borders)],
        averaging: None,
    };
    let ctr_bins = read_ctr_columns(&[column_bytes(&cat)]);

    let open = |folds: usize, cfg: &DeviceTrainConfig<Double>| {
        GpuTrainSession::begin(
            &Loss::Rmse, 6, true, folds, EScoreFunction::Cosine, &cindex, &doubles(&weight), n, n_features,
            n_bins, Double(0.3), Double(scaled_l2), cfg, &ctr_bins,
        )
        .expect("begin must not error while classifying / building the CTR arm")
        .is_some()
    };

    let cfg_covered = DeviceTrainConfig {
        ctr: Some(covered_ctr()),
        ..default_config()
    };
    assert!(
        open(1, &cfg_covered),
        "a single-permutation covered CTR config must open a session"
    );

    assert!(
        !open(2, &cfg_covered),
        "a multi-fold (fold_count>1) CTR config must decline"
    );

    let wrong_bins = DeviceTrainConfig {
        ctr: Some(DeviceCtrConfig {
            permutation: permutation.clone(),
            target_class: target_class.clone(),
            columns: vec![ctr_column(vec![cat.clone()], 0.5, &[0.5])], // 2 buckets != n_bins
            averaging: None,
        }),
        ..default_config()
    };
    assert!(
        !open(1, &wrong_bins),
        "a CTR column not binarized to n_bins buckets must decline (uniform-histogram invariant)"
    );

    let ctr_plus_exact = DeviceTrainConfig {
        ctr: Some(covered_ctr()),
        exact_leaf: true,
        ..default_config()
    };
    assert!(
        !open(1, &ctr_plus_exact),
        "CTR + a second non-default family flag must decline"
    );

    assert!(open(1, &default_config()), "the no-CTR default still opens");
}

#[test]
fn session_ctr_augments_resident_cindex() {
    let n = 80usize;
    let n_features = 2usize;
    let n_bins = 16usize;
    let weight = vec![1.0_f64; n];
    let cindex = cindex_feature_major(n, n_features, n_bins);
    let scaled_l2 = scale_l2_reg(3.0, weight.iter().sum::<f64>(), n);

    let cat0: Vec<u32> = (0..n).map(|k| (k % 4) as u32).collect();
    let cat1: Vec<u32> = (0..n).map(|k| (k % 6) as u32).collect();
    let target_class: Vec<u32> = (0..n).map(|k| ((k / 3) % 2) as u32).collect();
    let permutation: Vec<u32> = (0..n as u32).collect();
    let borders: Vec<f64> = (1..n_bins).map(|b| b as f64 / n_bins as f64).collect();

    let ctr = DeviceCtrConfig {
        permutation,
        target_class,
        columns: vec![
            ctr_column(vec![cat0.clone()], 0.5, &borders),
            ctr_column(vec![cat0.clone(), cat1.clone()], 1.0, &borders),
        ],
        averaging: None,
    };
    let ctr_bins = read_ctr_columns(&[column_bytes(&cat0), column_bytes(&cat1)]);
    let cfg = DeviceTrainConfig { ctr: Some(ctr), ..default_config() };

    let session = GpuTrainSession::begin(
        &Loss::Rmse, 3, true, 1, EScoreFunction::Cosine, &cindex, &doubles(&weight), n, n_features, n_bins,
        Double(0.3), Double(scaled_l2), &cfg, &ctr_bins,
    )
    .expect("begin must not error building the CTR-augmented resident session")
    .expect("a covered 2-column CTR config must open a session");

    assert_eq!(
        session.n_features_effective(),
        n_features + 2,
        "the resident cindex must gain one feature per binarized CTR column"
    );
    assert_eq!(session.n(), n, "object count unchanged by the CTR augmentation");
    drop(session);
}

#[test]
fn session_residency_coverage_gate_declines_uncovered() {
    let n = 37usize;
    let n_features = 3usize;
    let n_bins = 32usize;
    let weight = weight_mod5(n);
    let cindex = cindex_feature_major(n, n_features, n_bins);
    let scaled_l2 = scale_l2_reg(3.0, weight.iter().sum::<f64>(), n);
    let lr = 0.3_f64;

    let cfg = default_config();
    let open = |loss: &Loss<Double>, depth: usize, plain: bool, folds: usize, sf: EScoreFunction| {
        GpuTrainSession::begin(
            loss, depth, plain, folds, sf, &cindex, &doubles(&weight), n, n_features, n_bins, Double(lr), Double(scaled_l2),
            &cfg, &[],
        )
        .expect("begin must not error while classifying coverage")
        .is_some()
    };

    assert!(open(&Loss::Rmse, 1, true, 1, EScoreFunction::Cosine), "RMSE depth1 must be covered");
    assert!(open(&Loss::Logloss, 1, true, 1, EScoreFunction::Cosine), "Logloss depth1 must be covered");
    assert!(open(&Loss::CrossEntropy, 1, true, 1, EScoreFunction::L2), "CrossEntropy depth1 L2 must be covered");

    assert!(open(&Loss::Rmse, 2, true, 1, EScoreFunction::Cosine), "depth>1 must now be covered");

    assert!(!open(&Loss::Rmse, 1, false, 1, EScoreFunction::Cosine), "non-Plain (Ordered) must decline");
    assert!(!open(&Loss::Rmse, 1, true, 2, EScoreFunction::Cosine), "fold_count>1 must decline");
    assert!(!open(&Loss::Mae, 1, true, 1, EScoreFunction::Cosine), "non-RMSE/Logloss loss must decline");
}

#[test]
fn one_hot_flags_real_folds_and_n_float_reach_the_resident_scorer() {
    let n = 64usize;
    let n_float = 1usize;
    let n_features = 3usize; // 1 float + 2 one-hot
    let n_bins = 32usize;
    let depth = 2usize;

    let mut bins = Vec::with_capacity(n_features * n);
    for i in 0..n {
        bins.push((i % n_bins) as u32);
    }
    for i in 0..n {
        bins.push((i % 2) as u32);
    }
    for i in 0..n {
        bins.push(((i / 2) % 2) as u32);
    }
    let weight = vec![1.0_f64; n];
    let scaled_l2 = scale_l2_reg(3.0, n as f64, n);

    let config = DeviceTrainConfig {
        one_hot_flags: vec![false, true, true],
        real_folds: vec![32, 2, 2],
        n_float,
        ..default_config()
    };
    assert!(
        config.is_covered_regime(),
        "a one-hot pool with no CTR must be a COVERED regime"
    );

    let session = GpuTrainSession::begin(
        &Loss::Rmse,
        depth,
        true, // Plain
        1,    // fold_count
        EScoreFunction::Cosine,
        &bins,
        &doubles(&weight),
        n,
        n_features,
        n_bins,
        Double(0.3),
        Double(scaled_l2),
        &config,
        &[],
    )
    .expect("begin must not error on a covered one-hot config")
    .expect("a one-hot pool with no CTR must open a session");

    let (flags, real_folds, stored_n_float, feature_lo, feature_hi) = session.one_hot_channel();

    assert_eq!(
        flags,
        vec![false, true, true],
        "the per-feature one-hot flags must reach the session as the host built them"
    );
    assert_eq!(
        real_folds,
        vec![32u32, 2, 2],
        "real_folds must carry the TRUE per-feature cardinality. `real_folds[1] == 32` \
         would mean the PADDED line width (`TCFeature.folds`) was wired in, which bounds \
         nothing and lets 30 phantom candidates per cat column into the argmax"
    );
    assert_eq!(stored_n_float, n_float, "the float boundary must be preserved");
    assert_eq!(
        (feature_lo, feature_hi),
        (1, 3),
        "pass B must sweep exactly the one-hot suffix [n_float, n_features)"
    );

    drop(session);
}

#[test]
fn float_only_pool_leaves_pass_b_empty() {
    let n = 64usize;
    let n_features = 2usize;
    let n_bins = 32usize;
    let mut bins = Vec::with_capacity(n_features * n);
    for f in 0..n_features {
        for i in 0..n {
            bins.push(((i + f) % n_bins) as u32);
        }
    }
    let weight = vec![1.0_f64; n];
    let scaled_l2 = scale_l2_reg(3.0, n as f64, n);

    let config = DeviceTrainConfig {
        one_hot_flags: vec![false; n_features],
        real_folds: vec![32u32; n_features],
        n_float: n_features,
        ..default_config()
    };

    let session = GpuTrainSession::begin(
        &Loss::Rmse,
        2,
        true,
        1,
        EScoreFunction::Cosine,
        &bins,
        &doubles(&weight),
        n,
        n_features,
        n_bins,
        Double(0.3),
        Double(scaled_l2),
        &config,
        &[],
    )
    .expect("begin must not error")
    .expect("a float-only covered config must open a session");

    let (flags, _real_folds, stored_n_float, feature_lo, feature_hi) = session.one_hot_channel();
    assert!(
        flags.iter().all(|&f| !f),
        "a float-only pool must carry no one-hot flag"
    );
    assert_eq!(stored_n_float, n_features);
    assert_eq!(
        feature_lo, feature_hi,
        "pass B must be EMPTY on a float-only pool, so the scorer launches once with \
         today's arguments"
    );

    drop(session);
}

#[test]
fn begin_declines_ordered_to_cpu() {
    let n = 8usize;
    let n_features = 2usize;
    let n_bins = 32usize;
    let weight = vec![1.0_f64; n];
    let mut cindex = vec![0u32; n_features * n];
    for f in 0..n_features {
        for obj in 0..n {
            if let Some(slot) = cindex.get_mut(f * n + obj) {
                *slot = (obj % n_bins) as u32;
            }
        }
    }
    let scaled_l2 = 3.0_f64;
    let lr = 0.3_f64;

    let open = |loss: &Loss<Double>, depth: usize, plain: bool, folds: usize, cfg: &DeviceTrainConfig<Double>| {
        GpuTrainSession::begin(
            loss,
            depth,
            plain,
            folds,
            EScoreFunction::Cosine,
            &cindex,
            &doubles(&weight),
            n,
            n_features,
            n_bins,
            Double(lr),
            Double(scaled_l2),
            cfg,
            &[],
        )
        .expect("begin must not error while classifying ordered coverage")
        .is_some()
    };
    let def = default_config();

    assert!(
        !open(&Loss::Rmse, 2, false, 1, &def),
        "covered ordered RMSE declines to CPU pending the ordered grow seam"
    );
    assert!(
        !open(&Loss::Logloss, 2, false, 1, &def),
        "covered ordered Logloss declines to CPU pending the ordered grow seam"
    );
    assert!(
        !open(&Loss::Rmse, 0, false, 1, &def),
        "depth-0 ordered must decline"
    );
    assert!(
        !open(&Loss::Rmse, 2, false, 2, &def),
        "fold_count>1 ordered must decline"
    );
    assert!(
        open(&Loss::Rmse, 2, true, 1, &def),
        "covered Plain RMSE still opens a device session"
    );
}

#[test]
fn begin_declines_multi_output_to_cpu() {
    let n = 6usize;
    let n_features = 2usize;
    let n_bins = 32usize;
    let weight = vec![1.0_f64; n];
    let mut cindex = vec![0u32; n_features * n];
    for f in 0..n_features {
        for obj in 0..n {
            cindex[f * n + obj] = (obj % n_bins) as u32;
        }
    }
    let scaled_l2 = 2.0_f64;
    let lr = 0.3_f64;

    let open = |loss: &Loss<Double>, depth: usize, plain: bool, folds: usize, cfg: &DeviceTrainConfig<Double>| {
        GpuTrainSession::begin(
            loss,
            depth,
            plain,
            folds,
            EScoreFunction::Cosine,
            &cindex,
            &doubles(&weight),
            n,
            n_features,
            n_bins,
            Double(lr),
            Double(scaled_l2),
            cfg,
            &[],
        )
        .expect("begin must not error while classifying multi-output coverage")
        .is_some()
    };
    let def = default_config();

    assert!(
        !open(&Loss::MultiClass, 2, true, 1, &def),
        "covered MultiClass declines to CPU pending the shared multi-dim grow seam"
    );
    assert!(
        !open(&Loss::RmseWithUncertainty, 2, true, 1, &def),
        "covered RMSEWithUncertainty declines to CPU pending the shared multi-dim grow seam"
    );
    assert!(
        !open(&Loss::MultiClassOneVsAll, 2, false, 1, &def),
        "non-Plain multi-output must decline"
    );
    assert!(
        !open(&Loss::MultiClass, 2, true, 2, &def),
        "fold_count>1 multi-output must decline"
    );
}

#[test]
fn session_depth_gt1_grows_and_matches_direct() {
    let n_features = 3usize;
    let n_bins = 32usize;
    let depth = 6usize;
    let l2 = 3.0_f64;
    let learning_rate = 0.3_f64;

    for &n in &[200usize, 2000usize] {
        let target = ramp_centred(n);
        let weight = weight_mod5(n);
        let cindex = cindex_feature_major(n, n_features, n_bins);
        let scaled_l2 = scale_l2_reg(l2, weight.iter().sum::<f64>(), n);

        let mut session = GpuTrainSession::begin(
            &Loss::Rmse,
            depth,
            true, // Plain
            1,    // fold_count
            EScoreFunction::Cosine,
            &cindex,
            &doubles(&weight),
            n,
            n_features,
            n_bins,
            Double(learning_rate),
            Double(scaled_l2),
            &default_config(),
            &[],
        )
        .expect("begin must not error on a covered depth-6 config")
        .expect("depth-6 Plain/fold1/RMSE/Cosine must now open a session");

        assert_eq!(session.n(), n, "session n must equal the fixture n (n={n})");

        let dev_tree = session
            .grow_one(&doubles(&vec![0.0_f64; n]), &doubles(&target))
            .expect("depth-6 grow_one must succeed on the clear-margin fixture");
        assert!(matches!(
            dev_tree,
            GrowAction::Oblivious { upload_target: true, derive_der1: true, .. }
        ));
        session.derivatives_ready();
        assert!(matches!(session.draw_sample(), Ok(Sample::Full)));
        let dev_tree = grow_resident(&session, &vec![0.0_f64; n], &target, &vec![1.0_f64; n]);

        let der1: Vec<f64> = target.clone();
        let direct = grow_oblivious_tree(
            &der1, &weight, &cindex, n, n_bins, n_bins, n_features, depth, scaled_l2, SCORE_FN_COSINE,
        );

        assert_eq!(
            dev_tree.splits.len(),
            depth,
            "session depth-6 tree must have exactly {depth} splits (n={n})"
        );
        assert_eq!(
            dev_tree.splits, direct.splits,
            "session depth-6 split sequence must match the direct grow bit-for-bit (n={n}): \
             session={:?} direct={:?}",
            dev_tree.splits, direct.splits
        );

        assert_eq!(
            dev_tree.leaf_of, direct.leaf_of,
            "session depth-6 leaf_of must equal the direct grow leaf_of (n={n})"
        );

        assert_eq!(
            dev_tree.leaf_values.len(),
            direct.leaf_values.len(),
            "session depth-6 leaf_values length must equal 2^{depth} (n={n})"
        );
        let (abs, rel) = max_divergence(&dev_tree.leaf_values, &direct.leaf_values);
        assert!(
            abs <= GROW_EPS || rel <= GROW_EPS,
            "session depth-6 leaf values (n={n}) exceeded the ε=1e-4 bar: abs={abs:.3e} rel={rel:.3e}"
        );

        drop(session);
    }
}

#[test]
fn session_exact_leaf_grows_finite_quantile_leaves() {
    let n = 300usize;
    let n_features = 3usize;
    let n_bins = 32usize;
    let depth = 3usize;
    let target = ramp_centred(n);
    let weight = vec![1.0_f64; n]; // covered exact regime is unit weight
    let cindex = cindex_feature_major(n, n_features, n_bins);
    let scaled_l2 = scale_l2_reg(3.0, weight.iter().sum::<f64>(), n);

    let exact = DeviceTrainConfig {
        exact_leaf: true,
        quantile_alpha: Double(0.5),
        quantile_delta: Double(1e-6),
        ..default_config()
    };
    let mut session = GpuTrainSession::begin(
        &Loss::Quantile { alpha: Double(0.5), delta: Double(1e-6) },
        depth,
        true,
        1,
        EScoreFunction::Cosine,
        &cindex,
        &doubles(&weight),
        n,
        n_features,
        n_bins,
        Double(0.3),
        Double(scaled_l2),
        &exact,
        &[],
    )
    .expect("begin must not error on a covered exact-leaf Quantile config")
    .expect("exact-leaf Quantile must open a session");

    let action = session
        .grow_one(&doubles(&vec![0.0_f64; n]), &doubles(&target))
        .expect("exact-leaf grow_one must succeed");
    assert!(matches!(action, GrowAction::Oblivious { upload_approx: true, .. }));
    session.derivatives_ready();
    let tree = grow_resident(&session, &vec![0.0_f64; n], &target, &vec![1.0_f64; n]);

    assert_eq!(tree.splits.len(), depth, "exact-leaf tree must have {depth} splits");
    assert_eq!(tree.leaf_of.len(), n, "leaf_of length must equal n");
    assert_eq!(tree.leaf_values.len(), 1usize << depth, "2^depth leaf values");
    for (l, &v) in tree.leaf_values.iter().enumerate() {
        assert!(v.is_finite(), "exact leaf value {l} must be finite, got {v}");
    }
    assert!(
        tree.leaf_values.iter().any(|&v| v.abs() > 1e-9),
        "exact-leaf grow produced all-zero leaves — the quantile override did not run"
    );
    drop(session);
}

#[test]
fn session_bootstrap_grows_finite_tree() {
    let n = 256usize;
    let n_features = 3usize;
    let n_bins = 32usize;
    let depth = 3usize;
    let target = ramp_centred(n);
    let weight = vec![1.0_f64; n];
    let cindex = cindex_feature_major(n, n_features, n_bins);
    let scaled_l2 = scale_l2_reg(3.0, weight.iter().sum::<f64>(), n);

    let bern = DeviceTrainConfig {
        bootstrap_type: DeviceBootstrapType::Bernoulli,
        sample_rate: Double(0.7),
        rng_seed: 2024,
        ..default_config()
    };
    let mut session = GpuTrainSession::begin(
        &Loss::Rmse, depth, true, 1, EScoreFunction::Cosine, &cindex, &doubles(&weight), n, n_features,
        n_bins, Double(0.3), Double(scaled_l2), &bern, &[],
    )
    .expect("begin must not error on a covered Bernoulli-bootstrap config")
    .expect("Bernoulli bootstrap must open a session");

    let approx = vec![0.0_f64; n];
    let mut draw = |tree: &str| -> Tree {
        let action = session
            .grow_one(&doubles(&approx), &doubles(&target))
            .unwrap_or_else(|e| panic!("bootstrap grow_one ({tree}) must succeed: {e:?}"));
        assert!(matches!(action, GrowAction::Oblivious { .. }));
        session.derivatives_ready();
        let Ok(Sample::Bootstrap { base, sample_rate, .. }) = session.draw_sample() else {
            panic!("a Bernoulli run draws a device sample");
        };
        // One draw of the stream per object, kept below the sample rate.
        let mut rng = Stream(base);
        let kept: Vec<f64> = (0..n)
            .map(|_| {
                let u = (rng.next() >> 11) as f64 / (1u64 << 53) as f64;
                f64::from(u8::from(u < sample_rate.0))
            })
            .collect();
        grow_resident(&session, &approx, &target, &kept)
    };
    let t0 = draw("tree 0");
    let t1 = draw("tree 1");
    for tree in [&t0, &t1] {
        assert_eq!(tree.splits.len(), depth, "bootstrap tree must have {depth} splits");
        assert_eq!(tree.leaf_of.len(), n, "leaf_of length must equal n");
        assert_eq!(tree.leaf_values.len(), 1usize << depth, "2^depth leaf values");
        for (l, &v) in tree.leaf_values.iter().enumerate() {
            assert!(v.is_finite(), "bootstrap leaf value {l} must be finite, got {v}");
        }
    }
    drop(session);
}

fn cpu_stump_score_cosine(
    der1: &[f64],
    weight: &[f64],
    cindex: &[u32],
    n: usize,
    feature: usize,
    bin: usize,
    scaled_l2: f64,
) -> f64 {
    let mut left_der: Vec<f64> = Vec::new();
    let mut left_w: Vec<f64> = Vec::new();
    let mut right_der: Vec<f64> = Vec::new();
    let mut right_w: Vec<f64> = Vec::new();
    for obj in 0..n {
        if (cindex[feature * n + obj] as usize) > bin {
            right_der.push(der1[obj]);
            right_w.push(weight[obj]);
        } else {
            left_der.push(der1[obj]);
            left_w.push(weight[obj]);
        }
    }
    let mut numerator = 0.0_f64;
    let mut denominator = 1e-100_f64;
    for (d, w) in [
        (left_der.iter().sum::<f64>(), left_w.iter().sum::<f64>()),
        (right_der.iter().sum::<f64>(), right_w.iter().sum::<f64>()),
    ] {
        let avg = if w > 0.0 { d / (w + scaled_l2) } else { 0.0 };
        numerator += avg * d;
        denominator += avg * avg * w;
    }
    numerator / denominator.sqrt()
}

fn cpu_best_stump_cosine(
    der1: &[f64],
    weight: &[f64],
    cindex: &[u32],
    n: usize,
    n_features: usize,
    n_bins: usize,
    scaled_l2: f64,
) -> Option<(usize, usize)> {
    let mut best: Option<(usize, usize)> = None;
    let mut best_score = f64::NEG_INFINITY;
    for feature in 0..n_features {
        let last_real = n_bins.saturating_sub(1);
        for bin in 0..last_real {
            let score = cpu_stump_score_cosine(der1, weight, cindex, n, feature, bin, scaled_l2);
            if score > best_score {
                best_score = score;
                best = Some((feature, bin));
            }
        }
    }
    best
}

fn cpu_multi_tree_cosine(
    target: &[f64],
    weight: &[f64],
    cindex: &[u32],
    n: usize,
    n_features: usize,
    n_bins: usize,
    iterations: usize,
    learning_rate: f64,
    scaled_l2: f64,
) -> Vec<((usize, usize), Vec<u32>, Vec<f64>)> {
    let mut approx = vec![0.0_f64; n];
    let mut out: Vec<((usize, usize), Vec<u32>, Vec<f64>)> = Vec::with_capacity(iterations);
    for _iter in 0..iterations {
        let der1: Vec<f64> = (0..n).map(|i| target[i] - approx[i]).collect();
        let (feature, bin) = cpu_best_stump_cosine(&der1, weight, cindex, n, n_features, n_bins, scaled_l2)
            .expect("CPU reference must find a candidate split each iteration");

        let leaf_of: Vec<u32> = (0..n)
            .map(|obj| {
                let passes = [(cindex[feature * n + obj] as usize) > bin];
                u32::from(passes[0])
            })
            .collect();

        let n_leaves = 2usize; // depth == 1
        let mut leaf_values = vec![0.0_f64; n_leaves];
        for leaf in 0..n_leaves {
            let mut der_seg: Vec<f64> = Vec::new();
            let mut w_seg: Vec<f64> = Vec::new();
            for obj in 0..n {
                if leaf_of[obj] as usize == leaf {
                    der_seg.push(der1[obj]);
                    w_seg.push(weight[obj]);
                }
            }
            leaf_values[leaf] = {
                let (d, w) = (der_seg.iter().sum::<f64>(), w_seg.iter().sum::<f64>());
                if w > 0.0 { d / (w + scaled_l2) } else { 0.0 }
            };
        }

        for obj in 0..n {
            approx[obj] += learning_rate * leaf_values[leaf_of[obj] as usize];
        }

        out.push(((feature, bin), leaf_of, leaf_values));
    }
    out
}

#[test]
fn session_residency_matches_cpu_multi_tree_boosting() {
    let n_features = 3usize;
    let n_bins = 32usize;
    let l2 = 3.0_f64;
    let iterations = 5usize;
    let learning_rate = 0.3_f64;

    for &n in &[1usize, 37usize, 1000usize] {
        let target = ramp_centred(n);
        let weight = weight_mod5(n);
        let cindex = cindex_feature_major(n, n_features, n_bins);
        let scaled_l2 = scale_l2_reg(l2, weight.iter().sum::<f64>(), n);

        let mut session = GpuTrainSession::begin(
            &Loss::Rmse,
            1, // depth
            true, // Plain
            1, // fold_count
            EScoreFunction::Cosine,
            &cindex,
            &doubles(&weight),
            n,
            n_features,
            n_bins,
            Double(learning_rate),
            Double(scaled_l2),
            &default_config(),
            &[],
        )
        .expect("session begin must not error on a covered config")
        .expect("covered config (depth1/RMSE/Plain/fold1/Cosine) must open a session");

        assert_eq!(session.n(), n, "session n must equal the fixture n (n={n})");

        let mut device_trees = Vec::with_capacity(iterations);
        let mut resident = vec![0.0_f64; n];
        for k in 0..iterations {
            let action = session
                .grow_one(&doubles(&vec![0.0_f64; n]), &doubles(&target))
                .expect("grow_one must succeed on the clear-margin fixture");
            let GrowAction::Oblivious { upload_target, upload_approx, .. } = action else {
                panic!("a symmetric run");
            };
            assert_eq!(upload_target, k == 0, "the target is uploaded once");
            assert!(!upload_approx, "the approximation stays resident");
            session.derivatives_ready();
            let tree = grow_resident(&session, &resident, &target, &vec![1.0_f64; n]);
            for obj in 0..n {
                resident[obj] += learning_rate * tree.leaf_values[tree.leaf_of[obj] as usize];
            }
            device_trees.push(tree);
        }

        let cpu = cpu_multi_tree_cosine(
            &target, &weight, &cindex, n, n_features, n_bins, iterations, learning_rate, scaled_l2,
        );

        assert_eq!(device_trees.len(), iterations);
        assert_eq!(cpu.len(), iterations);

        let mut run_abs = 0.0_f64;
        let mut run_rel = 0.0_f64;
        for (k, (dev, (cpu_split, cpu_leaf_of, cpu_leaf_values))) in
            device_trees.iter().zip(cpu.iter()).enumerate()
        {
            assert_eq!(dev.splits.len(), 1, "device tree {k} must be a depth-1 stump (n={n})");
            let (df, db) = dev.splits[0];
            assert_eq!(
                (df as usize, db as usize),
                *cpu_split,
                "device tree {k} split must match CPU Cosine first-wins (n={n}): \
                 device=({df},{db}) cpu={cpu_split:?}"
            );
            assert_eq!(
                &dev.leaf_of, cpu_leaf_of,
                "device tree {k} leaf_of must equal CPU forward-bit leaf_index (n={n})"
            );
            assert_eq!(
                dev.leaf_values.len(),
                cpu_leaf_values.len(),
                "device tree {k} leaf_values length must equal n_leaves (n={n})"
            );
            let (abs, rel) = max_divergence(&dev.leaf_values, cpu_leaf_values);
            run_abs = run_abs.max(abs);
            run_rel = run_rel.max(rel);
        }
        assert!(
            run_rel <= LEAF_BOUND || run_abs <= LEAF_BOUND,
            "device session leaf values (n={n}) diverged beyond the REPORTED bound: \
             abs={run_abs:.3e} rel={run_rel:.3e} (bound={LEAF_BOUND:.0e})"
        );

        if n > 1 {
            let (_s0, _l0, v0) = &cpu[0];
            let (_s4, _l4, v4) = &cpu[iterations - 1];
            assert!(
                max_divergence(v0, v4).0 > 0.0,
                "residual should evolve across iterations (chained der1) (n={n})"
            );
        }

        drop(session);
    }
}

const N: usize = 32;
const N_BINS: usize = 16;

const BORDERS: i8 = 0;
const BUCKETS: i8 = 1;
const BINARIZED_TARGET_MEAN_VALUE: i8 = 2;
const FLOAT_TARGET_MEAN_VALUE: i8 = 3;
const COUNTER: i8 = 4;
const FEATURE_FREQ: i8 = 5;
const UNKNOWN_DISCRIMINANT: i8 = 6;

fn covered_borders() -> Vec<Double> {
    (1..N_BINS).map(|b| Double(b as f64 / N_BINS as f64)).collect()
}

fn column(ctr_type: i8, target_border_idx: u32) -> DeviceCtrColumn<Double> {
    DeviceCtrColumn {
        member_bins: vec![(0..N).map(|k| (k % 5) as u32).collect()],
        prior: Double(0.5),
        borders: covered_borders(),
        bucket_count: 5,
        weight_group: 0,
        ctr_type,
        target_border_idx,
        projection_members: vec![0],
    }
}

fn config_with(structure: DeviceCtrColumn<Double>, averaging: DeviceCtrColumn<Double>) -> DeviceTrainConfig<Double> {
    let permutation: Vec<u32> = (0..N as u32).collect();
    let target_class: Vec<u32> = (0..N).map(|k| (k % 2) as u32).collect();
    DeviceTrainConfig {
        ctr: Some(DeviceCtrConfig {
            permutation: permutation.clone(),
            target_class: target_class.clone(),
            columns: vec![structure],
            averaging: Some(DeviceCtrAveraging {
                permutation: permutation.into_iter().rev().collect(),
                target_class,
                columns: vec![averaging],
            }),
        }),
        ..default_config()
    }
}

fn config(ctr_type: i8) -> DeviceTrainConfig<Double> {
    config_with(column(ctr_type, 0), column(ctr_type, 0))
}

#[test]
fn ctr_covered_declines_unimplemented_ctr_types() {
    for (ctr_type, name) in [
        (BORDERS, "Borders"),
        (BUCKETS, "Buckets"),
        (BINARIZED_TARGET_MEAN_VALUE, "BinarizedTargetMeanValue"),
        (COUNTER, "Counter"),
    ] {
        assert!(
            ctr_covered(&config(ctr_type), N, N_BINS),
            "{name} ({ctr_type}) is device-implemented and must be ADMITTED by ctr_covered"
        );
    }

    for (ctr_type, name) in [
        (FLOAT_TARGET_MEAN_VALUE, "FloatTargetMeanValue"),
        (FEATURE_FREQ, "FeatureFreq"),
    ] {
        assert!(
            !ctr_covered(&config(ctr_type), N, N_BINS),
            "{name} ({ctr_type}) has no device numerator yet and must be DECLINED by \
             ctr_covered — admitting it would route its columns through the class-prefix \
             kernel and silently return the Borders numerator"
        );
    }

    for stray in [-1i8, 6, i8::MIN, i8::MAX] {
        assert!(
            !ctr_covered(&config(stray), N, N_BINS),
            "ctr_type {stray} is not an ECtrType discriminant and must be DECLINED"
        );
    }

    assert!(
        !ctr_covered(
            &config_with(column(BORDERS, 0), column(UNKNOWN_DISCRIMINANT, 0)),
            N,
            N_BINS
        ),
        "an unimplemented AVERAGING column must decline (the averaging `.all(..)` closure \
         needs the same conjunct as the structure one)"
    );
    assert!(
        !ctr_covered(
            &config_with(column(UNKNOWN_DISCRIMINANT, 0), column(BORDERS, 0)),
            N,
            N_BINS
        ),
        "an unimplemented STRUCTURE column must decline"
    );
}

#[test]
fn buckets_keeps_the_borders_shape_checks() {
    let wrong_borders = |ctr_type: i8| {
        let mut col = column(ctr_type, 0);
        col.borders = vec![Double(0.5)]; // 2 buckets != N_BINS
        col
    };
    let no_members = |ctr_type: i8| {
        let mut col = column(ctr_type, 0);
        col.member_bins = vec![];
        col
    };

    for (ctr_type, name) in [
        (BORDERS, "Borders"),
        (BUCKETS, "Buckets"),
        (BINARIZED_TARGET_MEAN_VALUE, "BinarizedTargetMeanValue"),
        (COUNTER, "Counter"),
    ] {
        assert!(
            !ctr_covered(
                &config_with(wrong_borders(ctr_type), column(ctr_type, 0)),
                N,
                N_BINS
            ),
            "{name}: a column not binarizing to n_bins buckets must still decline \
             (uniform-histogram invariant)"
        );
        assert!(
            !ctr_covered(
                &config_with(column(ctr_type, 0), wrong_borders(ctr_type)),
                N,
                N_BINS
            ),
            "{name}: the AVERAGING half's border-table shape check is unchanged too"
        );
        assert!(
            !ctr_covered(
                &config_with(no_members(ctr_type), column(ctr_type, 0)),
                N,
                N_BINS
            ),
            "{name}: a column with no member bins must still decline"
        );
    }

    assert!(
        ctr_covered(&config_with(column(BUCKETS, 1), column(BUCKETS, 1)), N, N_BINS),
        "the Buckets b=1 numerator column must be admitted; it shares every shape invariant \
         with its b=0 sibling"
    );
}

#[test]
fn a_session_checks_its_columns() {
    let n = 4usize;
    let begin = |bins: &[u32], weight: &[f64]| {
        GpuTrainSession::begin(
            &Loss::Rmse,
            2,
            true,
            1,
            EScoreFunction::Cosine,
            bins,
            &doubles(weight),
            n,
            1,
            32,
            Double(0.3),
            Double(3.0),
            &default_config(),
            &[],
        )
    };
    assert!(matches!(
        begin(&[0, 1, 2], &[1.0; 4]),
        Err(CbError::LengthMismatch { column: Column::BinsFeatureMajor, expected: 4, actual: 3 })
    ));
    assert!(matches!(
        begin(&[0, 1, 2, 3], &[1.0; 3]),
        Err(CbError::LengthMismatch { column: Column::Weight, expected: 4, actual: 3 })
    ));
    assert!(matches!(
        begin(&[0, 1, 2, 32], &[1.0; 4]),
        Err(CbError::OutOfRange(RangeFault::BinValue { value: 32, n_bins: 32 }))
    ));
    let mut session = begin(&[0, 1, 2, 3], &[1.0; 4]).expect("valid columns").expect("a covered run");
    assert!(matches!(
        session.grow_one(&doubles(&[0.0; 4]), &doubles(&[0.0; 3])),
        Err(CbError::LengthMismatch { column: Column::Target, expected: 4, actual: 3 })
    ));
}

#[test]
fn the_sampling_stream_runs_on_between_trees() {
    let n = 5usize;
    let cfg = DeviceTrainConfig {
        bootstrap_type: DeviceBootstrapType::Poisson,
        rng_seed: 7,
        ..default_config()
    };
    let mut session = GpuTrainSession::begin(
        &Loss::Rmse,
        2,
        true,
        1,
        EScoreFunction::Cosine,
        &[0, 1, 2, 3, 4],
        &doubles(&[1.0; 5]),
        n,
        1,
        32,
        Double(0.3),
        Double(3.0),
        &cfg,
        &[],
    )
    .expect("valid columns")
    .expect("a covered run");
    let mut stream = TFastRng64::from_seed(7);
    for _ in 0..3 {
        let action = session.grow_one(&doubles(&[0.0; 5]), &doubles(&[0.0; 5])).expect("a tree");
        assert!(matches!(action, GrowAction::Oblivious { .. }));
        session.derivatives_ready();
        let Ok(Sample::Bootstrap { base, rand_seed, .. }) = session.draw_sample() else {
            panic!("a sampled run");
        };
        assert_eq!(base, stream.raw_state());
        assert_eq!(rand_seed, 0);
        for _ in 0..n {
            stream.gen_rand();
        }
    }
}

#[test]
fn a_failed_derivation_is_asked_for_again() {
    let mut session = GpuTrainSession::begin(
        &Loss::Rmse,
        2,
        true,
        1,
        EScoreFunction::L2,
        &[0, 1],
        &doubles(&[1.0; 2]),
        2,
        1,
        32,
        Double(0.3),
        Double(3.0),
        &DeviceTrainConfig {
            bootstrap_type: DeviceBootstrapType::Bayesian,
            rng_seed: 5,
            ..default_config()
        },
        &[],
    )
    .expect("valid columns")
    .expect("a covered run");
    let column = doubles(&[0.0; 2]);
    for _ in 0..2 {
        assert!(matches!(
            session.grow_one(&column, &column),
            Ok(GrowAction::Oblivious { upload_target: true, upload_approx: false, derive_der1: true })
        ));
        assert!(matches!(session.draw_sample(), Err(CbError::Degenerate(Degeneracy::MissingDer1))));
    }
    session.derivatives_ready();
    let mut stream = TFastRng64::from_seed(5);
    let Ok(Sample::Bootstrap { rand_seed, .. }) = session.draw_sample() else {
        panic!("a sampled run");
    };
    assert_eq!(rand_seed, stream.gen_rand());
    assert!(matches!(
        session.grow_one(&column, &column),
        Ok(GrowAction::Oblivious { upload_target: false, upload_approx: false, derive_der1: false })
    ));
    let mut torn = GpuTrainSession { target_resident: false, ..session };
    assert!(matches!(torn.draw_sample(), Err(CbError::Degenerate(Degeneracy::MissingTarget))));
}

#[test]
fn a_symmetric_tree_is_reported_without_nodes() {
    let session = GpuTrainSession::begin(
        &Loss::Rmse,
        1,
        true,
        1,
        EScoreFunction::L2,
        &[0, 1],
        &doubles(&[1.0; 2]),
        2,
        1,
        32,
        Double(0.3),
        Double(3.0),
        &default_config(),
        &[],
    )
    .expect("valid columns")
    .expect("a covered run");
    let tree = session.finish_tree(vec![(0, 0)], vec![0, 1], doubles(&[1.0, 2.0]), doubles(&[7.0, 8.0]));
    assert_eq!((tree.splits, tree.leaf_of, tree.approx_dim), (vec![(0, 0)], vec![0, 1], 1));
    assert_eq!(tree.leaf_values, doubles(&[1.0, 2.0]));
    assert!(tree.step_nodes.is_empty() && tree.node_id_to_leaf_id.is_empty() && tree.region_path.is_empty());
}

#[test]
fn an_empty_leaf_has_the_exact_value_zero() {
    let groups = vec![doubles(&[1.0]), doubles(&[]), doubles(&[2.0, 3.0])];
    assert_eq!(compute_exact_leaf_values(&groups, &doubles(&[4.0, 5.0])), doubles(&[4.0, 0.0, 0.0]));
    assert_eq!(compute_exact_leaf_values(&groups, &doubles(&[4.0, 5.0, 6.0])), doubles(&[4.0, 0.0, 6.0]));
}

#[test]
fn a_depthwise_run_grows_over_host_derivatives() {
    let cfg = DeviceTrainConfig { grow_policy: DeviceGrowPolicy::Depthwise, min_data_in_leaf: 3, ..default_config() };
    let mut session = GpuTrainSession::begin(
        &Loss::Rmse,
        2,
        true,
        1,
        EScoreFunction::L2,
        &[0, 1],
        &doubles(&[1.0; 2]),
        2,
        1,
        20,
        Double(0.3),
        Double(3.0),
        &cfg,
        &[],
    )
    .expect("valid columns")
    .expect("a covered run");
    let action = session.grow_one(&doubles(&[0.5, 2.0]), &doubles(&[1.0, -1.0])).expect("a tree");
    let GrowAction::Nonsym { policy, max_depth, max_leaves, min_data_in_leaf, der1 } = action else {
        panic!("a depth-wise run");
    };
    assert_eq!(policy, NonsymPolicy::Depthwise);
    assert_eq!((max_depth, max_leaves, min_data_in_leaf), (2, usize::MAX, 3));
    assert_eq!(der1, doubles(&[0.5, -3.0]));
    assert!(matches!(
        session.grow_one(&doubles(&[0.5]), &doubles(&[1.0, -1.0])),
        Err(CbError::LengthMismatch { column: Column::Approx, expected: 2, actual: 1 })
    ));
}

#[test]
fn a_minimal_variance_run_draws_three_numbers() {
    let cfg = DeviceTrainConfig {
        bootstrap_type: DeviceBootstrapType::Mvs,
        mvs_lambda: Some(Double(0.25)),
        sample_rate: Double(0.5),
        rng_seed: 11,
        ..default_config()
    };
    let mut session = GpuTrainSession::begin(
        &Loss::Rmse,
        2,
        true,
        1,
        EScoreFunction::L2,
        &[0, 1],
        &doubles(&[1.0; 2]),
        2,
        1,
        32,
        Double(0.3),
        Double(3.0),
        &cfg,
        &[],
    )
    .expect("valid columns")
    .expect("a covered run");
    let mut stream = TFastRng64::from_seed(11);
    for _ in 0..2 {
        let action = session.grow_one(&doubles(&[0.0; 2]), &doubles(&[0.0; 2])).expect("a tree");
        assert!(matches!(action, GrowAction::Oblivious { .. }));
        session.derivatives_ready();
        let Ok(Sample::Mvs { rand_seed, lambda, .. }) = session.draw_sample() else {
            panic!("a sampled run");
        };
        assert_eq!(rand_seed, stream.gen_rand());
        assert_eq!(lambda, Double(0.25));
        stream.advance(2);
    }
}

#[test]
fn advancing_skips_draws() {
    let mut a = TFastRng64::from_seed(99);
    let mut b = TFastRng64::from_seed(99);
    for _ in 0..1000 {
        a.gen_rand();
    }
    b.advance(400);
    b.advance(600);
    assert_eq!(a.raw_state(), b.raw_state());
    assert_eq!(a.gen_rand(), b.gen_rand());
}

#[test]
fn read_back_columns_hold_the_words_that_were_written() {
    let column = vec![1u32, 0x0102_0304, u32::MAX];
    assert_eq!(read_ctr_columns(&[column_bytes(&column), Vec::new()]), vec![column, vec![]]);
    let scores = doubles(&[1.0, 7.0, 3.0]);
    assert_eq!(select_from_readback(&scores, &column_bytes(&[2, 1])), Some(1));
    assert_eq!(select_from_readback(&scores, &column_bytes(&[9])), None);
}

#[test]
fn one_member_keeps_its_bins() {
    match ctr_fold(&[vec![3u32, 0, 7, 1]]) {
        CtrFold::Single { bins, buckets } => assert_eq!((bins, buckets), (vec![3, 0, 7, 1], 8)),
        CtrFold::Combine => panic!("one member is not combined"),
    }
    match ctr_fold(&[Vec::<u32>::new()]) {
        CtrFold::Single { buckets, .. } => assert_eq!(buckets, 0),
        CtrFold::Combine => panic!("one member is not combined"),
    }
    assert!(matches!(ctr_fold(&[vec![1], vec![2]]), CtrFold::Combine));
}

#[test]
fn widths_are_warmed_up_once_each() {
    assert_eq!(warmup_classes(0), vec![32, 64, 128, 256]);
    assert_eq!(warmup_classes(31), vec![32, 64, 128, 256]);
    assert_eq!(warmup_classes(32), vec![64, 32, 128, 256]);
    assert_eq!(warmup_classes(64), vec![128, 64, 32, 256]);
    assert_eq!(warmup_classes(254), vec![256, 64, 32, 128]);
    assert_eq!(warmup_classes(100_000), vec![256, 64, 32, 128]);
    let pool = warmup_pool(20, 32);
    assert_eq!((pool.depth, pool.n_borders), (8, 31));
    assert_eq!(pool.columns[1][20], 8);
    assert_eq!(pool.target[..3], [0, 1, 0]);
    assert_eq!(warmup_pool(0, 1).depth, 1);
}

#[test]
fn line_widths_are_padded() {
    assert_eq!(pad_hist_line_bins(0), None);
    assert_eq!(pad_hist_line_bins(16), Some(32));
    assert_eq!(pad_hist_line_bins(33), Some(64));
    assert_eq!(pad_hist_line_bins(256), Some(256));
    assert_eq!(pad_hist_line_bins(257), None);
}

#[test]
fn only_gpu_backends_are_devices() {
    assert!(device_backend_active(Backend::Cuda) && device_backend_active(Backend::Rocm));
    assert!(!device_backend_active(Backend::Cpu) && !device_backend_active(Backend::Wgpu));
}

#[test]
fn exact_leaves_weigh_percentages_down() {
    let (res, w) = exact_leaf_groups(
        &[1, 0, 1, 9],
        2,
        &doubles(&[0.0, 1.0, 2.0, 3.0]),
        &doubles(&[4.0, 0.5, -8.0, 3.0]),
        &doubles(&[2.0, 3.0]),
        true,
    );
    assert_eq!(res, vec![doubles(&[-0.5]), doubles(&[4.0, -10.0])]);
    assert_eq!(w, vec![doubles(&[3.0]), doubles(&[0.5, 0.125])]);
}
