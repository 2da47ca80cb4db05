//! The multi-output driver on real values.

use cb_backend::channel::{Channel, Real, REDUCE_FIXEDPOINT_SCALE};
use cb_backend::config::{Backend, Loss};
use cb_backend::coverage::{map_multiclass_objective, MulticlassObjective};
use cb_backend::error::{CbError, Column, DoubleUse, RangeFault};
use cb_backend::multiclass::{
    accumulate_leaf_blocks, assemble_multiclass_ders, class_of, diag_index, loss_input, packed_len, LossInput, ObjectDers,
};
use cb_backend::smooth::Smooth;

/// A double-precision element.
#[derive(Clone, Copy, Debug, PartialEq)]
struct Double(f64);

impl Channel for Double {
    fn zero() -> Self {
        Double(0.0)
    }

    fn plus(self, other: Self) -> Self {
        Double(self.0 + other.0)
    }

    fn zero_spec() -> Self {
        Self::zero()
    }

    fn plus_spec(self, other: Self) -> Self {
        self.plus(other)
    }
}

impl Real for Double {
    fn one() -> Self {
        Double(1.0)
    }

    fn bottom() -> Self {
        Double(f64::NEG_INFINITY)
    }

    fn floor() -> Self {
        Double(f64::from(f32::MIN))
    }

    fn tiny() -> Self {
        Double(1e-100)
    }

    fn eps() -> Self {
        Double(1e-20)
    }

    fn negated(self) -> Self {
        Double(-self.0)
    }

    fn sqrt(self) -> Self {
        Double(self.0.sqrt())
    }

    fn ln(self) -> Self {
        Double(self.0.ln())
    }

    fn minus(self, other: Self) -> Self {
        Double(self.0 - other.0)
    }

    fn times(self, other: Self) -> Self {
        Double(self.0 * other.0)
    }

    fn over(self, other: Self) -> Self {
        Double(self.0 / other.0)
    }

    fn narrow(self) -> Self {
        Double(f64::from(self.0 as f32))
    }

    fn count(n: usize) -> Self {
        Double(n as f64)
    }

    fn decode(raw: u64) -> Self {
        Double((raw as i64) as f64 / REDUCE_FIXEDPOINT_SCALE as f64)
    }

    fn encode(self) -> u64 {
        ((self.0 * REDUCE_FIXEDPOINT_SCALE as f64).round() as i64) as u64
    }

    fn above(self, other: Self) -> bool {
        self.0 > other.0
    }

    fn ties(self, other: Self) -> bool {
        self.0 == other.0
    }

    fn one_spec() -> Self {
        Self::one()
    }

    fn bottom_spec() -> Self {
        Self::bottom()
    }

    fn floor_spec() -> Self {
        Self::floor()
    }

    fn tiny_spec() -> Self {
        Self::tiny()
    }

    fn eps_spec() -> Self {
        Self::eps()
    }

    fn negated_spec(self) -> Self {
        self.negated()
    }

    fn sqrt_spec(self) -> Self {
        self.sqrt()
    }

    fn ln_spec(self) -> Self {
        self.ln()
    }

    fn narrow_spec(self) -> Self {
        self.narrow()
    }

    fn minus_spec(self, other: Self) -> Self {
        self.minus(other)
    }

    fn times_spec(self, other: Self) -> Self {
        self.times(other)
    }

    fn over_spec(self, other: Self) -> Self {
        self.over(other)
    }

    fn count_spec(n: usize) -> Self {
        Self::count(n)
    }

    fn decode_spec(raw: u64) -> Self {
        Self::decode(raw)
    }

    fn encode_spec(self) -> u64 {
        self.encode()
    }

    fn above_spec(self, other: Self) -> bool {
        self.above(other)
    }

    fn is_number(self) -> bool {
        !self.0.is_nan()
    }

    fn order_laws(_: Self, _: Self, _: Self) {}
}

impl Smooth for Double {
    fn half() -> Self {
        Double(0.5)
    }

    fn chance() -> Self {
        Double(1e-13)
    }

    fn abs(self) -> Self {
        Double(self.0.abs())
    }

    fn exp(self) -> Self {
        Double(self.0.exp())
    }

    fn powf(self, e: Self) -> Self {
        Double(self.0.powf(e.0))
    }

    fn tanh(self) -> Self {
        Double(self.0.tanh())
    }

    fn cosh(self) -> Self {
        Double(self.0.cosh())
    }

    fn class(self) -> usize {
        if self.0.is_finite() && self.0 >= 0.0 {
            self.0.round() as usize
        } else {
            0
        }
    }

    fn sort_key(self) -> u64 {
        (self.0 + 0.0).to_bits()
    }

    fn half_spec() -> Self {
        Self::half()
    }

    fn chance_spec() -> Self {
        Self::chance()
    }

    fn abs_spec(self) -> Self {
        self.abs()
    }

    fn exp_spec(self) -> Self {
        self.exp()
    }

    fn tanh_spec(self) -> Self {
        self.tanh()
    }

    fn cosh_spec(self) -> Self {
        self.cosh()
    }

    fn powf_spec(self, e: Self) -> Self {
        self.powf(e)
    }

    fn class_spec(self) -> usize {
        self.class()
    }

    fn sort_key_spec(self) -> u64 {
        self.sort_key()
    }

    fn sort_key_laws(_: Self, _: Self) {}
}

fn doubles(values: &[f64]) -> Vec<Double> {
    values.iter().map(|&v| Double(v)).collect()
}

fn plain(values: &[Double]) -> Vec<f64> {
    values.iter().map(|v| v.0).collect()
}

const TOL: f64 = 1e-4;

fn max_abs_divergence(device: &[f64], reference: &[f64]) -> f64 {
    if device.len() != reference.len() {
        return f64::INFINITY;
    }
    device.iter().zip(reference.iter()).map(|(&d, &r)| (d - r).abs()).fold(0.0_f64, f64::max)
}

/// The derivatives of each object's loss.
fn object_ders(
    objective: MulticlassObjective,
    approx: &[f64],
    target: &[f64],
    weight: &[f64],
    n: usize,
    k: usize,
) -> Vec<ObjectDers<Double>> {
    let (a, t, w) = (doubles(approx), doubles(target), doubles(weight));
    (0..n)
        .map(|i| {
            let (d1, d2) = match loss_input(objective, &a, &t, &w, n, k, i) {
                LossInput::Softmax { approx, class } => {
                    let max = approx.iter().map(|v| v.0).fold(f64::NEG_INFINITY, f64::max);
                    let e: Vec<f64> = approx.iter().map(|v| (v.0 - max).exp()).collect();
                    let total: f64 = e.iter().sum();
                    let p: Vec<f64> = e.iter().map(|v| v / total).collect();
                    let d1 = (0..k).map(|d| f64::from(u8::from(d == class)) - p[d]).collect();
                    let mut d2 = Vec::new();
                    for r in 0..k {
                        for c in r..k {
                            d2.push(p[r] * p[c] - if r == c { p[r] } else { 0.0 });
                        }
                    }
                    (d1, d2)
                }
                LossInput::OneVsAll { approx, class } => {
                    let p: Vec<f64> = approx.iter().map(|v| 1.0 / (1.0 + (-v.0).exp())).collect();
                    (
                        (0..k).map(|d| f64::from(u8::from(d == class)) - p[d]).collect(),
                        p.iter().map(|p| -p * (1.0 - p)).collect(),
                    )
                }
                LossInput::CrossEntropy { approx, targets } => {
                    let p: Vec<f64> = approx.iter().map(|v| 1.0 / (1.0 + (-v.0).exp())).collect();
                    (
                        (0..k).map(|d| targets[d].0 - p[d]).collect(),
                        p.iter().map(|p| -p * (1.0 - p)).collect(),
                    )
                }
                LossInput::FromColumns => (Vec::new(), Vec::new()),
                LossInput::Uncertainty { mean, log_scale, target, weight } => {
                    let diff = target.0 - mean.0;
                    let scaled = diff * diff * (-2.0 * log_scale.0).exp();
                    (
                        vec![weight.0 * diff, weight.0 * (scaled - 1.0)],
                        vec![-weight.0, -2.0 * weight.0 * scaled],
                    )
                }
            };
            ObjectDers { d1: doubles(&d1), d2: doubles(&d2) }
        })
        .collect()
}

/// Solves `(l2 - hessian) x = der` for a packed symmetric Hessian.
fn solve_symmetric_newton(der: &[f64], packed: &[f64], l2: f64) -> Vec<f64> {
    let k = der.len();
    let mut m = vec![vec![0.0_f64; k + 1]; k];
    let mut at = 0;
    for r in 0..k {
        for c in r..k {
            m[r][c] = -packed[at];
            m[c][r] = -packed[at];
            at += 1;
        }
    }
    for r in 0..k {
        m[r][r] += l2;
        m[r][k] = der[r];
    }
    for p in 0..k {
        for r in 0..k {
            if r != p {
                let f = m[r][p] / m[p][p];
                for c in 0..=k {
                    let v = m[p][c];
                    m[r][c] -= f * v;
                }
            }
        }
    }
    (0..k).map(|r| m[r][k] / m[r][r]).collect()
}

/// The leaf steps from summed derivatives.
fn solve_blocks(sum_der: &[f64], sum_der2: &[f64], k: usize, n_leaves: usize, l2: f64, coupled: bool) -> Vec<f64> {
    let pk = k * (k + 1) / 2;
    let mut out = Vec::new();
    for leaf in 0..n_leaves {
        let der = &sum_der[leaf * k..(leaf + 1) * k];
        let packed = &sum_der2[leaf * pk..(leaf + 1) * pk];
        if coupled {
            out.extend(solve_symmetric_newton(der, packed, l2));
        } else {
            for d in 0..k {
                out.extend(solve_symmetric_newton(&der[d..d + 1], &[packed[diag_index(d, k)]], l2));
            }
        }
    }
    out
}

fn grow_multiclass_block(
    objective: MulticlassObjective,
    leaf_of: &[u32],
    approx: &[f64],
    target: &[f64],
    weight: &[f64],
    k: usize,
    n_leaves: usize,
    scaled_l2: f64,
) -> Result<Vec<f64>, CbError> {
    let n = leaf_of.len();
    let ders = object_ders(objective, approx, target, weight, n, k);
    let blocks = cb_backend::multiclass::grow_multiclass_block(
        Backend::Cpu,
        objective,
        leaf_of,
        &doubles(approx),
        &doubles(target),
        &doubles(weight),
        &ders,
        k,
        n_leaves,
    )?
    .expect("a block with outputs and leaves");
    assert_eq!(blocks.coupled, objective.is_coupled());
    Ok(solve_blocks(
        &plain(&blocks.sum_der),
        &plain(&blocks.sum_der2_packed),
        k,
        n_leaves,
        scaled_l2,
        blocks.coupled,
    ))
}

fn cpu_reference_block(
    objective: MulticlassObjective,
    approx: &[f64],
    target: &[f64],
    weight: &[f64],
    leaf_of: &[u32],
    k: usize,
    n_leaves: usize,
    scaled_l2: f64,
) -> Vec<f64> {
    let n = leaf_of.len();
    let pk = k * (k + 1) / 2;
    let ders = object_ders(objective, approx, target, weight, n, k);
    let mut sum_der = vec![0.0_f64; n_leaves * k];
    let mut sum_der2 = vec![0.0_f64; n_leaves * pk];
    for i in 0..n {
        let leaf = leaf_of[i] as usize;
        if leaf >= n_leaves {
            continue;
        }
        for d in 0..k {
            sum_der[leaf * k + d] += ders[i].d1[d].0;
        }
        if objective.is_coupled() {
            for j in 0..pk {
                sum_der2[leaf * pk + j] += ders[i].d2[j].0;
            }
        } else {
            let mut at = 0;
            for d in 0..k {
                sum_der2[leaf * pk + at] += ders[i].d2[d].0;
                at += k - d;
            }
        }
    }
    solve_blocks(&sum_der, &sum_der2, k, n_leaves, scaled_l2, objective.is_coupled())
}

fn assert_block_matches(label: &str, device: &[f64], reference: &[f64]) {
    assert_eq!(device.len(), reference.len(), "[{label}] device/reference block length mismatch");
    for &v in device {
        assert!(v.is_finite(), "[{label}] device block value must be finite, got {v}");
    }
    let divergence = max_abs_divergence(device, reference);
    assert!(
        divergence <= TOL,
        "[{label}] device block diverged from CPU: {divergence:e} > {TOL:e} device = {device:?} reference = {reference:?}"
    );
}

#[test]
fn coupled_softmax_k3_matches_cpu_multi_output() {
    let k = 3usize;
    let n = 6usize;
    let n_leaves = 2usize;
    let approx: Vec<f64> = vec![
        0.4, -0.2, 0.1, 0.9, -0.6, 0.3, // dim 1
        -0.1, 0.5, -0.3, 0.2, 0.7, -0.4, // dim 2
        0.2, 0.0, 0.6, -0.5, 0.1, 0.8,
    ];
    let target: Vec<f64> = vec![0.0, 1.0, 2.0, 0.0, 1.0, 2.0];
    let weight = vec![1.0_f64; n];
    let leaf_of: Vec<u32> = vec![0, 0, 0, 1, 1, 1];
    let scaled_l2 = 3.0_f64;

    let objective = MulticlassObjective::Softmax;
    let device = grow_multiclass_block(objective, &leaf_of, &approx, &target, &weight, k, n_leaves, scaled_l2)
        .expect("device coupled softmax block must not error");
    let reference =
        cpu_reference_block(objective, &approx, &target, &weight, &leaf_of, k, n_leaves, scaled_l2);
    assert_eq!(reference.len(), n_leaves * k, "reference block is leaf_count × K");
    assert_block_matches("coupled_softmax_k3", &device, &reference);
}

#[test]
fn diagonal_rmse_uncertainty_k2_matches_cpu_multi_output() {
    let k = 2usize;
    let n = 5usize;
    let n_leaves = 2usize;
    let approx: Vec<f64> = vec![
        1.0, 2.0, 0.5, -0.5, 1.5, // dim 1 (log-scale)
        0.2, -0.3, 0.4, 0.1, -0.2,
    ];
    let target: Vec<f64> = vec![1.2, 1.7, 0.9, -0.2, 1.1];
    let weight = vec![1.0_f64; n];
    let leaf_of: Vec<u32> = vec![0, 0, 1, 1, 1];
    let scaled_l2 = 2.0_f64;

    let objective = MulticlassObjective::RmseWithUncertainty;
    let device = grow_multiclass_block(objective, &leaf_of, &approx, &target, &weight, k, n_leaves, scaled_l2)
        .expect("device diagonal RMSEWithUncertainty block must not error");
    let reference =
        cpu_reference_block(objective, &approx, &target, &weight, &leaf_of, k, n_leaves, scaled_l2);
    assert_eq!(reference.len(), n_leaves * k, "reference block is leaf_count × K");
    assert_block_matches("diagonal_rmse_uncertainty_k2", &device, &reference);
}

#[test]
fn diagonal_onevsall_k3_matches_cpu_multi_output() {
    let k = 3usize;
    let n = 6usize;
    let n_leaves = 3usize;
    let approx: Vec<f64> = vec![
        0.3, -0.4, 0.7, 0.1, -0.2, 0.5, // dim 1
        -0.5, 0.6, 0.2, -0.1, 0.4, -0.3, // dim 2
        0.1, 0.0, -0.6, 0.8, -0.4, 0.2,
    ];
    let target: Vec<f64> = vec![0.0, 1.0, 2.0, 0.0, 1.0, 2.0];
    let weight = vec![1.0_f64; n];
    let leaf_of: Vec<u32> = vec![0, 0, 1, 1, 2, 2];
    let scaled_l2 = 1.5_f64;

    let objective = MulticlassObjective::OneVsAll;
    let device = grow_multiclass_block(objective, &leaf_of, &approx, &target, &weight, k, n_leaves, scaled_l2)
        .expect("device diagonal OneVsAll block must not error");
    let reference =
        cpu_reference_block(objective, &approx, &target, &weight, &leaf_of, k, n_leaves, scaled_l2);
    assert_eq!(reference.len(), n_leaves * k, "reference block is leaf_count × K");
    assert_block_matches("diagonal_onevsall_k3", &device, &reference);
}

#[test]
fn objective_classification_and_coupled_dispatch() {
    assert_eq!(map_multiclass_objective::<Double>(&Loss::MultiClass), Some(MulticlassObjective::Softmax));
    assert_eq!(
        map_multiclass_objective::<Double>(&Loss::MultiClassOneVsAll),
        Some(MulticlassObjective::OneVsAll)
    );
    assert_eq!(
        map_multiclass_objective::<Double>(&Loss::MultiLogloss),
        Some(MulticlassObjective::MultiCrossEntropy)
    );
    assert_eq!(
        map_multiclass_objective::<Double>(&Loss::MultiCrossEntropy),
        Some(MulticlassObjective::MultiCrossEntropy)
    );
    assert_eq!(
        map_multiclass_objective::<Double>(&Loss::RmseWithUncertainty),
        Some(MulticlassObjective::RmseWithUncertainty)
    );
    assert!(MulticlassObjective::Softmax.is_coupled());
    for obj in [
        MulticlassObjective::OneVsAll,
        MulticlassObjective::MultiCrossEntropy,
        MulticlassObjective::MultiRmse,
        MulticlassObjective::RmseWithUncertainty,
    ] {
        assert!(!obj.is_coupled(), "{obj:?} must use the diagonal path");
    }
    assert_eq!(map_multiclass_objective::<Double>(&Loss::Rmse), None);
    assert_eq!(map_multiclass_objective::<Double>(&Loss::Logloss), None);
}

#[test]
fn packed_places_of_diagonals_ascend() {
    assert_eq!((0..3).map(|d| diag_index(d, 3)).collect::<Vec<_>>(), vec![0, 3, 5]);
    assert_eq!(packed_len(3), Ok(6));
    assert_eq!(packed_len(0), Ok(0));
    assert_eq!(
        packed_len(usize::MAX),
        Err(CbError::OutOfRange(RangeFault::PackedHessian { k: usize::MAX }))
    );
}

#[test]
fn squared_error_blocks_come_from_the_columns() {
    let approx = doubles(&[1.0, 2.0, 3.0, 4.0]);
    let target = doubles(&[2.0, 8.0]);
    let weight = doubles(&[0.5, 2.0]);
    let (der1, der2) =
        assemble_multiclass_ders(MulticlassObjective::MultiRmse, &approx, &target, &weight, &[], 2, 2).expect("a block");
    assert_eq!(plain(&der1), vec![0.5, 12.0, -0.5, 8.0]);
    assert_eq!(plain(&der2), vec![-0.5, 0.0, -0.5, -2.0, 0.0, -2.0]);
    let (sum1, sum2) = accumulate_leaf_blocks(&[1, 7], &der1, &der2, 2, 3, 2);
    assert_eq!(plain(&sum1), vec![0.0, 0.0, 0.5, -0.5]);
    assert_eq!(plain(&sum2), vec![0.0, 0.0, 0.0, -0.5, 0.0, -0.5]);
}

#[test]
fn every_output_is_measured_against_the_one_target() {
    let approx = doubles(&[1.0, 4.0]);
    let (der1, der2) = assemble_multiclass_ders(
        MulticlassObjective::MultiRmse,
        &approx,
        &doubles(&[3.0]),
        &doubles(&[1.0]),
        &[],
        1,
        2,
    )
    .expect("a block");
    assert_eq!(plain(&der1), vec![2.0, -1.0]);
    assert_eq!(plain(&der2), vec![-1.0, 0.0, -1.0]);
}

#[test]
fn multi_output_columns_are_checked() {
    let a = doubles(&[1.0]);
    let short = assemble_multiclass_ders(MulticlassObjective::MultiRmse, &a, &a, &a, &[], 2, 2);
    assert!(matches!(short, Err(CbError::LengthMismatch { column: Column::Approx, expected: 4, actual: 1 })));
    let wide = assemble_multiclass_ders(MulticlassObjective::MultiRmse, &a, &a, &a, &[], usize::MAX, 2);
    assert!(matches!(wide, Err(CbError::OutOfRange(RangeFault::OutputBlock { k: 2, n: usize::MAX }))));
    let long = usize::MAX / 8;
    let tall = assemble_multiclass_ders(MulticlassObjective::MultiRmse, &a, &a, &a, &[], long, 4);
    assert!(matches!(tall, Err(CbError::OutOfRange(RangeFault::HessianBlock { n, pk: 10 })) if n == long));
    let none = cb_backend::multiclass::grow_multiclass_block::<Double>(
        Backend::Wgpu,
        MulticlassObjective::MultiRmse,
        &[0],
        &a,
        &a,
        &a,
        &[],
        1,
        1,
    );
    assert!(matches!(none, Err(CbError::OutOfRange(RangeFault::NoDoubles(DoubleUse::OutputBlock)))));
    let empty = cb_backend::multiclass::grow_multiclass_block::<Double>(
        Backend::Wgpu,
        MulticlassObjective::MultiRmse,
        &[0],
        &a,
        &a,
        &a,
        &[],
        1,
        0,
    );
    assert!(matches!(empty, Ok(None)));
}

#[test]
fn targets_name_the_nearest_class() {
    let t = doubles(&[1.4, 1.5, -2.0, f64::NAN]);
    assert_eq!((0..5).map(|i| class_of(&t, i)).collect::<Vec<_>>(), vec![1, 2, 0, 0, 0]);
}
