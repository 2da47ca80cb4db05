//! Ordered boosting on real values.

use cb_backend::channel::{Channel, Real, REDUCE_FIXEDPOINT_SCALE};
use cb_backend::config::Backend;
use cb_backend::error::{CbError, Degeneracy, DoubleUse, OrderedPart, RangeFault};
use cb_backend::ordered::{accumulate_ordered_trajectory, ordered_approx_delta, weight_of, OrderedTree};

/// A double-precision element.
#[derive(Clone, Copy, Debug, PartialEq)]
struct Double(f64);

impl Channel for Double {
    fn zero() -> Self {
        Double(0.0)
    }

    fn plus(self, other: Self) -> Self {
        Double(self.0 + other.0)
    }

    fn zero_spec() -> Self {
        Self::zero()
    }

    fn plus_spec(self, other: Self) -> Self {
        self.plus(other)
    }
}

impl Real for Double {
    fn one() -> Self {
        Double(1.0)
    }

    fn bottom() -> Self {
        Double(f64::NEG_INFINITY)
    }

    fn floor() -> Self {
        Double(f64::from(f32::MIN))
    }

    fn tiny() -> Self {
        Double(1e-100)
    }

    fn eps() -> Self {
        Double(1e-20)
    }

    fn negated(self) -> Self {
        Double(-self.0)
    }

    fn sqrt(self) -> Self {
        Double(self.0.sqrt())
    }

    fn ln(self) -> Self {
        Double(self.0.ln())
    }

    fn minus(self, other: Self) -> Self {
        Double(self.0 - other.0)
    }

    fn times(self, other: Self) -> Self {
        Double(self.0 * other.0)
    }

    fn over(self, other: Self) -> Self {
        Double(self.0 / other.0)
    }

    fn narrow(self) -> Self {
        Double(f64::from(self.0 as f32))
    }

    fn count(n: usize) -> Self {
        Double(n as f64)
    }

    fn decode(raw: u64) -> Self {
        Double((raw as i64) as f64 / REDUCE_FIXEDPOINT_SCALE as f64)
    }

    fn encode(self) -> u64 {
        ((self.0 * REDUCE_FIXEDPOINT_SCALE as f64).round() as i64) as u64
    }

    fn above(self, other: Self) -> bool {
        self.0 > other.0
    }

    fn ties(self, other: Self) -> bool {
        self.0 == other.0
    }

    fn one_spec() -> Self {
        Self::one()
    }

    fn bottom_spec() -> Self {
        Self::bottom()
    }

    fn floor_spec() -> Self {
        Self::floor()
    }

    fn tiny_spec() -> Self {
        Self::tiny()
    }

    fn eps_spec() -> Self {
        Self::eps()
    }

    fn negated_spec(self) -> Self {
        self.negated()
    }

    fn sqrt_spec(self) -> Self {
        self.sqrt()
    }

    fn ln_spec(self) -> Self {
        self.ln()
    }

    fn narrow_spec(self) -> Self {
        self.narrow()
    }

    fn minus_spec(self, other: Self) -> Self {
        self.minus(other)
    }

    fn times_spec(self, other: Self) -> Self {
        self.times(other)
    }

    fn over_spec(self, other: Self) -> Self {
        self.over(other)
    }

    fn count_spec(n: usize) -> Self {
        Self::count(n)
    }

    fn decode_spec(raw: u64) -> Self {
        Self::decode(raw)
    }

    fn encode_spec(self) -> u64 {
        self.encode()
    }

    fn above_spec(self, other: Self) -> bool {
        self.above(other)
    }

    fn is_number(self) -> bool {
        !self.0.is_nan()
    }

    fn order_laws(_: Self, _: Self, _: Self) {}
}

fn doubles(values: &[f64]) -> Vec<Double> {
    values.iter().map(|&v| Double(v)).collect()
}

fn plain(values: &[Double]) -> Vec<f64> {
    values.iter().map(|v| v.0).collect()
}

const TOL: f64 = 1e-4;

fn max_abs_divergence(device: &[f64], reference: &[f64]) -> f64 {
    if device.len() != reference.len() {
        return f64::INFINITY;
    }
    device
        .iter()
        .zip(reference.iter())
        .map(|(&d, &r)| (d - r).abs())
        .fold(0.0_f64, f64::max)
}

struct Fixture {
    n: usize,
    body_finish: usize,
    tail_finish: usize,
    n_leaves: usize,
    scaled_l2: f64,
    permutation: Vec<i32>,
    trees: Vec<(Vec<u32>, Vec<Double>)>,
}

fn frozen_fixture() -> Fixture {
    let n = 8usize;
    let permutation: Vec<i32> = vec![5, 1, 7, 0, 3, 6, 2, 4];
    let trees = vec![
        (
            vec![0u32, 0, 1, 1, 0, 1, 0, 1],
            doubles(&[0.9, -0.4, 0.3, 0.7, -0.6, 0.2, 0.5, -0.1]),
        ),
        (
            vec![1u32, 0, 0, 1, 1, 0, 1, 0],
            doubles(&[-0.3, 0.8, -0.2, 0.4, 0.1, -0.5, 0.6, -0.7]),
        ),
        (
            vec![0u32, 1, 1, 0, 0, 1, 1, 0],
            doubles(&[0.2, 0.5, -0.8, 0.1, -0.3, 0.9, -0.4, 0.6]),
        ),
    ];
    Fixture {
        n,
        body_finish: 3,
        tail_finish: n,
        n_leaves: 2,
        scaled_l2: 3.0,
        permutation,
        trees,
    }
}

fn ordered_trees<'a>(fx: &'a Fixture, empty_weight: &'a [Double]) -> Vec<OrderedTree<'a, Double>> {
    fx.trees
        .iter()
        .map(|(leaf_of, der)| OrderedTree {
            leaf_of,
            der,
            weights: empty_weight,
            permutation: &fx.permutation,
            body_finish: fx.body_finish,
            tail_finish: fx.tail_finish,
            n_leaves: fx.n_leaves,
            scaled_l2: Double(fx.scaled_l2),
        })
        .collect()
}

fn cpu_reference_trajectory(fx: &Fixture, empty_weight: &[Double]) -> Vec<f64> {
    let mut trajectory = vec![0.0_f64; fx.n];
    for tree in ordered_trees(fx, empty_weight) {
        let delta = ordered_approx_delta(&tree).expect("ordered delta must not error");
        for i in 0..fx.n {
            if let (Some(slot), Some(&d)) = (trajectory.get_mut(i), delta.get(i)) {
                *slot += d.0;
            }
        }
    }
    trajectory
}

#[test]
fn device_trajectory_matches_frozen_cpu_reference() {
    let fx = frozen_fixture();
    let empty_weight: Vec<Double> = Vec::new();

    let device = accumulate_ordered_trajectory(Backend::Cpu, &ordered_trees(&fx, &empty_weight), fx.n)
        .expect("device ordered trajectory must not error");
    let device = plain(&device);
    let reference = cpu_reference_trajectory(&fx, &empty_weight);

    assert_eq!(device.len(), fx.n, "device trajectory is length n");
    assert_eq!(reference.len(), fx.n, "reference trajectory is length n");
    for &v in &device {
        assert!(v.is_finite(), "device trajectory value must be finite, got {v}");
    }
    let divergence = max_abs_divergence(&device, &reference);
    assert!(
        divergence <= TOL,
        "device ordered trajectory diverged from frozen CPU: {divergence:e} > {TOL:e}\n\
         device = {device:?}\nreference = {reference:?}"
    );
}

#[test]
fn body_rows_keep_delta_zero() {
    let fx = frozen_fixture();
    let empty_weight: Vec<Double> = Vec::new();
    let body_objects: Vec<usize> = fx
        .permutation
        .iter()
        .take(fx.body_finish)
        .map(|&p| p as usize)
        .collect();

    for tree in ordered_trees(&fx, &empty_weight) {
        let delta = ordered_approx_delta(&tree).expect("ordered delta must not error");
        for &obj in &body_objects {
            assert_eq!(
                delta.get(obj).copied(),
                Some(Double(0.0)),
                "body object {obj} must keep delta 0 (anti-leakage estimation prefix)"
            );
        }
        let any_tail_nonzero = fx
            .permutation
            .iter()
            .skip(fx.body_finish)
            .any(|&p| delta.get(p as usize).copied().unwrap_or(Double(0.0)) != Double(0.0));
        assert!(any_tail_nonzero, "at least one tail row must take a non-zero historical delta");
    }
}

#[test]
fn resident_trajectory_persists_across_iterations() {
    let fx = frozen_fixture();
    let empty_weight: Vec<Double> = Vec::new();

    let device_full = accumulate_ordered_trajectory(Backend::Cpu, &ordered_trees(&fx, &empty_weight), fx.n)
        .expect("device full trajectory must not error");
    let device_full = plain(&device_full);

    let mut summed_singletons = vec![0.0_f64; fx.n];
    for tree in ordered_trees(&fx, &empty_weight) {
        let single = accumulate_ordered_trajectory(Backend::Cpu, std::slice::from_ref(&tree), fx.n)
            .expect("device single-tree trajectory must not error");
        for i in 0..fx.n {
            if let (Some(slot), Some(&v)) = (summed_singletons.get_mut(i), single.get(i)) {
                *slot += v.0;
            }
        }
    }

    let divergence = max_abs_divergence(&device_full, &summed_singletons);
    assert!(
        divergence <= TOL,
        "resident trajectory did not persist across iterations: {divergence:e} > {TOL:e}\n\
         full = {device_full:?}\nsummed_singletons = {summed_singletons:?}"
    );
}

/// The step of a leaf from its derivative, its weight and the regularisation.
fn gradient_leaf_delta(der: f64, weight: f64, l2: f64) -> f64 {
    der / (weight + l2)
}

#[test]
fn single_tail_row_equals_gradient_leaf_delta() {
    let leaf_of = vec![0u32, 1];
    let der = doubles(&[0.6, -0.2]);
    let permutation = vec![0i32, 1];
    let empty_weight: Vec<Double> = Vec::new();
    let scaled_l2 = 2.0_f64;
    let tree = OrderedTree {
        leaf_of: &leaf_of,
        der: &der,
        weights: &empty_weight,
        permutation: &permutation,
        body_finish: 0,
        tail_finish: 2,
        n_leaves: 2,
        scaled_l2: Double(scaled_l2),
    };
    let delta = ordered_approx_delta(&tree).expect("ordered delta must not error");
    assert!(
        (delta.first().copied().unwrap_or(Double(0.0)).0 - gradient_leaf_delta(0.6, 1.0, scaled_l2)).abs()
            <= 1e-12,
        "single tail row delta must equal gradient_leaf_delta(der, weight, l2)"
    );
}

#[test]
fn ordered_faults_name_the_position() {
    let leaf_of = vec![0u32, 0];
    let der = doubles(&[1.0, 1.0]);
    let tree = |permutation: &'static [i32]| -> Result<Vec<Double>, CbError> {
        ordered_approx_delta(&OrderedTree {
            leaf_of: &leaf_of,
            der: &der,
            weights: &[],
            permutation,
            body_finish: 0,
            tail_finish: permutation.len(),
            n_leaves: 1,
            scaled_l2: Double(1.0),
        })
    };
    assert_eq!(tree(&[0, 1, 0]), Err(CbError::Degenerate(Degeneracy::ShortColumn)));
    let negative = Degeneracy::NegativeIndex { part: OrderedPart::Tail, position: 1 };
    assert_eq!(tree(&[0, -1]), Err(CbError::Degenerate(negative)));
    let range = Degeneracy::IndexRange { part: OrderedPart::Tail, position: 0 };
    assert_eq!(tree(&[5, 0]), Err(CbError::Degenerate(range)));
    assert_eq!(tree(&[1, 0]), Ok(doubles(&[2.0 / 3.0, 0.5])));
}

#[test]
fn entries_past_the_tail_have_to_name_objects() {
    let leaf_of = vec![0u32, 0];
    let der = doubles(&[1.0, 1.0]);
    let tree = |permutation: &'static [i32]| -> Result<Vec<Double>, CbError> {
        ordered_approx_delta(&OrderedTree {
            leaf_of: &leaf_of,
            der: &der,
            weights: &[],
            permutation,
            body_finish: 0,
            tail_finish: 1,
            n_leaves: 1,
            scaled_l2: Double(1.0),
        })
    };
    let negative = Degeneracy::NegativeIndex { part: OrderedPart::Rest, position: 1 };
    assert_eq!(tree(&[0, -1]), Err(CbError::Degenerate(negative)));
    let range = Degeneracy::IndexRange { part: OrderedPart::Rest, position: 1 };
    assert_eq!(tree(&[0, 2]), Err(CbError::Degenerate(range)));
    assert_eq!(tree(&[0, 1]), Ok(doubles(&[0.5, 0.0])));
}

#[test]
fn ordered_trajectories_need_doubles() {
    let none: Vec<OrderedTree<'static, Double>> = Vec::new();
    assert_eq!(
        accumulate_ordered_trajectory(Backend::Wgpu, &none, 2),
        Err(CbError::OutOfRange(RangeFault::NoDoubles(DoubleUse::Trajectory)))
    );
    assert_eq!(accumulate_ordered_trajectory(Backend::Cpu, &none, 2), Ok(doubles(&[0.0, 0.0])));
    assert_eq!(accumulate_ordered_trajectory(Backend::Cpu, &none, 0), Ok(vec![]));
}

#[test]
fn later_objects_do_not_change_an_earlier_delta() {
    let permutation = vec![0i32, 1, 2, 3];
    let delta = |last: f64, leaf: u32| {
        let leaf_of = vec![0u32, 0, 0, leaf];
        let der = doubles(&[1.0, 2.0, 3.0, last]);
        ordered_approx_delta(&OrderedTree {
            leaf_of: &leaf_of,
            der: &der,
            weights: &[],
            permutation: &permutation,
            body_finish: 1,
            tail_finish: 4,
            n_leaves: 2,
            scaled_l2: Double(1.0),
        })
        .expect("a valid tree")
    };
    let (a, b) = (delta(4.0, 0), delta(-40.0, 1));
    assert_eq!(a[..3], b[..3]);
    assert_ne!(a[3], b[3]);
    assert_eq!(a, doubles(&[0.0, 1.0, 1.5, 2.0]));
}

#[test]
fn missing_weights_count_as_one() {
    assert_eq!(weight_of(&doubles(&[2.0]), 0), Double(2.0));
    assert_eq!(weight_of(&doubles(&[2.0]), 1), Double(1.0));
    assert_eq!(weight_of::<Double>(&[], 0), Double(1.0));
}
