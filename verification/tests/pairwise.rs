//! Pairwise histograms, systems and stumps.

use cb_backend::channel::{Channel, Real, REDUCE_FIXEDPOINT_SCALE};
use cb_backend::config::Backend;
use cb_backend::error::{CbError, Column, Degeneracy, RangeFault};
use cb_backend::pairwise::{
    assemble_pairwise_system_host, check_pairwise_hist, grow_oblivious_tree_pairwise, launch_cubes, launch_pairwise_hist,
    launch_pairwise_assemble_system_into, launch_pairwise_hist_8bit, launch_pairwise_hist_8bit_into, launch_pairwise_hist_binary,
    launch_pairwise_hist_binary_into, launch_pairwise_hist_half_byte, launch_pairwise_hist_half_byte_into, launch_pairwise_hist_into,
    launch_pairwise_make_derivatives, launch_pairwise_split_score, launch_scan_update_pairwise, pair_hist_binsums_len, pairwise_score_input,
    pair_hist_binsums_len_checked, pairwise_assemble_wgpu_reject,
};

/// A double-precision element.
#[derive(Clone, Copy, Debug, PartialEq)]
struct Double(f64);

impl Channel for Double {
    fn zero() -> Self {
        Double(0.0)
    }

    fn plus(self, other: Self) -> Self {
        Double(self.0 + other.0)
    }

    fn zero_spec() -> Self {
        Self::zero()
    }

    fn plus_spec(self, other: Self) -> Self {
        self.plus(other)
    }
}

impl Real for Double {
    fn one() -> Self {
        Double(1.0)
    }

    fn bottom() -> Self {
        Double(f64::NEG_INFINITY)
    }

    fn floor() -> Self {
        Double(f64::from(f32::MIN))
    }

    fn tiny() -> Self {
        Double(1e-100)
    }

    fn eps() -> Self {
        Double(1e-20)
    }

    fn negated(self) -> Self {
        Double(-self.0)
    }

    fn sqrt(self) -> Self {
        Double(self.0.sqrt())
    }

    fn ln(self) -> Self {
        Double(self.0.ln())
    }

    fn minus(self, other: Self) -> Self {
        Double(self.0 - other.0)
    }

    fn times(self, other: Self) -> Self {
        Double(self.0 * other.0)
    }

    fn over(self, other: Self) -> Self {
        Double(self.0 / other.0)
    }

    fn narrow(self) -> Self {
        Double(f64::from(self.0 as f32))
    }

    fn count(n: usize) -> Self {
        Double(n as f64)
    }

    fn decode(raw: u64) -> Self {
        Double((raw as i64) as f64 / REDUCE_FIXEDPOINT_SCALE as f64)
    }

    fn encode(self) -> u64 {
        ((self.0 * REDUCE_FIXEDPOINT_SCALE as f64).round() as i64) as u64
    }

    fn above(self, other: Self) -> bool {
        self.0 > other.0
    }

    fn ties(self, other: Self) -> bool {
        self.0 == other.0
    }

    fn one_spec() -> Self {
        Self::one()
    }

    fn bottom_spec() -> Self {
        Self::bottom()
    }

    fn floor_spec() -> Self {
        Self::floor()
    }

    fn tiny_spec() -> Self {
        Self::tiny()
    }

    fn eps_spec() -> Self {
        Self::eps()
    }

    fn negated_spec(self) -> Self {
        self.negated()
    }

    fn sqrt_spec(self) -> Self {
        self.sqrt()
    }

    fn ln_spec(self) -> Self {
        self.ln()
    }

    fn narrow_spec(self) -> Self {
        self.narrow()
    }

    fn minus_spec(self, other: Self) -> Self {
        self.minus(other)
    }

    fn times_spec(self, other: Self) -> Self {
        self.times(other)
    }

    fn over_spec(self, other: Self) -> Self {
        self.over(other)
    }

    fn count_spec(n: usize) -> Self {
        Self::count(n)
    }

    fn decode_spec(raw: u64) -> Self {
        Self::decode(raw)
    }

    fn encode_spec(self) -> u64 {
        self.encode()
    }

    fn above_spec(self, other: Self) -> bool {
        self.above(other)
    }

    fn is_number(self) -> bool {
        !self.0.is_nan()
    }

    fn order_laws(_: Self, _: Self, _: Self) {}
}

fn doubles(values: &[f64]) -> Vec<Double> {
    values.iter().map(|&v| Double(v)).collect()
}

fn plain(values: &[Double]) -> Vec<f64> {
    values.iter().map(|v| v.0).collect()
}

#[test]
fn a_pair_is_counted_four_times() {
    // Object 0 in bin 3, object 1 in bin 1: the first is above the second.
    let cells = launch_pairwise_hist(&[0], &[1], &[5u64], &[3, 1], 2, 32, 1, 5, false).expect("a valid pair");
    assert_eq!(cells.len(), pair_hist_binsums_len(32, 1));
    assert_eq!(cells.iter().sum::<u64>(), 20);
    assert_eq!((cells[3 * 4 + 2], cells[4 + 3]), (10, 10));
    let level = launch_pairwise_hist(&[0], &[1], &[5u64], &[3, 3], 2, 32, 1, 5, false).expect("a valid pair");
    assert_eq!((level[12], level[13], level[14], level[15]), (5, 5, 5, 5));
    let equal = launch_pairwise_hist(&[0], &[1], &[5u64], &[3, 3], 2, 32, 1, 5, true).expect("a valid pair");
    assert_eq!((equal[12], equal[13], equal[14], equal[15]), (10, 10, 0, 0));
}

#[test]
fn pairs_come_in_any_order() {
    let cindex = [3u32, 1, 7];
    let a = launch_pairwise_hist(&[0, 1, 2], &[1, 2, 0], &[5u64, 6, 7], &cindex, 3, 32, 1, 5, false);
    let b = launch_pairwise_hist(&[2, 0, 1], &[0, 1, 2], &[7u64, 5, 6], &cindex, 3, 32, 1, 5, false);
    assert_eq!(a, b);
}

#[test]
fn every_family_has_its_width() {
    let one: Result<Vec<u64>, CbError> = launch_pairwise_hist(&[0], &[1], &[1], &[0, 1], 2, 33, 1, 5, false);
    assert_eq!(one, Err(CbError::Degenerate(Degeneracy::FamilyWidth { bits: 5, n_bins: 33 })));
    let eight = launch_pairwise_hist_8bit(&[0], &[1], &[1u64], &[0, 255], 2, 256, 1, false).expect("a byte feature");
    assert_eq!(eight.len(), 1024);
    assert_eq!(
        launch_pairwise_hist_8bit(&[0], &[1], &[1u64], &[0, 1], 2, 128, 1, false),
        Err(CbError::Degenerate(Degeneracy::ByteWidth { n_bins: 128 }))
    );
    let half = launch_pairwise_hist_half_byte(&[0], &[1], &[1u64], &[0, 15], 2, 16, 1).expect("a half-byte feature");
    assert_eq!(half.iter().sum::<u64>(), 4);
    assert_eq!(
        launch_pairwise_hist_half_byte(&[0], &[1], &[1u64], &[0, 1], 2, 17, 1),
        Err(CbError::Degenerate(Degeneracy::HalfByteWidth { n_bins: 17 }))
    );
    assert_eq!(
        launch_pairwise_hist_binary(&[0], &[1], &[1u64], &[0, 1], 2, 3, 1),
        Err(CbError::Degenerate(Degeneracy::BinaryWidth { n_bins: 3 }))
    );
    let bit = launch_pairwise_hist_binary(&[0], &[1], &[1u64], &[0, 1], 2, 2, 1).expect("a binary feature");
    assert_eq!(bit.iter().sum::<u64>(), 4);
}

#[test]
fn pair_columns_are_checked_in_order() {
    let check = |i: &[u32], j: &[u32], w: usize, c: &[u32], n: usize| check_pairwise_hist(i, j, w, c, n, 32, 1);
    assert_eq!(
        check(&[0], &[], 0, &[], 1),
        Err(CbError::LengthMismatch { column: Column::PairJ, expected: 1, actual: 0 })
    );
    assert_eq!(
        check(&[0], &[0], 2, &[], 1),
        Err(CbError::LengthMismatch { column: Column::PairWeight, expected: 1, actual: 2 })
    );
    assert_eq!(
        check(&[0], &[0], 1, &[], 1),
        Err(CbError::LengthMismatch { column: Column::Cindex, expected: 1, actual: 0 })
    );
    assert_eq!(
        check(&[4], &[9], 1, &[99], 1),
        Err(CbError::OutOfRange(RangeFault::PairI { value: 4, n_objects: 1 }))
    );
    assert_eq!(
        check(&[0], &[9], 1, &[99], 1),
        Err(CbError::OutOfRange(RangeFault::PairJ { value: 9, n_objects: 1 }))
    );
    assert_eq!(
        check(&[0], &[0], 1, &[99], 1),
        Err(CbError::OutOfRange(RangeFault::BinValue { value: 99, n_bins: 32 }))
    );
    assert_eq!(check(&[0], &[0], 1, &[31], 1), Ok(()));
    assert_eq!(
        check_pairwise_hist(&[], &[], 0, &[], usize::MAX, 32, 2),
        Err(CbError::OutOfRange(RangeFault::CindexStride { n_features: 2, n_objects: usize::MAX }))
    );
    assert_eq!(
        check_pairwise_hist(&[], &[], 0, &[], 0, usize::MAX, 2),
        Err(CbError::OutOfRange(RangeFault::BinSums { n_features: 2, n_bins: usize::MAX }))
    );
}

#[test]
fn histogram_lengths_are_checked() {
    assert_eq!(pair_hist_binsums_len_checked(32, 3), Some(384));
    assert_eq!(pair_hist_binsums_len_checked(usize::MAX, 2), None);
    assert_eq!((launch_cubes(0), launch_cubes(32), launch_cubes(33)), (1, 1, 2));
}

#[test]
fn scanned_pairs_run_over_the_bins() {
    let scanned =
        launch_scan_update_pairwise(&[0], &[1], &[5u64], &[3, 1], 2, 32, 1, 5, false).expect("one scan block");
    assert_eq!((scanned[2 * 4 + 2], scanned[3 * 4 + 2], scanned[31 * 4 + 2]), (0, 10, 10));
    assert_eq!((scanned[3], scanned[4 + 3], scanned[31 * 4 + 3]), (0, 10, 10));
    let wide: Result<Vec<u64>, CbError> =
        launch_scan_update_pairwise(&[0], &[1], &[5], &[3, 1], 2, 64, 1, 6, false);
    assert_eq!(wide, Err(CbError::OutOfRange(RangeFault::ScanWidth { n_bins: 64 })));
    let none: Result<Vec<u64>, CbError> = launch_scan_update_pairwise(&[], &[], &[], &[], 0, 32, 1, 5, false);
    assert_eq!(none, Ok(vec![]));
}

#[test]
fn derivative_sums_fall_into_bins() {
    let sums =
        launch_pairwise_make_derivatives(&[1u64, 2, 4], &[0, 1, 0], &[0, 1, 2], 2, 1).expect("valid columns");
    assert_eq!(sums, vec![5, 2]);
    assert_eq!(
        launch_pairwise_make_derivatives(&[1u64, 2], &[0, 1], &[0], 2, 1),
        Err(CbError::LengthMismatch { column: Column::Indices, expected: 2, actual: 1 })
    );
}

#[test]
fn pairwise_systems_share_the_prior() {
    let system = assemble_pairwise_system_host(
        Backend::Cpu,
        &doubles(&[0.0; 16]),
        &doubles(&[0.0; 4]),
        Double(0.5),
        Double(2.0),
    )
    .expect("a square of weights")
    .expect("four leaves");
    assert_eq!((system.rows, system.matrix_len, system.out_len), (3, 6, 9));
    assert_eq!((system.non_diag_reg, system.diag_reg), (Double(-0.5), Double(2.0)));
    let one = assemble_pairwise_system_host(Backend::Wgpu, &doubles(&[]), &doubles(&[0.0]), Double(0.0), Double(0.0));
    assert!(matches!(one, Ok(None)));
    let short =
        assemble_pairwise_system_host(Backend::Cpu, &doubles(&[0.0]), &doubles(&[0.0; 2]), Double(0.0), Double(0.0));
    assert!(matches!(
        short,
        Err(CbError::LengthMismatch { column: Column::WeightSums, expected: 4, actual: 1 })
    ));
    let wgpu =
        assemble_pairwise_system_host(Backend::Wgpu, &doubles(&[0.0; 4]), &doubles(&[0.0; 2]), Double(0.0), Double(0.0));
    assert!(matches!(wgpu, Err(e) if e == pairwise_assemble_wgpu_reject()));
}

#[test]
fn a_pairwise_stump_follows_the_best_border() {
    let n = 4usize;
    let der1 = doubles(&[1.0, 2.0, -3.0, -4.0]);
    let weight = doubles(&[1.0; 4]);
    let cindex = [0u32, 1, 2, 3];
    let indices = [0u32, 1, 2, 3];
    let mut scores = vec![Double(0.0); 31];
    scores[1] = Double(9.0);
    let (pair_i, pair_j, pair_w) = (vec![0u32], vec![2u32], doubles(&[1.0]));
    let scored =
        launch_pairwise_split_score(&der1, &pair_i, &pair_j, &pair_w, &cindex, &indices, 32, 1, &[scores.clone()])
            .expect("valid columns");
    let best = scored.best.expect("a border");
    assert_eq!((best.feature_id, best.bin_id), (0, 1));
    assert_eq!(plain(&scored.der_sums[..4]), vec![1.0, 2.0, -3.0, -4.0]);
    let heavy = doubles(&[2.0, 1.0, 0.5, 1.0]);
    let weighted = grow_oblivious_tree_pairwise(
        &der1, &heavy, &pair_i, &pair_j, &pair_w, &cindex, &indices, 32, 1, 1, Double(1.0), &[scores.clone()],
    )
    .expect("a stump");
    assert_eq!(plain(&weighted.part_stats), vec![3.0, 3.0, -3.0, -7.0, 1.5, -1.5]);
    let tree = grow_oblivious_tree_pairwise(
        &der1, &weight, &pair_i, &pair_j, &pair_w, &cindex, &indices, 32, 1, 1, Double(1.0), &[scores],
    )
    .expect("a stump");
    assert_eq!(tree.splits, vec![(0, 1)]);
    assert_eq!(tree.leaf_of, vec![0, 0, 1, 1]);
    assert_eq!(plain(&tree.leaf_values), vec![1.0, -7.0 / 3.0]);
    assert_eq!(tree.leaf_of.len(), n);
    let deep = grow_oblivious_tree_pairwise(
        &der1, &weight, &pair_i, &pair_j, &pair_w, &cindex, &indices, 32, 1, 2, Double(1.0), &[],
    );
    assert!(matches!(deep, Err(CbError::OutOfRange(RangeFault::Depth { depth: 2 }))));
    let width = launch_pairwise_split_score(&der1, &pair_i, &pair_j, &pair_w, &cindex, &indices, 16, 1, &[]);
    assert!(matches!(width, Err(CbError::Degenerate(Degeneracy::ScoreWidth { n_bins: 16 }))));
}

#[test]
fn without_pairs_there_is_nothing_to_fill() {
    let none: &[u64] = &[];
    assert_eq!(launch_pairwise_hist(&[], &[1], none, &[9], 1, 32, 1, 5, false), Ok(vec![]));
    assert_eq!(launch_pairwise_hist_8bit(&[], &[1], none, &[9], 1, 32, 1, false), Ok(vec![]));
    assert_eq!(launch_pairwise_hist_half_byte(&[7], &[], none, &[9], 1, 0, 1), Ok(vec![]));
    assert_eq!(launch_pairwise_hist_binary(&[7], &[], none, &[9], 1, 2, 0), Ok(vec![]));
    let torn = Err(CbError::LengthMismatch { column: Column::PairJ, expected: 0, actual: 1 });
    assert_eq!(launch_pairwise_hist_into(&[], &[1], none, &[9], 1, 32, 1, 5, false), torn);
    assert_eq!(launch_pairwise_hist_8bit_into(&[], &[1], none, &[9], 1, 32, 1, false), torn);
    assert_eq!(launch_pairwise_hist_half_byte_into(&[], &[1], none, &[9], 1, 32, 1), torn);
    assert_eq!(launch_pairwise_hist_binary_into(&[], &[1], none, &[9], 1, 32, 1), torn);
    assert_eq!(launch_pairwise_hist_into(&[], &[], none, &[9], 1, 32, 1, 5, false), Ok(vec![]));
    assert_eq!(
        check_pairwise_hist(&[], &[1], 0, &[], 1, 32, 0),
        Err(CbError::LengthMismatch { column: Column::PairJ, expected: 0, actual: 1 })
    );
}

#[test]
fn a_score_input_gathers_one_feature() {
    let cindex = [0u32, 1, 2, 3, 5, 4];
    let sums = doubles(&[1.0, 2.0, 3.0, 4.0, 5.0, 6.0, 7.0]);
    let input = pairwise_score_input(&sums, &[0, 1], &[2, 0, 9], &doubles(&[0.5, 0.25]), &cindex, 3, 4, 1);
    assert_eq!(input.pairs, vec![(0, 2, Double(0.5)), (1, 0, Double(0.25))]);
    assert_eq!(input.leaf_of, vec![0, 0, 0]);
    assert_eq!(input.bucket_of, vec![3, 5, 4]);
    assert_eq!(input.der_sums.len(), 1);
    assert_eq!(plain(&input.der_sums[0]), vec![5.0, 6.0, 7.0, 0.0]);
    assert_eq!((input.leaf_count, input.bucket_count), (1, 4));
}

#[test]
fn sizes_that_do_not_fit_are_refused() {
    let sums: Result<Vec<u64>, CbError> = launch_pairwise_make_derivatives(&[1], &[0, 0], &[0], usize::MAX, 2);
    assert_eq!(sums, Err(CbError::OutOfRange(RangeFault::DerSums { n_features: 2, n_bins: usize::MAX })));
    let id: Result<Vec<u64>, CbError> = launch_pairwise_make_derivatives(&[1], &[0], &[7], 4, 1);
    assert_eq!(id, Err(CbError::OutOfRange(RangeFault::ObjectId { value: 7, n: 1 })));
    let bin: Result<Vec<u64>, CbError> = launch_pairwise_make_derivatives(&[1], &[4], &[7], 4, 1);
    assert_eq!(bin, Err(CbError::OutOfRange(RangeFault::DerBin { value: 4, n_bins: 4 })));
    let axis: Result<Vec<u64>, CbError> = launch_pairwise_make_derivatives(&[1], &[0], &[0], 1 << 33, 1);
    assert_eq!(axis, Err(CbError::OutOfRange(RangeFault::BinAxis { n_bins: 1 << 33 })));
    let system = launch_pairwise_assemble_system_into(Backend::Cpu, 0, 1 << 33, Double(0.0), Double(0.0));
    assert!(matches!(system, Err(CbError::OutOfRange(RangeFault::WeightMatrix { leaf_count: 0x2_0000_0000 }))));
}

#[test]
fn a_level_without_comparable_scores_has_no_split() {
    let der1 = doubles(&[1.0, 2.0]);
    let weight = doubles(&[1.0; 2]);
    let nan = vec![Double(f64::NAN); 31];
    let tree = grow_oblivious_tree_pairwise(
        &der1, &weight, &[0], &[1], &doubles(&[1.0]), &[0, 1], &[0, 1], 32, 1, 1, Double(1.0), &[nan],
    );
    assert!(matches!(tree, Err(CbError::Degenerate(Degeneracy::NoSplit { level: 0 }))));
}
