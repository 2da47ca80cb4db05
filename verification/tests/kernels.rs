//! The kernels on given values.

use cb_backend::channel::{Additive, Channel, Fixed, Real, REDUCE_FIXEDPOINT_SCALE};
use cb_backend::coverage::DerBinaryKernel;
use cb_backend::elementwise::{
    fill_kernel, gather_kernel, gradient_kernel, histogram_scatter_kernel, vector_add_kernel, vector_div_kernel,
    vector_mul_kernel, vector_sub_kernel,
};
use cb_backend::histogram::{
    partition_update_kernel, pointwise_hist2_binary_kernel, pointwise_hist2_half_byte_kernel,
    pointwise_hist2_nonbinary_kernel,
};
use cb_backend::loss::{
    der_magnitudes, expectile_gradient_kernel, expectile_hessian_kernel, focal_gradient_kernel, focal_hessian_kernel,
    host_der1, huber_gradient_kernel, huber_hessian_kernel, logcosh_gradient_kernel, logcosh_hessian_kernel,
    logloss_gradient_kernel, logloss_hessian_kernel, lq_gradient_kernel, lq_hessian_kernel, mape_gradient_kernel,
    mvs_lambda_from_der, poisson_gradient_kernel, poisson_hessian_kernel, quantile_gradient_kernel,
    tweedie_gradient_kernel, tweedie_hessian_kernel,
};
use cb_backend::pairwise::scan_update_pointwise_kernel;
use cb_backend::scan::{
    add_block_offset_kernel, block_reduce_atomic_kernel, block_reduce_fixedpoint_kernel, block_reduce_kernel,
    block_scan_kernel, block_scan_total_kernel, full_scan,
};
use cb_backend::segment::{
    key_head_flag_kernel, reduce_by_key_kernel, segment_offset_scatter_kernel, segmented_reduce_kernel,
    segmented_scan_kernel,
};
use cb_backend::smooth::Smooth;
use cb_backend::sort::{radix_bit_flag_kernel, radix_order, reorder_one_bit_scatter_kernel};

/// A double-precision element.
#[derive(Clone, Copy, Debug, PartialEq)]
struct Double(f64);

impl Channel for Double {
    fn zero() -> Self {
        Double(0.0)
    }

    fn plus(self, other: Self) -> Self {
        Double(self.0 + other.0)
    }

    fn zero_spec() -> Self {
        Self::zero()
    }

    fn plus_spec(self, other: Self) -> Self {
        self.plus(other)
    }
}

impl Real for Double {
    fn one() -> Self {
        Double(1.0)
    }

    fn bottom() -> Self {
        Double(f64::NEG_INFINITY)
    }

    fn floor() -> Self {
        Double(f64::from(f32::MIN))
    }

    fn tiny() -> Self {
        Double(1e-100)
    }

    fn eps() -> Self {
        Double(1e-20)
    }

    fn negated(self) -> Self {
        Double(-self.0)
    }

    fn sqrt(self) -> Self {
        Double(self.0.sqrt())
    }

    fn ln(self) -> Self {
        Double(self.0.ln())
    }

    fn minus(self, other: Self) -> Self {
        Double(self.0 - other.0)
    }

    fn times(self, other: Self) -> Self {
        Double(self.0 * other.0)
    }

    fn over(self, other: Self) -> Self {
        Double(self.0 / other.0)
    }

    fn narrow(self) -> Self {
        Double(f64::from(self.0 as f32))
    }

    fn count(n: usize) -> Self {
        Double(n as f64)
    }

    fn decode(raw: u64) -> Self {
        Double((raw as i64) as f64 / REDUCE_FIXEDPOINT_SCALE as f64)
    }

    fn encode(self) -> u64 {
        ((self.0 * REDUCE_FIXEDPOINT_SCALE as f64).round() as i64) as u64
    }

    fn above(self, other: Self) -> bool {
        self.0 > other.0
    }

    fn ties(self, other: Self) -> bool {
        self.0 == other.0
    }

    fn one_spec() -> Self {
        Self::one()
    }

    fn bottom_spec() -> Self {
        Self::bottom()
    }

    fn floor_spec() -> Self {
        Self::floor()
    }

    fn tiny_spec() -> Self {
        Self::tiny()
    }

    fn eps_spec() -> Self {
        Self::eps()
    }

    fn negated_spec(self) -> Self {
        self.negated()
    }

    fn sqrt_spec(self) -> Self {
        self.sqrt()
    }

    fn ln_spec(self) -> Self {
        self.ln()
    }

    fn narrow_spec(self) -> Self {
        self.narrow()
    }

    fn minus_spec(self, other: Self) -> Self {
        self.minus(other)
    }

    fn times_spec(self, other: Self) -> Self {
        self.times(other)
    }

    fn over_spec(self, other: Self) -> Self {
        self.over(other)
    }

    fn count_spec(n: usize) -> Self {
        Self::count(n)
    }

    fn decode_spec(raw: u64) -> Self {
        Self::decode(raw)
    }

    fn encode_spec(self) -> u64 {
        self.encode()
    }

    fn above_spec(self, other: Self) -> bool {
        self.above(other)
    }

    fn is_number(self) -> bool {
        !self.0.is_nan()
    }

    fn order_laws(_: Self, _: Self, _: Self) {}
}

impl Smooth for Double {
    fn half() -> Self {
        Double(0.5)
    }

    fn chance() -> Self {
        Double(1e-13)
    }

    fn abs(self) -> Self {
        Double(self.0.abs())
    }

    fn exp(self) -> Self {
        Double(self.0.exp())
    }

    fn powf(self, e: Self) -> Self {
        Double(self.0.powf(e.0))
    }

    fn tanh(self) -> Self {
        Double(self.0.tanh())
    }

    fn cosh(self) -> Self {
        Double(self.0.cosh())
    }

    fn class(self) -> usize {
        if self.0.is_finite() && self.0 >= 0.0 {
            self.0.round() as usize
        } else {
            0
        }
    }

    fn sort_key(self) -> u64 {
        (self.0 + 0.0).to_bits()
    }

    fn half_spec() -> Self {
        Self::half()
    }

    fn chance_spec() -> Self {
        Self::chance()
    }

    fn abs_spec(self) -> Self {
        self.abs()
    }

    fn exp_spec(self) -> Self {
        self.exp()
    }

    fn tanh_spec(self) -> Self {
        self.tanh()
    }

    fn cosh_spec(self) -> Self {
        self.cosh()
    }

    fn powf_spec(self, e: Self) -> Self {
        self.powf(e)
    }

    fn class_spec(self) -> usize {
        self.class()
    }

    fn sort_key_spec(self) -> u64 {
        self.sort_key()
    }

    fn sort_key_laws(_: Self, _: Self) {}
}

impl Additive for Double {
    fn less(self, other: Self) -> Self {
        Double(self.0 - other.0)
    }

    fn less_spec(self, other: Self) -> Self {
        self.less(other)
    }

    fn sum_laws(_: Self, _: Self, _: Self) {}
}

fn doubles(values: &[f64]) -> Vec<Double> {
    values.iter().map(|&v| Double(v)).collect()
}

fn plain(values: &[Double]) -> Vec<f64> {
    values.iter().map(|v| v.0).collect()
}

fn close(got: &[Double], want: &[f64]) {
    assert_eq!(got.len(), want.len());
    for (g, w) in got.iter().zip(want.iter()) {
        assert!((g.0 - w).abs() <= 1e-12, "{} is not {w}", g.0);
    }
}

#[test]
fn squared_error_gradient_is_the_residual() {
    assert_eq!(plain(&gradient_kernel(&doubles(&[1.0, 2.5]), &doubles(&[3.0, 2.0]))), vec![2.0, -0.5]);
}

#[test]
fn logistic_derivatives() {
    let a = doubles(&[0.0, 1.0]);
    let t = doubles(&[1.0, 0.0]);
    let p = 1.0 / (1.0 + (-1.0_f64).exp());
    close(&logloss_gradient_kernel(&a, &t), &[0.5, -p]);
    close(&logloss_hessian_kernel(&a), &[-0.25, -p * (1.0 - p)]);
    close(&host_der1(DerBinaryKernel::LoglossGradient, &a, &t), &[0.5, -p]);
    close(&host_der1(DerBinaryKernel::RmseGradient, &a, &t[..1]), &[1.0]);
}

#[test]
fn quantile_and_huber_derivatives() {
    let a = doubles(&[0.0, 0.0, 0.0]);
    let t = doubles(&[2.0, -2.0, 0.25]);
    close(&quantile_gradient_kernel(&a, &t, Double(0.25), Double(0.5)), &[0.25, -0.75, 0.0]);
    close(&huber_gradient_kernel(&a, &t, Double(1.0)), &[1.0, -1.0, 0.25]);
    close(&huber_hessian_kernel(&a, &t, Double(1.0)), &[0.0, 0.0, -1.0]);
}

#[test]
fn power_and_hyperbolic_derivatives() {
    let a = doubles(&[3.0, 0.0]);
    let t = doubles(&[1.0, 2.0]);
    close(&lq_gradient_kernel(&a, &t, Double(3.0)), &[-12.0, 12.0]);
    close(&lq_hessian_kernel(&a, &t, Double(3.0)), &[-12.0, -12.0]);
    close(&logcosh_gradient_kernel(&a, &t), &[-(2.0_f64.tanh()), 2.0_f64.tanh()]);
    let c = 2.0_f64.cosh();
    close(&logcosh_hessian_kernel(&a, &t), &[-1.0 / (c * c), -1.0 / (c * c)]);
}

#[test]
fn count_and_percentage_derivatives() {
    let a = doubles(&[0.0, 1.0]);
    let t = doubles(&[3.0, 0.5]);
    let e = 1.0_f64.exp();
    close(&poisson_gradient_kernel(&a, &t), &[2.0, 0.5 - e]);
    close(&poisson_hessian_kernel(&a), &[-1.0, -e]);
    let half = 0.5_f64.exp();
    close(&tweedie_gradient_kernel(&a, &t, Double(1.5)), &[2.0, 0.5 / half - half]);
    close(&tweedie_hessian_kernel(&a, &t, Double(1.5)), &[-2.0, 0.5 * -0.5 / half - 0.5 * half]);
    close(&mape_gradient_kernel(&a, &t), &[1.0 / 3.0, -1.0]);
    close(&expectile_gradient_kernel(&a, &t, Double(0.25)), &[1.5, -0.75]);
    close(&expectile_hessian_kernel(&a, &t, Double(0.25)), &[-0.5, -1.5]);
}

#[test]
fn focal_derivatives_match_differences() {
    let (alpha, gamma) = (0.25_f64, 2.0_f64);
    let value = |a: f64, t: f64| {
        let p = 1.0 / (1.0 + (-a).exp());
        let (at, pt) = if t == 1.0 { (alpha, p) } else { (1.0 - alpha, 1.0 - p) };
        at * (1.0 - pt).powf(gamma) * pt.ln()
    };
    for (a, t) in [(0.3, 1.0), (0.3, 0.0), (-1.2, 1.0)] {
        let h = 1e-5;
        let slope = (value(a + h, t) - value(a - h, t)) / (2.0 * h);
        let bend = (value(a + h, t) - 2.0 * value(a, t) + value(a - h, t)) / (h * h);
        let (av, tv) = (doubles(&[a]), doubles(&[t]));
        let g = focal_gradient_kernel(&av, &tv, Double(alpha), Double(gamma))[0].0;
        let d = focal_hessian_kernel(&av, &tv, Double(alpha), Double(gamma))[0].0;
        assert!((g - slope).abs() < 1e-6, "{g} {slope}");
        assert!((d - bend).abs() < 1e-4, "{d} {bend}");
    }
}

#[test]
fn sampling_regularisation_is_the_squared_mean_magnitude() {
    let m = der_magnitudes(&doubles(&[3.0, -5.0]));
    assert_eq!(plain(&m), vec![3.0, 5.0]);
    assert_eq!(mvs_lambda_from_der(Double(8.0), 2), Double(16.0));
    assert_eq!(mvs_lambda_from_der(Double(8.0), 0), Double(0.0));
}

#[test]
fn elementwise_kernels() {
    let a = doubles(&[6.0, 1.0]);
    let b = doubles(&[2.0, 4.0]);
    assert_eq!(plain(&vector_add_kernel(&a, &b)), vec![8.0, 5.0]);
    assert_eq!(plain(&vector_sub_kernel(&a, &b)), vec![4.0, -3.0]);
    assert_eq!(plain(&vector_mul_kernel(&a, &b)), vec![12.0, 4.0]);
    assert_eq!(plain(&vector_div_kernel(&a, &b)), vec![3.0, 0.25]);
    assert_eq!(plain(&histogram_scatter_kernel(&a, &b)), vec![12.0, 4.0]);
    assert_eq!(gather_kernel(&[5u32, 6, 7], &[2, 0, 2]), vec![7, 5, 7]);
    let mut filled = vec![1u32, 2, 3];
    fill_kernel(&mut filled, 9);
    assert_eq!(filled, vec![9, 9, 9]);
}

#[test]
fn blocks_reduce_to_their_sums() {
    let words: Vec<u64> = (1..=70).collect();
    assert_eq!(block_reduce_kernel(&words, 0, 64, true), (1..=64).sum::<u64>());
    assert_eq!(block_reduce_kernel(&words, 1, 64, false), (65..=70).sum::<u64>());
    let mut acc = 5u64;
    block_reduce_atomic_kernel(&words, &mut acc, 0, 32, true);
    assert_eq!(acc, 5 + (1..=32).sum::<u64>());
    let values: Vec<Double> = (1..=70).map(|v| Double(f64::from(v) * 0.5)).collect();
    assert_eq!(block_reduce_kernel(&values, 0, 64, false), Double(1040.0));
}

#[test]
fn fixed_point_reductions_are_exact() {
    let values: Vec<Double> = (0..100).map(|v| Double(f64::from(v) * 0.25 - 10.0)).collect();
    let raw = block_reduce_fixedpoint_kernel(&values, 32);
    assert_eq!(Double::decode(raw), Double(237.5));
    let fixed: Vec<Fixed> = (0..100).map(|v| Fixed { raw: v * 7 - 400 }).collect();
    let raw = block_reduce_fixedpoint_kernel(&fixed, 16);
    assert_eq!(Fixed::decode(raw), Fixed { raw: (0..100).map(|v| v * 7 - 400).sum() });
    assert_eq!(block_reduce_fixedpoint_kernel::<Fixed>(&[], 32), 0);
}

#[test]
fn scans_of_every_length() {
    for n in [0usize, 1, 31, 32, 33, 64, 1024, 1025, 3000] {
        let words: Vec<u64> = (0..n as u64).map(|v| v * v + 1).collect();
        let inclusive = full_scan(&words, true);
        let exclusive = full_scan(&words, false);
        let mut sum = 0u64;
        for i in 0..n {
            assert_eq!(exclusive[i], sum);
            sum += words[i];
            assert_eq!(inclusive[i], sum);
        }
        assert_eq!((inclusive.len(), exclusive.len()), (n, n));
    }
    assert_eq!(plain(&full_scan(&doubles(&[0.5, 1.5, -1.0]), true)), vec![0.5, 2.0, 1.0]);
}

#[test]
fn sums_wrap() {
    assert_eq!(full_scan(&[u64::MAX, 2], true), vec![u64::MAX, 1]);
    assert_eq!(Additive::less(1u64, 2), u64::MAX);
}

#[test]
fn block_scans_stay_in_their_block() {
    let words: Vec<u64> = vec![1; 40];
    let mut out = vec![7u64; 40];
    let total = block_scan_total_kernel(&words, &mut out, 1, 32, false);
    assert_eq!(total, 8);
    assert_eq!(out[..33], [[7u64; 32].as_slice(), &[0]].concat()[..]);
    assert_eq!(out[39], 7);
    block_scan_kernel(&words, &mut out, 0, 32, true);
    assert_eq!(out[31], 32);
    add_block_offset_kernel(&mut out, &[0, 100], 32);
    assert_eq!((out[31], out[32]), (32, 100));
}

#[test]
fn segments_are_scanned_and_reduced() {
    let v = [1u64, 2, 3, 4, 5];
    let flags = [1u32, 0, 1, 0, 0];
    assert_eq!(segmented_scan_kernel(&v, &flags, true), vec![1, 3, 3, 7, 12]);
    assert_eq!(segmented_scan_kernel(&v, &flags, false), vec![0, 1, 0, 3, 7]);
    assert_eq!(segmented_reduce_kernel(&v, &[0, 2, 2, 5]), vec![3, 0, 12]);
    let keys = [4u32, 4, 9, 9, 9];
    let heads = key_head_flag_kernel(&keys);
    assert_eq!(heads, vec![1, 0, 1, 0, 0]);
    let ids = full_scan(&heads, false);
    let mut offsets = vec![0u32, 0, 5];
    segment_offset_scatter_kernel(&heads, &ids, &mut offsets);
    assert_eq!(offsets, vec![0, 2, 5]);
    assert_eq!(reduce_by_key_kernel(&keys, &v, &offsets), (vec![4, 9], vec![3, 12]));
    let sums = segmented_reduce_kernel(&v, &offsets);
    assert_eq!(sums.iter().sum::<u64>(), v.iter().sum::<u64>());
}

#[test]
fn one_bit_reorders_are_stable() {
    let keys = [3u32, 2, 1, 0];
    let flags = radix_bit_flag_kernel(&keys, 0);
    assert_eq!(flags, vec![1, 0, 1, 0]);
    let before = full_scan(&flags, false);
    let (k, v) = reorder_one_bit_scatter_kernel(&keys, &[10, 11, 12, 13], &before, 0, 2);
    assert_eq!((k, v), (vec![2, 0, 3, 1], vec![11, 13, 10, 12]));
}

#[test]
fn radix_orders_are_stable_and_ascending() {
    let keys: Vec<u64> = (0..200u64).map(|i| (i * 0x9E37_79B9_7F4A_7C15) % 17 * 0x1_0000_0001).collect();
    let order = radix_order(&keys);
    let mut want: Vec<u32> = (0..200).collect();
    want.sort_by_key(|&i| keys[i as usize]);
    assert_eq!(order, want);
}

#[test]
fn histograms_count_every_object_once() {
    let der = [1u64, 2, 3, 4];
    let weight = [10u64, 20, 30, 40];
    let cindex = [0u32, 5, 0, 2];
    let mut cells = vec![0u64; 8 * 2];
    pointwise_hist2_nonbinary_kernel(&der, &weight, &cindex, &[0, 1, 2, 3], &mut cells, 1, 8);
    assert_eq!((cells[0], cells[1], cells[10], cells[11]), (4, 40, 2, 20));
    assert_eq!(cells.iter().step_by(2).sum::<u64>(), 10);
    assert_eq!(cells.iter().skip(1).step_by(2).sum::<u64>(), 100);
    let mut again = vec![0u64; 8 * 2];
    pointwise_hist2_nonbinary_kernel(&der, &weight, &cindex, &[3, 1, 2, 0], &mut again, 1, 8);
    assert_eq!(cells, again);
    let mut half = vec![0u64; 16 * 2];
    pointwise_hist2_half_byte_kernel(&der, &weight, &[0x12, 3, 0x22, 0xff], &[0, 1, 2, 3], &mut half, 1);
    assert_eq!((half[4], half[6], half[30]), (4, 2, 4));
    let mut binary = vec![0u64; 4];
    pointwise_hist2_binary_kernel(&der, &weight, &[1, 0, 3, 2], &[0, 1, 2, 3], &mut binary, 1);
    assert_eq!(binary, vec![6, 60, 4, 40]);
}

#[test]
fn bin_scans_and_part_statistics() {
    let cells = [1u64, 10, 2, 20, 3, 30, 5, 50];
    assert_eq!(scan_update_pointwise_kernel(&cells, 2), vec![1, 10, 3, 30, 3, 30, 8, 80]);
    let mut stats = vec![0u64; 4];
    partition_update_kernel(&[1, 2, 4], &[10, 20, 40], &[0, 1, 2], &[0, 1, 1], &mut stats);
    assert_eq!(stats, vec![1, 10, 6, 60]);
}

#[test]
fn fixed_point_arithmetic() {
    let unit = REDUCE_FIXEDPOINT_SCALE;
    let (two, three) = (Fixed { raw: 2 * unit }, Fixed { raw: 3 * unit });
    assert_eq!(two.times(three), Fixed { raw: 6 * unit });
    assert_eq!(three.over(two), Fixed { raw: unit + unit / 2 });
    assert_eq!(three.over(Fixed { raw: 0 }), Fixed { raw: 0 });
    assert_eq!(two.negated().over(three.negated()), two.over(three));
    assert_eq!(Fixed { raw: 4 * unit }.sqrt(), two);
    assert_eq!(Fixed::count(3), three);
    assert_eq!(Fixed { raw: -5 }.encode(), u64::MAX - 4);
    assert_eq!(Fixed { raw: 0 }.exp(), Fixed { raw: unit });
    assert_eq!(Fixed { raw: -40 * unit }.exp(), Fixed { raw: 0 });
    assert_eq!(Fixed { raw: 40 * unit }.exp(), Fixed { raw: i64::MAX });
    assert_eq!(Fixed { raw: unit + unit / 2 }.class(), 2);
    assert_eq!(Fixed { raw: -unit }.class(), 0);
    assert_eq!(Fixed { raw: 0 }.tanh(), Fixed { raw: 0 });
    assert_eq!(Fixed { raw: 0 }.cosh(), Fixed { raw: unit });
    assert_eq!(Fixed { raw: -7 }.abs(), Fixed { raw: 7 });
}
