//! The derivatives of the losses, object by object.

use vstd::prelude::*;
use crate::channel::{Real, ties_spec};
use crate::coverage::DerBinaryKernel;
use crate::session::{greater_of_one, magnitude_or_one};
use crate::smooth::Smooth;

verus! {

/// A derivative of a loss at one object.
pub enum DerTerm<F> {
    /// The gradient of the logistic loss.
    LoglossGradient,
    /// The second derivative of the logistic loss.
    LoglossHessian,
    /// The gradient of the quantile loss: nothing inside the dead zone.
    QuantileGradient { alpha: F, delta: F },
    /// The gradient of the focal loss.
    FocalGradient { alpha: F, gamma: F },
    /// The second derivative of the focal loss.
    FocalHessian { alpha: F, gamma: F },
    /// The gradient of the logarithm of the hyperbolic cosine.
    LogCoshGradient,
    /// The second derivative of the logarithm of the hyperbolic cosine.
    LogCoshHessian,
    /// The gradient of a power loss.
    LqGradient { q: F },
    /// The second derivative of a power loss.
    LqHessian { q: F },
    /// The gradient of the Huber loss: the residual, held to the threshold.
    HuberGradient { delta: F },
    /// The second derivative of the Huber loss.
    HuberHessian { delta: F },
    /// The gradient of the expectile loss.
    ExpectileGradient { alpha: F },
    /// The second derivative of the expectile loss.
    ExpectileHessian { alpha: F },
    /// The gradient of the Poisson loss.
    PoissonGradient,
    /// The second derivative of the Poisson loss.
    PoissonHessian,
    /// The gradient of the Tweedie loss.
    TweedieGradient { variance_power: F },
    /// The second derivative of the Tweedie loss.
    TweedieHessian { variance_power: F },
    /// The gradient of the percentage error.
    MapeGradient,
}

/// The chance that a margin with exponential `e` stands for.
pub open spec fn chance_of_exp<F: Smooth>(e: F) -> F {
    F::one_spec().minus_spec(F::one_spec().over_spec(F::one_spec().plus_spec(e)))
}

/// Not below a bound.
pub open spec fn at_least<F: Real>(v: F, bound: F) -> bool {
    v.above_spec(bound) || ties_spec(v, bound)
}

/// One above zero, minus one elsewhere.
pub open spec fn sign_of<F: Real>(v: F) -> F {
    if v.above_spec(F::zero_spec()) {
        F::one_spec()
    } else {
        F::zero_spec().minus_spec(F::one_spec())
    }
}

/// A value held between two bounds.
pub open spec fn held<F: Real>(v: F, lo: F, hi: F) -> F {
    if lo.above_spec(v) {
        lo
    } else if v.above_spec(hi) {
        hi
    } else {
        v
    }
}

/// What a focal loss reckons with at one object: the class weight, the chance of the
/// object's own class, and the label as a sign.
pub open spec fn focal_terms<F: Smooth>(a: F, t: F, alpha: F) -> (F, F, F) {
    let one = F::one_spec();
    let p = held(
        one.over_spec(one.plus_spec(F::zero_spec().minus_spec(a).exp_spec())),
        F::chance_spec(),
        one.minus_spec(F::chance_spec()),
    );
    let y = one.plus_spec(one).times_spec(t).minus_spec(one);
    if ties_spec(t, one) {
        (alpha, p, y)
    } else {
        (one.minus_spec(alpha), one.minus_spec(p), y)
    }
}

pub open spec fn focal_gradient<F: Smooth>(a: F, t: F, alpha: F, gamma: F) -> F {
    let one = F::one_spec();
    let (at, pt, y) = focal_terms(a, t, alpha);
    let factor = one.minus_spec(pt).powf_spec(gamma);
    let inner = gamma.times_spec(pt).times_spec(pt.ln_spec()).plus_spec(pt).minus_spec(one);
    F::zero_spec().minus_spec(at.times_spec(y).times_spec(factor).times_spec(inner))
}

pub open spec fn focal_hessian<F: Smooth>(a: F, t: F, alpha: F, gamma: F) -> F {
    let one = F::one_spec();
    let (at, pt, y) = focal_terms(a, t, alpha);
    let u = at.times_spec(y).times_spec(one.minus_spec(pt).powf_spec(gamma));
    let du = F::zero_spec().minus_spec(at).times_spec(y).times_spec(gamma).times_spec(
        one.minus_spec(pt).powf_spec(gamma.minus_spec(one)),
    );
    let v = gamma.times_spec(pt).times_spec(pt.ln_spec()).plus_spec(pt).minus_spec(one);
    let dv = gamma.times_spec(pt.ln_spec()).plus_spec(gamma).plus_spec(one);
    F::zero_spec().minus_spec(
        du.times_spec(v).plus_spec(u.times_spec(dv)).times_spec(y).times_spec(pt.times_spec(one.minus_spec(pt))),
    )
}

/// The value of a derivative at an object with approximation `a` and target `t`.
pub open spec fn der_term<F: Smooth>(term: DerTerm<F>, a: F, t: F) -> F {
    let zero = F::zero_spec();
    let one = F::one_spec();
    let two = one.plus_spec(one);
    match term {
        DerTerm::LoglossGradient => t.minus_spec(chance_of_exp(a.exp_spec())),
        DerTerm::LoglossHessian => {
            let p = chance_of_exp(a.exp_spec());
            zero.minus_spec(p.times_spec(one.minus_spec(p)))
        },
        DerTerm::QuantileGradient { alpha, delta } => {
            let v = t.minus_spec(a);
            if at_least(v.abs_spec(), delta) {
                if v.above_spec(zero) {
                    alpha
                } else {
                    zero.minus_spec(one.minus_spec(alpha))
                }
            } else {
                zero
            }
        },
        DerTerm::FocalGradient { alpha, gamma } => focal_gradient(a, t, alpha, gamma),
        DerTerm::FocalHessian { alpha, gamma } => focal_hessian(a, t, alpha, gamma),
        DerTerm::LogCoshGradient => zero.minus_spec(a.minus_spec(t).tanh_spec()),
        DerTerm::LogCoshHessian => {
            let c = a.minus_spec(t).cosh_spec();
            zero.minus_spec(one.over_spec(c.times_spec(c)))
        },
        DerTerm::LqGradient { q } => q.times_spec(sign_of(t.minus_spec(a))).times_spec(
            a.minus_spec(t).abs_spec().powf_spec(q.minus_spec(one)),
        ),
        DerTerm::LqHessian { q } => zero.minus_spec(q).times_spec(q.minus_spec(one)).times_spec(
            t.minus_spec(a).abs_spec().powf_spec(q.minus_spec(two)),
        ),
        DerTerm::HuberGradient { delta } => {
            let v = t.minus_spec(a);
            if at_least(v.abs_spec(), delta) {
                if v.above_spec(zero) {
                    delta
                } else {
                    zero.minus_spec(delta)
                }
            } else {
                v
            }
        },
        DerTerm::HuberHessian { delta } => if delta.above_spec(t.minus_spec(a).abs_spec()) {
            zero.minus_spec(one)
        } else {
            zero
        },
        DerTerm::ExpectileGradient { alpha } => {
            let v = t.minus_spec(a);
            if v.above_spec(zero) {
                two.times_spec(alpha).times_spec(v)
            } else {
                two.times_spec(one.minus_spec(alpha)).times_spec(v)
            }
        },
        DerTerm::ExpectileHessian { alpha } => if t.minus_spec(a).above_spec(zero) {
            zero.minus_spec(two).times_spec(alpha)
        } else {
            zero.minus_spec(two).times_spec(one.minus_spec(alpha))
        },
        DerTerm::PoissonGradient => t.minus_spec(a.exp_spec()),
        DerTerm::PoissonHessian => zero.minus_spec(a.exp_spec()),
        DerTerm::TweedieGradient { variance_power } => t.times_spec(
            one.minus_spec(variance_power).times_spec(a).exp_spec(),
        ).minus_spec(two.minus_spec(variance_power).times_spec(a).exp_spec()),
        DerTerm::TweedieHessian { variance_power } => {
            let d1 = one.minus_spec(variance_power);
            let d2 = two.minus_spec(variance_power);
            t.times_spec(d1).times_spec(d1.times_spec(a).exp_spec()).minus_spec(d2.times_spec(d2.times_spec(a).exp_spec()))
        },
        DerTerm::MapeGradient => sign_of(t.minus_spec(a)).over_spec(magnitude_or_one(t)),
    }
}

/// The values of a derivative over a column.
pub open spec fn der_terms<F: Smooth>(term: DerTerm<F>, approx: Seq<F>, target: Seq<F>) -> Seq<F> {
    Seq::new(approx.len(), |i: int| der_term(term, approx[i], target[i]))
}

fn chance_from_exp<F: Smooth>(e: F) -> (r: F)
    ensures
        r == chance_of_exp(e),
{
    F::one().minus(F::one().over(F::one().plus(e)))
}

fn reaches<F: Real>(v: F, bound: F) -> (r: bool)
    ensures
        r == at_least(v, bound),
{
    v.above(bound) || v.ties(bound)
}

fn signed<F: Real>(v: F) -> (r: F)
    ensures
        r == sign_of(v),
{
    if v.above(F::zero()) {
        F::one()
    } else {
        F::zero().minus(F::one())
    }
}

fn hold<F: Real>(v: F, lo: F, hi: F) -> (r: F)
    ensures
        r == held(v, lo, hi),
{
    if lo.above(v) {
        lo
    } else if v.above(hi) {
        hi
    } else {
        v
    }
}

fn terms_of_focal<F: Smooth>(a: F, t: F, alpha: F) -> (r: (F, F, F))
    ensures
        r == focal_terms(a, t, alpha),
{
    let one: F = F::one();
    let p: F = hold(
        one.over(one.plus(F::zero().minus(a).exp())),
        F::chance(),
        one.minus(F::chance()),
    );
    let y: F = one.plus(one).times(t).minus(one);
    if t.ties(one) {
        (alpha, p, y)
    } else {
        (one.minus(alpha), one.minus(p), y)
    }
}

fn gradient_of_focal<F: Smooth>(a: F, t: F, alpha: F, gamma: F) -> (r: F)
    ensures
        r == focal_gradient(a, t, alpha, gamma),
{
    let one: F = F::one();
    let (at, pt, y) = terms_of_focal(a, t, alpha);
    let factor: F = one.minus(pt).powf(gamma);
    let inner: F = gamma.times(pt).times(pt.ln()).plus(pt).minus(one);
    F::zero().minus(at.times(y).times(factor).times(inner))
}

fn hessian_of_focal<F: Smooth>(a: F, t: F, alpha: F, gamma: F) -> (r: F)
    ensures
        r == focal_hessian(a, t, alpha, gamma),
{
    let one: F = F::one();
    let (at, pt, y) = terms_of_focal(a, t, alpha);
    let u: F = at.times(y).times(one.minus(pt).powf(gamma));
    let du: F = F::zero().minus(at).times(y).times(gamma).times(one.minus(pt).powf(gamma.minus(one)));
    let v: F = gamma.times(pt).times(pt.ln()).plus(pt).minus(one);
    let dv: F = gamma.times(pt.ln()).plus(gamma).plus(one);
    F::zero().minus(du.times(v).plus(u.times(dv)).times(y).times(pt.times(one.minus(pt))))
}

/// The value of a derivative at one object.
fn term_at<F: Smooth>(term: &DerTerm<F>, a: F, t: F) -> (r: F)
    ensures
        r == der_term(*term, a, t),
{
    let zero: F = F::zero();
    let one: F = F::one();
    let two: F = one.plus(one);
    match term {
        DerTerm::LoglossGradient => t.minus(chance_from_exp(a.exp())),
        DerTerm::LoglossHessian => {
            let p: F = chance_from_exp(a.exp());
            zero.minus(p.times(one.minus(p)))
        },
        DerTerm::QuantileGradient { alpha, delta } => {
            let v: F = t.minus(a);
            if reaches(v.abs(), *delta) {
                if v.above(zero) {
                    *alpha
                } else {
                    zero.minus(one.minus(*alpha))
                }
            } else {
                zero
            }
        },
        DerTerm::FocalGradient { alpha, gamma } => gradient_of_focal(a, t, *alpha, *gamma),
        DerTerm::FocalHessian { alpha, gamma } => hessian_of_focal(a, t, *alpha, *gamma),
        DerTerm::LogCoshGradient => zero.minus(a.minus(t).tanh()),
        DerTerm::LogCoshHessian => {
            let c: F = a.minus(t).cosh();
            zero.minus(one.over(c.times(c)))
        },
        DerTerm::LqGradient { q } => (*q).times(signed(t.minus(a))).times(a.minus(t).abs().powf((*q).minus(one))),
        DerTerm::LqHessian { q } => zero.minus(*q).times((*q).minus(one)).times(t.minus(a).abs().powf((*q).minus(two))),
        DerTerm::HuberGradient { delta } => {
            let v: F = t.minus(a);
            if reaches(v.abs(), *delta) {
                if v.above(zero) {
                    *delta
                } else {
                    zero.minus(*delta)
                }
            } else {
                v
            }
        },
        DerTerm::HuberHessian { delta } => if (*delta).above(t.minus(a).abs()) {
            zero.minus(one)
        } else {
            zero
        },
        DerTerm::ExpectileGradient { alpha } => {
            let v: F = t.minus(a);
            if v.above(zero) {
                two.times(*alpha).times(v)
            } else {
                two.times(one.minus(*alpha)).times(v)
            }
        },
        DerTerm::ExpectileHessian { alpha } => if t.minus(a).above(zero) {
            zero.minus(two).times(*alpha)
        } else {
            zero.minus(two).times(one.minus(*alpha))
        },
        DerTerm::PoissonGradient => t.minus(a.exp()),
        DerTerm::PoissonHessian => zero.minus(a.exp()),
        DerTerm::TweedieGradient { variance_power } => t.times(
            one.minus(*variance_power).times(a).exp(),
        ).minus(two.minus(*variance_power).times(a).exp()),
        DerTerm::TweedieHessian { variance_power } => {
            let d1: F = one.minus(*variance_power);
            let d2: F = two.minus(*variance_power);
            t.times(d1).times(d1.times(a).exp()).minus(d2.times(d2.times(a).exp()))
        },
        DerTerm::MapeGradient => signed(t.minus(a)).over(greater_of_one(t)),
    }
}

fn terms_over<F: Smooth>(term: &DerTerm<F>, approx: &[F], target: &[F]) -> (r: Vec<F>)
    requires
        approx@.len() <= target@.len(),
    ensures
        r@ == der_terms(*term, approx@, target@),
{
    let n: usize = approx.len();
    let mut out: Vec<F> = Vec::new();
    let mut i: usize = 0;
    while i < n
        invariant
            i <= n,
            n == approx@.len(),
            n <= target@.len(),
            out@.len() == i,
            forall|k: int| 0 <= k < i ==> #[trigger] out@[k] == der_term(*term, approx@[k], target@[k]),
        decreases n - i,
    {
        out.push(term_at(term, approx[i], target[i]));
        i = i + 1;
    }
    assert(out@ =~= der_terms(*term, approx@, target@));
    out
}

/// The gradient of the logistic loss.
pub fn logloss_gradient_kernel<F: Smooth>(approx: &[F], target: &[F]) -> (r: Vec<F>)
    requires
        approx@.len() <= target@.len(),
    ensures
        r@ == der_terms(DerTerm::<F>::LoglossGradient, approx@, target@),
{
    terms_over(&DerTerm::LoglossGradient, approx, target)
}

/// The second derivative of the logistic loss.
pub fn logloss_hessian_kernel<F: Smooth>(approx: &[F]) -> (r: Vec<F>)
    ensures
        r@ == der_terms(DerTerm::<F>::LoglossHessian, approx@, approx@),
{
    terms_over(&DerTerm::LoglossHessian, approx, approx)
}

/// The gradient of the quantile loss: nothing inside the dead zone.
pub fn quantile_gradient_kernel<F: Smooth>(approx: &[F], target: &[F], alpha: F, delta: F) -> (r: Vec<F>)
    requires
        approx@.len() <= target@.len(),
    ensures
        r@ == der_terms((DerTerm::QuantileGradient { alpha, delta }), approx@, target@),
{
    terms_over(&DerTerm::QuantileGradient { alpha, delta }, approx, target)
}

/// The gradient of the focal loss.
pub fn focal_gradient_kernel<F: Smooth>(approx: &[F], target: &[F], alpha: F, gamma: F) -> (r: Vec<F>)
    requires
        approx@.len() <= target@.len(),
    ensures
        r@ == der_terms((DerTerm::FocalGradient { alpha, gamma }), approx@, target@),
{
    terms_over(&DerTerm::FocalGradient { alpha, gamma }, approx, target)
}

/// The second derivative of the focal loss.
pub fn focal_hessian_kernel<F: Smooth>(approx: &[F], target: &[F], alpha: F, gamma: F) -> (r: Vec<F>)
    requires
        approx@.len() <= target@.len(),
    ensures
        r@ == der_terms((DerTerm::FocalHessian { alpha, gamma }), approx@, target@),
{
    terms_over(&DerTerm::FocalHessian { alpha, gamma }, approx, target)
}

/// The gradient of the logarithm of the hyperbolic cosine.
pub fn logcosh_gradient_kernel<F: Smooth>(approx: &[F], target: &[F]) -> (r: Vec<F>)
    requires
        approx@.len() <= target@.len(),
    ensures
        r@ == der_terms(DerTerm::<F>::LogCoshGradient, approx@, target@),
{
    terms_over(&DerTerm::LogCoshGradient, approx, target)
}

/// The second derivative of the logarithm of the hyperbolic cosine.
pub fn logcosh_hessian_kernel<F: Smooth>(approx: &[F], target: &[F]) -> (r: Vec<F>)
    requires
        approx@.len() <= target@.len(),
    ensures
        r@ == der_terms(DerTerm::<F>::LogCoshHessian, approx@, target@),
{
    terms_over(&DerTerm::LogCoshHessian, approx, target)
}

/// The gradient of a power loss.
pub fn lq_gradient_kernel<F: Smooth>(approx: &[F], target: &[F], q: F) -> (r: Vec<F>)
    requires
        approx@.len() <= target@.len(),
    ensures
        r@ == der_terms((DerTerm::LqGradient { q }), approx@, target@),
        forall|i: int|
            0 <= i < approx@.len() ==> #[trigger] r@[i] == q.times_spec(
                if target@[i].minus_spec(approx@[i]).above_spec(F::zero_spec()) {
                    F::one_spec()
                } else {
                    F::zero_spec().minus_spec(F::one_spec())
                },
            ).times_spec(approx@[i].minus_spec(target@[i]).abs_spec().powf_spec(q.minus_spec(F::one_spec()))),
{
    terms_over(&DerTerm::LqGradient { q }, approx, target)
}

/// The second derivative of a power loss.
pub fn lq_hessian_kernel<F: Smooth>(approx: &[F], target: &[F], q: F) -> (r: Vec<F>)
    requires
        approx@.len() <= target@.len(),
    ensures
        r@ == der_terms((DerTerm::LqHessian { q }), approx@, target@),
{
    terms_over(&DerTerm::LqHessian { q }, approx, target)
}

/// The gradient of the Huber loss: the residual, held to the threshold.
pub fn huber_gradient_kernel<F: Smooth>(approx: &[F], target: &[F], delta: F) -> (r: Vec<F>)
    requires
        approx@.len() <= target@.len(),
    ensures
        r@ == der_terms((DerTerm::HuberGradient { delta }), approx@, target@),
{
    terms_over(&DerTerm::HuberGradient { delta }, approx, target)
}

/// The second derivative of the Huber loss.
pub fn huber_hessian_kernel<F: Smooth>(approx: &[F], target: &[F], delta: F) -> (r: Vec<F>)
    requires
        approx@.len() <= target@.len(),
    ensures
        r@ == der_terms((DerTerm::HuberHessian { delta }), approx@, target@),
{
    terms_over(&DerTerm::HuberHessian { delta }, approx, target)
}

/// The gradient of the expectile loss.
pub fn expectile_gradient_kernel<F: Smooth>(approx: &[F], target: &[F], alpha: F) -> (r: Vec<F>)
    requires
        approx@.len() <= target@.len(),
    ensures
        r@ == der_terms((DerTerm::ExpectileGradient { alpha }), approx@, target@),
{
    terms_over(&DerTerm::ExpectileGradient { alpha }, approx, target)
}

/// The second derivative of the expectile loss.
pub fn expectile_hessian_kernel<F: Smooth>(approx: &[F], target: &[F], alpha: F) -> (r: Vec<F>)
    requires
        approx@.len() <= target@.len(),
    ensures
        r@ == der_terms((DerTerm::ExpectileHessian { alpha }), approx@, target@),
{
    terms_over(&DerTerm::ExpectileHessian { alpha }, approx, target)
}

/// The gradient of the Poisson loss.
pub fn poisson_gradient_kernel<F: Smooth>(approx: &[F], target: &[F]) -> (r: Vec<F>)
    requires
        approx@.len() <= target@.len(),
    ensures
        r@ == der_terms(DerTerm::<F>::PoissonGradient, approx@, target@),
{
    terms_over(&DerTerm::PoissonGradient, approx, target)
}

/// The second derivative of the Poisson loss.
pub fn poisson_hessian_kernel<F: Smooth>(approx: &[F]) -> (r: Vec<F>)
    ensures
        r@ == der_terms(DerTerm::<F>::PoissonHessian, approx@, approx@),
{
    terms_over(&DerTerm::PoissonHessian, approx, approx)
}

/// The gradient of the Tweedie loss.
pub fn tweedie_gradient_kernel<F: Smooth>(approx: &[F], target: &[F], variance_power: F) -> (r: Vec<F>)
    requires
        approx@.len() <= target@.len(),
    ensures
        r@ == der_terms((DerTerm::TweedieGradient { variance_power }), approx@, target@),
{
    terms_over(&DerTerm::TweedieGradient { variance_power }, approx, target)
}

/// The second derivative of the Tweedie loss.
pub fn tweedie_hessian_kernel<F: Smooth>(approx: &[F], target: &[F], variance_power: F) -> (r: Vec<F>)
    requires
        approx@.len() <= target@.len(),
    ensures
        r@ == der_terms((DerTerm::TweedieHessian { variance_power }), approx@, target@),
{
    terms_over(&DerTerm::TweedieHessian { variance_power }, approx, target)
}

/// The gradient of the percentage error.
pub fn mape_gradient_kernel<F: Smooth>(approx: &[F], target: &[F]) -> (r: Vec<F>)
    requires
        approx@.len() <= target@.len(),
    ensures
        r@ == der_terms(DerTerm::<F>::MapeGradient, approx@, target@),
{
    terms_over(&DerTerm::MapeGradient, approx, target)
}

/// The first derivative that a sampled tree starts from.
pub open spec fn first_der<F: Smooth>(kernel: DerBinaryKernel, a: F, t: F) -> F {
    match kernel {
        DerBinaryKernel::RmseGradient => t.minus_spec(a),
        DerBinaryKernel::LoglossGradient => t.minus_spec(
            F::one_spec().over_spec(F::one_spec().plus_spec(a.negated_spec().exp_spec())),
        ),
    }
}

/// The first derivatives of a column, over the objects that both columns have.
pub fn host_der1<F: Smooth>(kernel: DerBinaryKernel, approx: &[F], target: &[F]) -> (r: Vec<F>)
    ensures
        r@ == Seq::new(
            if approx@.len() <= target@.len() { approx@.len() } else { target@.len() },
            |i: int| first_der(kernel, approx@[i], target@[i]),
        ),
{
    let n: usize = if approx.len() <= target.len() {
        approx.len()
    } else {
        target.len()
    };
    let mut out: Vec<F> = Vec::new();
    let mut i: usize = 0;
    while i < n
        invariant
            i <= n,
            n <= approx@.len(),
            n <= target@.len(),
            out@.len() == i,
            forall|k: int| 0 <= k < i ==> #[trigger] out@[k] == first_der(kernel, approx@[k], target@[k]),
        decreases n - i,
    {
        let a: F = approx[i];
        let t: F = target[i];
        let v: F = match kernel {
            DerBinaryKernel::RmseGradient => t.minus(a),
            DerBinaryKernel::LoglossGradient => t.minus(F::one().over(F::one().plus(a.negated().exp()))),
        };
        out.push(v);
        i = i + 1;
    }
    out
}

/// The magnitudes of the derivatives, whose sum a variance-reducing sampler starts from.
pub fn der_magnitudes<F: Real>(derivatives: &[F]) -> (r: Vec<F>)
    ensures
        r@ == Seq::new(derivatives@.len(), |i: int| derivatives@[i].times_spec(derivatives@[i]).sqrt_spec()),
{
    let n: usize = derivatives.len();
    let mut out: Vec<F> = Vec::new();
    let mut i: usize = 0;
    while i < n
        invariant
            i <= n,
            n == derivatives@.len(),
            out@.len() == i,
            forall|k: int| 0 <= k < i ==> #[trigger] out@[k] == derivatives@[k].times_spec(derivatives@[k]).sqrt_spec(),
        decreases n - i,
    {
        out.push(derivatives[i].times(derivatives[i]).sqrt());
        i = i + 1;
    }
    out
}

/// The regularisation of a variance-reducing sampler: the square of the mean magnitude of
/// `n` derivatives whose magnitudes sum to `magnitude_sum`.
pub fn mvs_lambda_from_der<F: Real>(magnitude_sum: F, n: usize) -> (r: F)
    ensures
        r == if n == 0 {
            F::zero_spec()
        } else {
            let mean = magnitude_sum.over_spec(F::count_spec(n));
            mean.times_spec(mean)
        },
{
    if n == 0 {
        return F::zero();
    }
    let mean: F = magnitude_sum.over(F::count(n));
    mean.times(mean)
}

} // verus!
