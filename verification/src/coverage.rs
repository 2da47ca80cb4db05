//! Which runs the device serves. A run outside is declined, never served in part.

use vstd::prelude::*;
use crate::channel::Real;
use crate::config::{is_plain_config, Backend, DeviceBootstrapType, DeviceCtrColumn, DeviceGrowPolicy, DeviceTrainConfig, EScoreFunction, Loss};
use crate::split::{SCORE_FN_COSINE, SCORE_FN_L2, SCORE_FN_LOO_L2, SCORE_FN_SAT_L2, SCORE_FN_SOLAR_L2};

verus! {

/// The derivative kernel of a loss.
#[derive(Clone, Copy, Debug, PartialEq, Eq, Structural)]
pub enum DerBinaryKernel {
    RmseGradient,
    LoglossGradient,
}

/// A grow policy that is not symmetric.
#[derive(Clone, Copy, Debug, PartialEq, Eq, Structural)]
pub enum NonsymPolicy {
    Depthwise,
    Lossguide,
}

/// A sampling that the device draws itself.
#[derive(Clone, Copy, Debug, PartialEq, Eq, Structural)]
pub enum DeviceBootstrapKind {
    Bernoulli,
    Bayesian,
    Poisson,
}

/// How a run samples.
#[derive(Clone, Copy, Debug, PartialEq, Eq, Structural)]
pub enum BootstrapArm {
    NoDraw,
    Device(DeviceBootstrapKind),
    Mvs,
}

/// How leaf values are estimated.
pub enum DeviceLeafMethod<F> {
    Newton,
    Exact { alpha: F, delta: F, mape: bool },
}

pub open spec fn grow_policy_of(policy: DeviceGrowPolicy) -> Option<NonsymPolicy> {
    match policy {
        DeviceGrowPolicy::Depthwise => Some(NonsymPolicy::Depthwise),
        DeviceGrowPolicy::Lossguide => Some(NonsymPolicy::Lossguide),
        DeviceGrowPolicy::SymmetricTree => None,
        DeviceGrowPolicy::Region => None,
    }
}

/// The non-symmetric policy of a run, if it has one.
pub fn map_grow_policy(policy: DeviceGrowPolicy) -> (r: Option<NonsymPolicy>)
    ensures
        r == grow_policy_of(policy),
{
    match policy {
        DeviceGrowPolicy::Depthwise => Some(NonsymPolicy::Depthwise),
        DeviceGrowPolicy::Lossguide => Some(NonsymPolicy::Lossguide),
        DeviceGrowPolicy::SymmetricTree => None,
        DeviceGrowPolicy::Region => None,
    }
}

pub open spec fn bootstrap_arm_of(bootstrap_type: DeviceBootstrapType) -> BootstrapArm {
    match bootstrap_type {
        DeviceBootstrapType::No => BootstrapArm::NoDraw,
        DeviceBootstrapType::Bernoulli => BootstrapArm::Device(DeviceBootstrapKind::Bernoulli),
        DeviceBootstrapType::Bayesian => BootstrapArm::Device(DeviceBootstrapKind::Bayesian),
        DeviceBootstrapType::Poisson => BootstrapArm::Device(DeviceBootstrapKind::Poisson),
        DeviceBootstrapType::Mvs => BootstrapArm::Mvs,
    }
}

/// How a run samples.
pub fn map_bootstrap_kernel(bootstrap_type: DeviceBootstrapType) -> (r: BootstrapArm)
    ensures
        r == bootstrap_arm_of(bootstrap_type),
{
    match bootstrap_type {
        DeviceBootstrapType::No => BootstrapArm::NoDraw,
        DeviceBootstrapType::Bernoulli => BootstrapArm::Device(DeviceBootstrapKind::Bernoulli),
        DeviceBootstrapType::Bayesian => BootstrapArm::Device(DeviceBootstrapKind::Bayesian),
        DeviceBootstrapType::Poisson => BootstrapArm::Device(DeviceBootstrapKind::Poisson),
        DeviceBootstrapType::Mvs => BootstrapArm::Mvs,
    }
}

pub open spec fn score_fn_of(score_function: EScoreFunction) -> Option<u32> {
    match score_function {
        EScoreFunction::Cosine => Some(SCORE_FN_COSINE),
        EScoreFunction::L2 => Some(SCORE_FN_L2),
        EScoreFunction::SolarL2 => Some(SCORE_FN_SOLAR_L2),
        EScoreFunction::LOOL2 => Some(SCORE_FN_LOO_L2),
        EScoreFunction::SatL2 => Some(SCORE_FN_SAT_L2),
        EScoreFunction::NewtonL2 => None,
        EScoreFunction::NewtonCosine => None,
    }
}

/// The kernel code of a score function; none for the Newton scores.
pub fn map_score_fn(score_function: EScoreFunction) -> (r: Option<u32>)
    ensures
        r == score_fn_of(score_function),
{
    match score_function {
        EScoreFunction::Cosine => Some(SCORE_FN_COSINE),
        EScoreFunction::L2 => Some(SCORE_FN_L2),
        EScoreFunction::SolarL2 => Some(SCORE_FN_SOLAR_L2),
        EScoreFunction::LOOL2 => Some(SCORE_FN_LOO_L2),
        EScoreFunction::SatL2 => Some(SCORE_FN_SAT_L2),
        EScoreFunction::NewtonL2 => None,
        EScoreFunction::NewtonCosine => None,
    }
}

/// The least histogram line of the family that holds `n_bins` bins.
pub open spec fn line_bins(n_bins: int) -> Option<usize> {
    if n_bins <= 0 {
        None
    } else if n_bins <= 32 {
        Some(32)
    } else if n_bins <= 64 {
        Some(64)
    } else if n_bins <= 128 {
        Some(128)
    } else if n_bins <= 256 {
        Some(256)
    } else {
        None
    }
}

/// The least histogram line of the family that holds `n_bins` bins.
pub fn pad_hist_line_bins(n_bins: usize) -> (r: Option<usize>)
    ensures
        r == line_bins(n_bins as int),
{
    if n_bins == 0 {
        None
    } else if n_bins <= 32 {
        Some(32)
    } else if n_bins <= 64 {
        Some(64)
    } else if n_bins <= 128 {
        Some(128)
    } else if n_bins <= 256 {
        Some(256)
    } else {
        None
    }
}

/// A padded line holds the bins, is a line of the family, and pads to itself.
pub proof fn law_padded_line(n_bins: int)
    requires
        line_bins(n_bins) is Some,
    ensures
        n_bins <= line_bins(n_bins)->0,
        line_bins(n_bins)->0 == 32 || line_bins(n_bins)->0 == 64 || line_bins(n_bins)->0 == 128 || line_bins(n_bins)->0 == 256,
        line_bins(line_bins(n_bins)->0 as int) == line_bins(n_bins),
{
}

pub open spec fn der_kernel_of<F>(loss: Loss<F>) -> Option<DerBinaryKernel> {
    match loss {
        Loss::Rmse => Some(DerBinaryKernel::RmseGradient),
        Loss::Logloss => Some(DerBinaryKernel::LoglossGradient),
        Loss::CrossEntropy => Some(DerBinaryKernel::LoglossGradient),
        _ => None,
    }
}

/// The derivative kernel of a loss, if the device has one.
pub fn map_der_kernel<F: Real>(loss: &Loss<F>) -> (r: Option<DerBinaryKernel>)
    ensures
        r == der_kernel_of(*loss),
{
    match loss {
        Loss::Rmse => Some(DerBinaryKernel::RmseGradient),
        Loss::Logloss => Some(DerBinaryKernel::LoglossGradient),
        Loss::CrossEntropy => Some(DerBinaryKernel::LoglossGradient),
        _ => None,
    }
}

pub open spec fn leaf_method_of<F>(config: DeviceTrainConfig<F>, loss: Loss<F>) -> Option<DeviceLeafMethod<F>> {
    if !config.exact_leaf {
        Some(DeviceLeafMethod::Newton)
    } else {
        match loss {
            Loss::Mae => Some(
                DeviceLeafMethod::Exact { alpha: config.quantile_alpha, delta: config.quantile_delta, mape: false },
            ),
            Loss::Quantile { alpha, delta } => Some(DeviceLeafMethod::Exact { alpha, delta, mape: false }),
            Loss::Mape => Some(
                DeviceLeafMethod::Exact { alpha: config.quantile_alpha, delta: config.quantile_delta, mape: true },
            ),
            _ => None,
        }
    }
}

/// How leaf values are estimated: by order statistics where the run asks for exact leaves
/// of a quantile loss, by Newton steps where it does not ask. Exact leaves of another loss
/// have no method.
pub fn map_leaf_method<F: Real>(config: &DeviceTrainConfig<F>, loss: &Loss<F>) -> (r: Option<DeviceLeafMethod<F>>)
    ensures
        r == leaf_method_of(*config, *loss),
{
    if !config.exact_leaf {
        return Some(DeviceLeafMethod::Newton);
    }
    match loss {
        Loss::Mae => Some(
            DeviceLeafMethod::Exact { alpha: config.quantile_alpha, delta: config.quantile_delta, mape: false },
        ),
        Loss::Quantile { alpha, delta } => Some(DeviceLeafMethod::Exact { alpha: *alpha, delta: *delta, mape: false }),
        Loss::Mape => Some(
            DeviceLeafMethod::Exact { alpha: config.quantile_alpha, delta: config.quantile_delta, mape: true },
        ),
        _ => None,
    }
}

pub open spec fn scores_pairs<F>(loss: Loss<F>) -> bool {
    loss is PairLogitPairwise || loss is YetiRankPairwise
}

/// Whether the leaf values of a loss solve a pairwise system.
pub fn is_pairwise_scoring<F: Real>(loss: &Loss<F>) -> (r: bool)
    ensures
        r == scores_pairs(*loss),
{
    matches!(loss, Loss::PairLogitPairwise | Loss::YetiRankPairwise { .. })
}

pub open spec fn ranks<F>(loss: Loss<F>) -> bool {
    loss is QueryRmse || loss is QuerySoftMax || loss is YetiRank || loss is YetiRankPairwise
}

/// Whether a loss ranks within queries without drawing.
pub fn is_deterministic_ranking_loss<F: Real>(loss: &Loss<F>) -> (r: bool)
    ensures
        r == (loss is QueryRmse || loss is QuerySoftMax),
{
    matches!(loss, Loss::QueryRmse | Loss::QuerySoftMax { .. })
}

/// Whether a loss ranks within queries by drawn permutations.
pub fn is_stochastic_ranking_loss<F: Real>(loss: &Loss<F>) -> (r: bool)
    ensures
        r == (loss is YetiRank || loss is YetiRankPairwise),
{
    matches!(loss, Loss::YetiRank { .. } | Loss::YetiRankPairwise { .. })
}

/// Whether a loss ranks within queries.
pub fn is_ranking_loss<F: Real>(loss: &Loss<F>) -> (r: bool)
    ensures
        r == ranks(*loss),
{
    is_deterministic_ranking_loss(loss) || is_stochastic_ranking_loss(loss)
}

/// The target statistics that the device computes.
pub open spec fn ctr_type_implemented(ctr_type: i8) -> bool {
    ctr_type == 0 || ctr_type == 1 || ctr_type == 2 || ctr_type == 4
}

/// A target-statistic column that binarizes to the run's bins.
pub open spec fn ctr_column_ok<F>(col: DeviceCtrColumn<F>, n_bins: int) -> bool {
    &&& col.member_bins@.len() > 0
    &&& col.borders@.len() + 1 == n_bins
    &&& ctr_type_implemented(col.ctr_type)
}

/// One half of the target statistics fits the run.
pub open spec fn ctr_half_ok<F>(
    permutation: Seq<u32>,
    target_class: Seq<u32>,
    columns: Seq<DeviceCtrColumn<F>>,
    n: int,
    n_bins: int,
) -> bool {
    &&& permutation.len() == n
    &&& target_class.len() == n
    &&& columns.len() > 0
    &&& forall|c: int| 0 <= c < columns.len() ==> ctr_column_ok(#[trigger] columns[c], n_bins)
}

/// The device computes the run's target statistics.
pub open spec fn ctr_is_covered<F>(config: DeviceTrainConfig<F>, n: int, n_bins: int) -> bool {
    &&& config.backend != Backend::Wgpu
    &&& match config.ctr {
        None => false,
        Some(ctr) => {
            &&& ctr_half_ok(ctr.permutation@, ctr.target_class@, ctr.columns@, n, n_bins)
            &&& match ctr.averaging {
                None => true,
                Some(averaging) => ctr_half_ok(averaging.permutation@, averaging.target_class@, averaging.columns@, n, n_bins),
            }
        },
    }
}

fn ctr_columns_ok<F: Real>(columns: &Vec<DeviceCtrColumn<F>>, n_bins: usize) -> (r: bool)
    ensures
        r == forall|c: int| 0 <= c < columns@.len() ==> ctr_column_ok(#[trigger] columns@[c], n_bins as int),
{
    let m: usize = columns.len();
    let mut c: usize = 0;
    while c < m
        invariant
            c <= m,
            m == columns@.len(),
            forall|k: int| 0 <= k < c ==> ctr_column_ok(#[trigger] columns@[k], n_bins as int),
        decreases m - c,
    {
        let col: &DeviceCtrColumn<F> = &columns[c];
        let implemented: bool = col.ctr_type == 0 || col.ctr_type == 1 || col.ctr_type == 2 || col.ctr_type == 4;
        if col.member_bins.len() == 0 || n_bins == 0 || col.borders.len() != n_bins - 1 || !implemented {
            assert(!ctr_column_ok(columns@[c as int], n_bins as int));
            return false;
        }
        c = c + 1;
    }
    true
}

/// Whether the device computes the run's target statistics: the columns, and those of the
/// averaging half where there is one, are of an implemented type and binarize to the run's
/// bins.
pub fn ctr_covered<F: Real>(config: &DeviceTrainConfig<F>, n: usize, n_bins: usize) -> (r: bool)
    ensures
        r == ctr_is_covered(*config, n as int, n_bins as int),
{
    if config.backend == Backend::Wgpu {
        return false;
    }
    match &config.ctr {
        None => false,
        Some(ctr) => {
            if ctr.permutation.len() != n || ctr.target_class.len() != n || ctr.columns.len() == 0 {
                return false;
            }
            if !ctr_columns_ok(&ctr.columns, n_bins) {
                return false;
            }
            match &ctr.averaging {
                None => true,
                Some(averaging) => {
                    averaging.permutation.len() == n && averaging.target_class.len() == n && averaging.columns.len() > 0
                        && ctr_columns_ok(&averaging.columns, n_bins)
                },
            }
        },
    }
}

/// A run that a special driver takes: symmetric trees without any other family, plain
/// boosting on one fold.
pub open spec fn special_covered<F>(config: DeviceTrainConfig<F>, depth: int, plain: bool, fold_count: int) -> bool {
    depth > 0 && plain && fold_count == 1 && is_plain_config(config)
}

fn special_ok<F: Real>(config: &DeviceTrainConfig<F>, depth: usize, plain: bool, fold_count: usize) -> (r: bool)
    ensures
        r == special_covered(*config, depth as int, plain, fold_count as int),
{
    depth > 0 && plain && fold_count == 1 && config.is_covered_regime()
}

/// The parameters of a pairwise driver.
pub struct PairwiseState<F> {
    pub l2_diag_reg: F,
    pub pairwise_bucket_weight_prior_reg: F,
}

/// The regularisation towards equal bucket weights that a pairwise driver takes: a tenth.
pub open spec fn default_prior_reg<F: Real>() -> F {
    F::one_spec().over_spec(F::count_spec(10))
}

/// The pairwise driver of a run, if it has one.
pub fn map_pairwise_coverage<F: Real>(
    loss: &Loss<F>,
    config: &DeviceTrainConfig<F>,
    depth: usize,
    boosting_type_is_plain: bool,
    fold_count: usize,
    n_bins: usize,
    l2_diag_reg: F,
) -> (r: Option<PairwiseState<F>>)
    ensures
        r == if scores_pairs(*loss) && special_covered(*config, depth as int, boosting_type_is_plain, fold_count as int)
            && (n_bins == 32 || n_bins == 64 || n_bins == 128) {
            Some(PairwiseState { l2_diag_reg, pairwise_bucket_weight_prior_reg: default_prior_reg() })
        } else {
            None
        },
{
    if !is_pairwise_scoring(loss) {
        return None;
    }
    if !special_ok(config, depth, boosting_type_is_plain, fold_count) {
        return None;
    }
    if n_bins != 32 && n_bins != 64 && n_bins != 128 {
        return None;
    }
    let tenth: F = F::one().over(F::count(10));
    Some(PairwiseState { l2_diag_reg, pairwise_bucket_weight_prior_reg: tenth })
}

/// The objective of a ranking driver.
pub enum RankingObjective<F> {
    QueryRmse,
    QuerySoftMax { beta: F, lambda: F },
    QueryCrossEntropy,
    YetiRank { permutations: u32, decay: F },
    PFoundF { permutations: u32, decay: F },
}

/// Whether the device serves a ranking objective: all but query cross-entropy.
pub fn ranking_objective_covered<F: Real>(objective: &RankingObjective<F>) -> (r: bool)
    ensures
        r == !(objective is QueryCrossEntropy),
{
    match objective {
        RankingObjective::QueryCrossEntropy => false,
        _ => true,
    }
}

pub open spec fn ranking_objective_of<F>(loss: Loss<F>) -> Option<RankingObjective<F>> {
    match loss {
        Loss::QueryRmse => Some(RankingObjective::QueryRmse),
        Loss::QuerySoftMax { lambda, beta } => Some(RankingObjective::QuerySoftMax { beta, lambda }),
        Loss::YetiRank { permutations, decay } => Some(RankingObjective::YetiRank { permutations, decay }),
        Loss::YetiRankPairwise { permutations, decay } => Some(RankingObjective::PFoundF { permutations, decay }),
        _ => None,
    }
}

/// The ranking driver of a run, if it has one.
pub fn map_ranking_coverage<F: Real>(
    loss: &Loss<F>,
    config: &DeviceTrainConfig<F>,
    depth: usize,
    boosting_type_is_plain: bool,
    fold_count: usize,
) -> (r: Option<RankingObjective<F>>)
    ensures
        r == if special_covered(*config, depth as int, boosting_type_is_plain, fold_count as int) {
            ranking_objective_of(*loss)
        } else {
            None
        },
{
    let objective: RankingObjective<F> = match loss {
        Loss::QueryRmse => RankingObjective::QueryRmse,
        Loss::QuerySoftMax { lambda, beta } => RankingObjective::QuerySoftMax { beta: *beta, lambda: *lambda },
        Loss::YetiRank { permutations, decay } => RankingObjective::YetiRank { permutations: *permutations, decay: *decay },
        Loss::YetiRankPairwise { permutations, decay } => RankingObjective::PFoundF {
            permutations: *permutations,
            decay: *decay,
        },
        _ => {
            return None;
        },
    };
    if !ranking_objective_covered(&objective) {
        return None;
    }
    if !special_ok(config, depth, boosting_type_is_plain, fold_count) {
        return None;
    }
    Some(objective)
}

/// The objective of a multi-output driver.
#[derive(Clone, Copy, Debug, PartialEq, Eq, Structural)]
pub enum MulticlassObjective {
    Softmax,
    OneVsAll,
    MultiCrossEntropy,
    MultiRmse,
    RmseWithUncertainty,
}

impl MulticlassObjective {
    /// Whether the outputs of an object share one Hessian block.
    pub fn is_coupled(self) -> (r: bool)
        ensures
            r == (self == MulticlassObjective::Softmax),
    {
        match self {
            MulticlassObjective::Softmax => true,
            _ => false,
        }
    }
}

pub open spec fn multiclass_objective_of<F>(loss: Loss<F>) -> Option<MulticlassObjective> {
    match loss {
        Loss::MultiClass => Some(MulticlassObjective::Softmax),
        Loss::MultiClassOneVsAll => Some(MulticlassObjective::OneVsAll),
        Loss::MultiLogloss => Some(MulticlassObjective::MultiCrossEntropy),
        Loss::MultiCrossEntropy => Some(MulticlassObjective::MultiCrossEntropy),
        Loss::RmseWithUncertainty => Some(MulticlassObjective::RmseWithUncertainty),
        _ => None,
    }
}

/// The multi-output objective of a loss, if it has one.
pub fn map_multiclass_objective<F: Real>(loss: &Loss<F>) -> (r: Option<MulticlassObjective>)
    ensures
        r == multiclass_objective_of(*loss),
{
    match loss {
        Loss::MultiClass => Some(MulticlassObjective::Softmax),
        Loss::MultiClassOneVsAll => Some(MulticlassObjective::OneVsAll),
        Loss::MultiLogloss => Some(MulticlassObjective::MultiCrossEntropy),
        Loss::MultiCrossEntropy => Some(MulticlassObjective::MultiCrossEntropy),
        Loss::RmseWithUncertainty => Some(MulticlassObjective::RmseWithUncertainty),
        _ => None,
    }
}

/// The multi-output driver of a run, if it has one.
pub fn map_multiclass_coverage<F: Real>(
    loss: &Loss<F>,
    config: &DeviceTrainConfig<F>,
    depth: usize,
    boosting_type_is_plain: bool,
    fold_count: usize,
) -> (r: Option<MulticlassObjective>)
    ensures
        r == if special_covered(*config, depth as int, boosting_type_is_plain, fold_count as int) {
            multiclass_objective_of(*loss)
        } else {
            None
        },
{
    if !special_ok(config, depth, boosting_type_is_plain, fold_count) {
        return None;
    }
    map_multiclass_objective(loss)
}

/// The derivative kernel of an ordered driver, if the run has one. Ordered boosting is not
/// plain, so the boosting type is not asked.
pub fn map_ordered_coverage<F: Real>(
    loss: &Loss<F>,
    config: &DeviceTrainConfig<F>,
    depth: usize,
    fold_count: usize,
) -> (r: Option<DerBinaryKernel>)
    ensures
        r == if special_covered(*config, depth as int, true, fold_count as int) {
            der_kernel_of(*loss)
        } else {
            None
        },
{
    if !special_ok(config, depth, true, fold_count) {
        return None;
    }
    map_der_kernel(loss)
}

/// Whether Langevin noise can be added to the derivatives of a loss: where it has a
/// pointwise derivative kernel and scores no pairs.
pub fn langevin_covered_loss<F: Real>(loss: &Loss<F>) -> (r: bool)
    ensures
        r == (loss is Rmse || loss is Logloss || loss is CrossEntropy),
{
    map_der_kernel(loss).is_some() && !is_pairwise_scoring(loss)
}

/// The derivative kernel of a Langevin driver, if the run has one.
pub fn map_langevin_coverage<F: Real>(
    loss: &Loss<F>,
    config: &DeviceTrainConfig<F>,
    depth: usize,
    boosting_type_is_plain: bool,
    fold_count: usize,
) -> (r: Option<DerBinaryKernel>)
    ensures
        r == if special_covered(*config, depth as int, boosting_type_is_plain, fold_count as int) {
            der_kernel_of(*loss)
        } else {
            None
        },
{
    if !langevin_covered_loss(loss) {
        return None;
    }
    if !special_ok(config, depth, boosting_type_is_plain, fold_count) {
        return None;
    }
    map_der_kernel(loss)
}

/// The families that a symmetric tree is grown with: none, exact leaves alone, a device
/// sampling alone, target statistics alone, or minimal-variance sampling with its
/// regularisation alone.
pub open spec fn symmetric_family_covered<F>(config: DeviceTrainConfig<F>, loss: Loss<F>, n: int, n_bins: int) -> bool {
    let arm = bootstrap_arm_of(config.bootstrap_type);
    ||| is_plain_config(config)
    ||| leaf_method_of(config, loss) matches Some(DeviceLeafMethod::Exact { .. }) && config.bootstrap_type == DeviceBootstrapType::No
        && config.mvs_lambda is None && config.ctr is None && config.max_leaves is None
    ||| arm is Device && !config.exact_leaf && config.mvs_lambda is None && config.ctr is None && config.max_leaves is None
    ||| ctr_arm_covered(config, n, n_bins)
    ||| arm is Mvs && config.mvs_lambda is Some && !config.exact_leaf && config.ctr is None && config.max_leaves is None
}

/// The run has covered target statistics and no other family.
pub open spec fn ctr_arm_covered<F>(config: DeviceTrainConfig<F>, n: int, n_bins: int) -> bool {
    &&& ctr_is_covered(config, n, n_bins)
    &&& bootstrap_arm_of(config.bootstrap_type) is NoDraw
    &&& !config.exact_leaf
    &&& config.mvs_lambda is None
    &&& config.max_leaves is None
}

/// The run's families fit its grow policy. Region trees have no device grower.
pub open spec fn family_covered<F>(config: DeviceTrainConfig<F>, loss: Loss<F>, n: int, n_bins: int) -> bool {
    match config.grow_policy {
        DeviceGrowPolicy::Region => false,
        DeviceGrowPolicy::SymmetricTree => symmetric_family_covered(config, loss, n, n_bins),
        _ => config.bootstrap_type == DeviceBootstrapType::No && config.mvs_lambda is None && !config.exact_leaf && config.ctr is None,
    }
}

/// Whether the run has covered target statistics and no other family.
pub fn ctr_arm_ok<F: Real>(config: &DeviceTrainConfig<F>, n: usize, n_bins: usize) -> (r: bool)
    ensures
        r == ctr_arm_covered(*config, n as int, n_bins as int),
{
    ctr_covered(config, n, n_bins) && map_bootstrap_kernel(config.bootstrap_type) == BootstrapArm::NoDraw
        && !config.exact_leaf && config.mvs_lambda.is_none() && config.max_leaves.is_none()
}

/// Whether the run's families fit its grow policy.
pub fn family_ok<F: Real>(config: &DeviceTrainConfig<F>, loss: &Loss<F>, n: usize, n_bins: usize) -> (r: bool)
    ensures
        r == family_covered(*config, *loss, n as int, n_bins as int),
{
    match config.grow_policy {
        DeviceGrowPolicy::Region => false,
        DeviceGrowPolicy::SymmetricTree => {
            let arm: BootstrapArm = map_bootstrap_kernel(config.bootstrap_type);
            if arm == BootstrapArm::Mvs && config.mvs_lambda.is_none() {
                return false;
            }
            let exact: bool = match map_leaf_method(config, loss) {
                Some(DeviceLeafMethod::Exact { .. }) => true,
                _ => false,
            };
            let exact_covered: bool = exact && config.bootstrap_type == DeviceBootstrapType::No && config.mvs_lambda.is_none()
                && config.ctr.is_none() && config.max_leaves.is_none();
            let device_arm: bool = match arm {
                BootstrapArm::Device(_) => true,
                _ => false,
            };
            let bootstrap_covered: bool = device_arm && !config.exact_leaf && config.mvs_lambda.is_none()
                && config.ctr.is_none() && config.max_leaves.is_none();
            let mvs_covered: bool = arm == BootstrapArm::Mvs && config.mvs_lambda.is_some() && !config.exact_leaf
                && config.ctr.is_none() && config.max_leaves.is_none();
            config.is_covered_regime() || exact_covered || bootstrap_covered || ctr_arm_ok(config, n, n_bins) || mvs_covered
        },
        _ => {
            config.bootstrap_type == DeviceBootstrapType::No && config.mvs_lambda.is_none() && !config.exact_leaf
                && config.ctr.is_none()
        },
    }
}

} // verus!
