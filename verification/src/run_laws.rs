//! Which runs the drivers take, what they are told, and how the samples of a session follow
//! each other.

use vstd::prelude::*;
use crate::channel::Real;
use crate::config::{Backend, DeviceBootstrapType, DeviceGrowPolicy, DeviceTrainConfig, EScoreFunction, Loss};
use crate::coverage::{
    DerBinaryKernel, DeviceBootstrapKind, DeviceLeafMethod, MulticlassObjective, NonsymPolicy, PairwiseState,
    RankingObjective, ctr_column_ok, ctr_covered, family_ok, map_langevin_coverage, map_leaf_method,
    map_multiclass_coverage, map_ordered_coverage, map_pairwise_coverage, map_ranking_coverage, map_score_fn,
    pad_hist_line_bins,
};
use crate::exact::{exact, lemma_ratio};
use crate::rng::{draw_of, law_draw_after_advance, seeded_state, state_after};
use crate::session::{DeviceGrownTree, GpuTrainSession, Sample, is_sample_of, streams_advanced};

verus! {

/// Every score function but the Newton ones has a code, and no two share one.
pub proof fn law_score_codes(a: EScoreFunction, b: EScoreFunction, r: Option<u32>, q: Option<u32>)
    requires
        call_ensures(map_score_fn, (a,), r),
        call_ensures(map_score_fn, (b,), q),
    ensures
        r is None <==> a == EScoreFunction::NewtonL2 || a == EScoreFunction::NewtonCosine,
        a != b && r is Some ==> r != q,
        r is Some ==> r->0 <= 4,
        a == EScoreFunction::L2 ==> r == Some(0u32),
        a == EScoreFunction::Cosine ==> r == Some(1u32),
        a == EScoreFunction::SolarL2 ==> r == Some(2u32),
        a == EScoreFunction::LOOL2 ==> r == Some(3u32),
        a == EScoreFunction::SatL2 ==> r == Some(4u32),
{
}

/// A line is padded to the least width of the family that holds its bins; bins that no width
/// holds, or none at all, have no line.
pub proof fn law_least_line(n_bins: usize, r: Option<usize>, width: usize)
    requires
        call_ensures(pad_hist_line_bins, (n_bins,), r),
        width == 32 || width == 64 || width == 128 || width == 256,
    ensures
        r is Some ==> n_bins <= r->0 && (r->0 == 32 || r->0 == 64 || r->0 == 128 || r->0 == 256),
        0 < n_bins <= width ==> r is Some && r->0 <= width,
        n_bins == 0 || n_bins > 256 ==> r is None,
{
}

/// A run that asks for exact leaves has them for the absolute, the quantile and the
/// percentage error only, with the quantile of its loss or the run's own; only the
/// percentage error weighs by the target. Any other run takes Newton steps.
pub proof fn law_leaf_methods<F: Real>(config: &DeviceTrainConfig<F>, loss: &Loss<F>, r: Option<DeviceLeafMethod<F>>)
    requires
        call_ensures(map_leaf_method::<F>, (config, loss), r),
    ensures
        !config.exact_leaf ==> r == Some(DeviceLeafMethod::<F>::Newton),
        config.exact_leaf && !(loss is Mae || loss is Quantile || loss is Mape) ==> r is None,
        config.exact_leaf && (loss is Mae || loss is Quantile || loss is Mape) ==> {
            &&& r is Some
            &&& r->0 is Exact
            &&& r->0->mape == (loss is Mape)
            &&& loss is Quantile ==> r->0->alpha == loss->Quantile_alpha && r->0->delta == loss->Quantile_delta
            &&& !(loss is Quantile) ==> r->0->alpha == config.quantile_alpha && r->0->delta == config.quantile_delta
        },
{
}

/// The options that every special driver asks for: depth, one fold, symmetric trees, and no
/// family of its own.
pub open spec fn bare_run<F>(config: DeviceTrainConfig<F>, depth: usize, fold_count: usize) -> bool {
    &&& depth > 0
    &&& fold_count == 1
    &&& config.grow_policy == DeviceGrowPolicy::SymmetricTree
    &&& config.bootstrap_type == DeviceBootstrapType::No
    &&& config.mvs_lambda is None
    &&& !config.exact_leaf
    &&& config.ctr is None
    &&& config.max_leaves is None
}

/// A ranking driver takes the bare plain runs of the ranking losses and no others, and hands
/// the parameters of the loss on.
pub proof fn law_ranking_runs<F: Real>(
    loss: &Loss<F>,
    config: &DeviceTrainConfig<F>,
    depth: usize,
    plain: bool,
    fold_count: usize,
    r: Option<RankingObjective<F>>,
)
    requires
        call_ensures(map_ranking_coverage::<F>, (loss, config, depth, plain, fold_count), r),
    ensures
        r is Some <==> plain && bare_run(*config, depth, fold_count) && (loss is QueryRmse || loss is QuerySoftMax || loss is YetiRank
            || loss is YetiRankPairwise),
        r is Some && loss is QueryRmse ==> r->0 is QueryRmse,
        r is Some && loss is QuerySoftMax ==> r->0 is QuerySoftMax && r->0->beta == loss->beta && r->0->lambda == loss->lambda,
        r is Some && loss is YetiRank ==> r->0 is YetiRank && r->0->YetiRank_permutations == loss->YetiRank_permutations
            && r->0->YetiRank_decay == loss->YetiRank_decay,
        r is Some && loss is YetiRankPairwise ==> r->0 is PFoundF && r->0->PFoundF_permutations == loss->YetiRankPairwise_permutations
            && r->0->PFoundF_decay == loss->YetiRankPairwise_decay,
{
}

/// A multi-output driver takes the bare plain runs of the multi-output losses and no others.
pub proof fn law_multi_output_runs<F: Real>(
    loss: &Loss<F>,
    config: &DeviceTrainConfig<F>,
    depth: usize,
    plain: bool,
    fold_count: usize,
    r: Option<MulticlassObjective>,
)
    requires
        call_ensures(map_multiclass_coverage::<F>, (loss, config, depth, plain, fold_count), r),
    ensures
        r is Some ==> plain && bare_run(*config, depth, fold_count),
        plain && bare_run(*config, depth, fold_count) ==> {
            &&& r == Some(MulticlassObjective::Softmax) <==> loss is MultiClass
            &&& r == Some(MulticlassObjective::OneVsAll) <==> loss is MultiClassOneVsAll
            &&& r == Some(MulticlassObjective::MultiCrossEntropy) <==> loss is MultiLogloss || loss is MultiCrossEntropy
            &&& r == Some(MulticlassObjective::RmseWithUncertainty) <==> loss is RmseWithUncertainty
            &&& r != Some(MulticlassObjective::MultiRmse)
        },
{
}

/// A pairwise driver takes the bare plain runs of the pairwise losses over lines of three
/// widths and no others. It keeps the regularisation of the diagonal, and its prior is a
/// tenth.
pub proof fn law_pairwise_runs<F: Real>(
    val: spec_fn(F) -> real,
    room: spec_fn(real) -> bool,
    loss: &Loss<F>,
    config: &DeviceTrainConfig<F>,
    depth: usize,
    plain: bool,
    fold_count: usize,
    n_bins: usize,
    l2: F,
    r: Option<PairwiseState<F>>,
)
    requires
        exact(val, room),
        call_ensures(map_pairwise_coverage::<F>, (loss, config, depth, plain, fold_count, n_bins, l2), r),
        val(F::count_spec(10)) == 10 as real,
        room(1 as real / 10 as real),
    ensures
        r is Some <==> plain && bare_run(*config, depth, fold_count) && (loss is PairLogitPairwise || loss is YetiRankPairwise) && (
        n_bins == 32 || n_bins == 64 || n_bins == 128),
        r is Some ==> r->0.l2_diag_reg == l2 && 10 as real * val(r->0.pairwise_bucket_weight_prior_reg) == 1 as real,
{
    lemma_ratio(1 as real, 10 as real);
}

/// Ordered and Langevin drivers take the bare runs of the losses with a derivative kernel,
/// and take the same kernel: the residual for the squared error, the logistic one for the
/// two logistic losses. Only a Langevin driver asks for plain boosting.
pub proof fn law_derivative_runs<F: Real>(
    loss: &Loss<F>,
    config: &DeviceTrainConfig<F>,
    depth: usize,
    plain: bool,
    fold_count: usize,
    ordered: Option<DerBinaryKernel>,
    langevin: Option<DerBinaryKernel>,
)
    requires
        call_ensures(map_ordered_coverage::<F>, (loss, config, depth, fold_count), ordered),
        call_ensures(map_langevin_coverage::<F>, (loss, config, depth, plain, fold_count), langevin),
    ensures
        ordered is Some <==> bare_run(*config, depth, fold_count) && (loss is Rmse || loss is Logloss || loss is CrossEntropy),
        ordered is Some ==> (ordered->0 == DerBinaryKernel::RmseGradient <==> loss is Rmse),
        plain ==> langevin == ordered,
        !plain ==> langevin is None,
{
}

/// The target statistics of a run are computed on a backend with doubles, where the ordering
/// and the classes have an entry per object, and every column has members, one border less
/// than bins, and a type that the device implements.
pub proof fn law_covered_statistics<F: Real>(config: &DeviceTrainConfig<F>, n: usize, n_bins: usize, r: bool, c: int)
    requires
        call_ensures(ctr_covered::<F>, (config, n, n_bins), r),
    ensures
        r ==> config.backend != Backend::Wgpu && config.ctr is Some,
        r ==> config.ctr->0.permutation@.len() == n && config.ctr->0.target_class@.len() == n && config.ctr->0.columns@.len() > 0,
        r && 0 <= c < config.ctr->0.columns@.len() ==> ({
            let col = config.ctr->0.columns@[c];
            &&& col.member_bins@.len() > 0
            &&& col.borders@.len() == n_bins - 1
            &&& col.ctr_type == 0 || col.ctr_type == 1 || col.ctr_type == 2 || col.ctr_type == 4
        }),
        r && config.ctr->0.averaging is Some ==> ({
            let averaging = config.ctr->0.averaging->0;
            &&& averaging.permutation@.len() == n
            &&& averaging.target_class@.len() == n
            &&& averaging.columns@.len() > 0
        }),
        r && config.ctr->0.averaging is Some && 0 <= c < config.ctr->0.averaging->0.columns@.len() ==> ({
            let col = config.ctr->0.averaging->0.columns@[c];
            &&& col.member_bins@.len() > 0
            &&& col.borders@.len() == n_bins - 1
            &&& col.ctr_type == 0 || col.ctr_type == 1 || col.ctr_type == 2 || col.ctr_type == 4
        }),
{
    if r && 0 <= c < config.ctr->0.columns@.len() {
        assert(ctr_column_ok(config.ctr->0.columns@[c], n_bins as int));
    }
    if r && config.ctr->0.averaging is Some && 0 <= c < config.ctr->0.averaging->0.columns@.len() {
        assert(ctr_column_ok(config.ctr->0.averaging->0.columns@[c], n_bins as int));
    }
}

/// What an opened session is told follows from the run's own options: the score code, the
/// derivative, the policy with its depth and its leaf cap, the parameters of exact leaves,
/// and the sampling with the stream that the run's seed starts.
#[verifier::rlimit(50)]
pub proof fn law_opened_session<F: Real>(
    s: GpuTrainSession<F>,
    loss: &Loss<F>,
    depth: usize,
    plain: bool,
    fold_count: usize,
    score_function: EScoreFunction,
    bins: &[u32],
    weight: &[F],
    n: usize,
    n_features: usize,
    n_bins: usize,
    learning_rate: F,
    scaled_l2: F,
    config: &DeviceTrainConfig<F>,
    ctr_columns: &[Vec<u32>],
)
    requires
        call_ensures(
            GpuTrainSession::<F>::begin,
            (
                loss,
                depth,
                plain,
                fold_count,
                score_function,
                bins,
                weight,
                n,
                n_features,
                n_bins,
                learning_rate,
                scaled_l2,
                config,
                ctr_columns,
            ),
            Ok(Some(s)),
        ),
    ensures
        s.objects == n && s.depth == depth && s.n_bins == n_bins && s.base_features == n_features && s.weight@ == weight@,
        s.learning_rate == learning_rate && s.scaled_l2 == scaled_l2,
        !s.target_resident && !s.der1_resident,
        plain && fold_count == 1 && depth > 0 && n > 0 && n_features > 0 && n_bins > 0,
        bins@.len() == n_features * n && weight@.len() == n,
        config.ctr is None ==> s.cindex@ == bins@ && s.n_features == n_features,
        score_function == EScoreFunction::L2 <==> s.score_fn == 0,
        score_function == EScoreFunction::Cosine <==> s.score_fn == 1,
        score_function == EScoreFunction::SolarL2 <==> s.score_fn == 2,
        score_function == EScoreFunction::LOOL2 <==> s.score_fn == 3,
        score_function == EScoreFunction::SatL2 <==> s.score_fn == 4,
        loss is Rmse && !config.exact_leaf ==> s.der_kernel == DerBinaryKernel::RmseGradient,
        (loss is Logloss || loss is CrossEntropy) && !config.exact_leaf ==> s.der_kernel == DerBinaryKernel::LoglossGradient,
        config.exact_leaf && (loss is Mae || loss is Quantile || loss is Mape) ==> s.der_kernel == DerBinaryKernel::RmseGradient,
        s.nonsym is Some <==> config.grow_policy == DeviceGrowPolicy::Depthwise || config.grow_policy == DeviceGrowPolicy::Lossguide,
        s.nonsym is Some ==> {
            &&& s.nonsym->0.policy == NonsymPolicy::Depthwise <==> config.grow_policy == DeviceGrowPolicy::Depthwise
            &&& s.nonsym->0.max_depth == depth
            &&& s.nonsym->0.min_data_in_leaf == config.min_data_in_leaf
            &&& config.max_leaves is Some ==> s.nonsym->0.max_leaves == config.max_leaves->0
            &&& config.max_leaves is None ==> s.nonsym->0.max_leaves == usize::MAX
            &&& s.n_bins_line == n_bins
            &&& s.exact_leaf is None && s.bootstrap is None && s.mvs is None
        },
        s.exact_leaf is Some ==> {
            &&& config.exact_leaf
            &&& s.exact_leaf->0.mape == (loss is Mape)
            &&& loss is Quantile ==> s.exact_leaf->0.alpha == loss->Quantile_alpha && s.exact_leaf->0.delta == loss->Quantile_delta
            &&& !(loss is Quantile) ==> s.exact_leaf->0.alpha == config.quantile_alpha && s.exact_leaf->0.delta == config.quantile_delta
        },
        s.bootstrap is Some ==> {
            &&& s.bootstrap->0.rng@ == seeded_state(config.rng_seed)
            &&& s.bootstrap->0.sample_rate == config.sample_rate
            &&& s.bootstrap->0.bagging_temperature == F::one_spec()
            &&& s.bootstrap->0.kind == DeviceBootstrapKind::Bernoulli <==> config.bootstrap_type == DeviceBootstrapType::Bernoulli
            &&& s.bootstrap->0.kind == DeviceBootstrapKind::Bayesian <==> config.bootstrap_type == DeviceBootstrapType::Bayesian
            &&& s.bootstrap->0.kind == DeviceBootstrapKind::Poisson <==> config.bootstrap_type == DeviceBootstrapType::Poisson
        },
        s.mvs is Some ==> {
            &&& config.bootstrap_type == DeviceBootstrapType::Mvs
            &&& s.mvs->0.rng@ == seeded_state(config.rng_seed)
            &&& s.mvs->0.sample_rate == config.sample_rate
            &&& config.mvs_lambda == Some(s.mvs->0.lambda)
        },
        s.one_hot_flags@ == config.one_hot_flags@ && s.real_folds@ == config.real_folds@,
        config.one_hot_flags@.len() == 0 ==> s.n_float == n_features,
        config.one_hot_flags@.len() > 0 ==> s.n_float == config.n_float,
{
}

/// The sample of the next tree goes on where the last one stopped. A Bayesian sampling takes
/// the next draw of its stream as its seed; the other device samplings start one draw per
/// object further on and take no seed; the minimal-variance sampling takes the draw after the
/// three of the tree before.
pub proof fn law_next_sample<F: Real>(a: GpuTrainSession<F>, b: GpuTrainSession<F>, x: Sample<F>, y: Sample<F>)
    requires
        is_sample_of(a, x),
        streams_advanced(a, b),
        is_sample_of(b, y),
    ensures
        a.bootstrap is Some ==> {
            let stream = a.bootstrap->0.rng@;
            &&& x is Bootstrap && y is Bootstrap
            &&& x->base@ == stream
            &&& a.bootstrap->0.kind == DeviceBootstrapKind::Bayesian ==> {
                &&& x->Bootstrap_rand_seed == draw_of(stream, 1)
                &&& y->Bootstrap_rand_seed == draw_of(stream, 2)
                &&& y->base@ == state_after(stream, 1)
            }
            &&& a.bootstrap->0.kind != DeviceBootstrapKind::Bayesian ==> {
                &&& x->Bootstrap_rand_seed == 0 && y->Bootstrap_rand_seed == 0
                &&& y->base@ == state_after(stream, a.objects as nat)
            }
        },
        a.bootstrap is None && a.mvs is Some && F::one_spec().above_spec(a.mvs->0.sample_rate) ==> {
            &&& x is Mvs && y is Mvs
            &&& x->Mvs_rand_seed == draw_of(a.mvs->0.rng@, 1)
            &&& y->Mvs_rand_seed == draw_of(a.mvs->0.rng@, 4)
            &&& x->lambda == a.mvs->0.lambda && y->lambda == a.mvs->0.lambda
        },
        a.bootstrap is None && (a.mvs is None || !F::one_spec().above_spec(a.mvs->0.sample_rate)) ==> x is Full && y is Full,
{
    if a.bootstrap is Some {
        law_draw_after_advance(a.bootstrap->0.rng@, 1);
    } else if a.mvs is Some {
        law_draw_after_advance(a.mvs->0.rng@, 3);
    }
}

/// Which families of options a run may combine. Region trees are never grown. Depth-wise and
/// loss-guided trees are grown without sampling, exact leaves and target statistics. A
/// symmetric tree takes one family at most: exact leaves of a loss that has them, a device
/// sampling, a minimal-variance sampling with its regularisation, or target statistics; and
/// no cap on the leaves.
pub proof fn law_families<F: Real>(config: &DeviceTrainConfig<F>, loss: &Loss<F>, n: usize, n_bins: usize, r: bool)
    requires
        call_ensures(family_ok::<F>, (config, loss, n, n_bins), r),
    ensures
        config.grow_policy == DeviceGrowPolicy::Region ==> !r,
        config.grow_policy == DeviceGrowPolicy::Depthwise || config.grow_policy == DeviceGrowPolicy::Lossguide ==> r == (
        config.bootstrap_type == DeviceBootstrapType::No && config.mvs_lambda is None && !config.exact_leaf && config.ctr is None),
        config.grow_policy == DeviceGrowPolicy::SymmetricTree && config.ctr is None ==> r == (config.max_leaves is None && match config.bootstrap_type {
            DeviceBootstrapType::No => config.mvs_lambda is None && (config.exact_leaf ==> loss is Mae || loss is Quantile || loss is Mape),
            DeviceBootstrapType::Mvs => config.mvs_lambda is Some && !config.exact_leaf,
            _ => config.mvs_lambda is None && !config.exact_leaf,
        }),
        config.grow_policy == DeviceGrowPolicy::SymmetricTree && config.ctr is Some && r ==> {
            &&& config.bootstrap_type == DeviceBootstrapType::No
            &&& config.mvs_lambda is None
            &&& !config.exact_leaf
            &&& config.max_leaves is None
            &&& config.backend != Backend::Wgpu
        },
{
}

/// A finished tree keeps its splits and its leaves, and takes the exact values where the
/// session estimates exact leaves, the Newton values elsewhere.
pub proof fn law_finished_tree<F: Real>(
    s: &GpuTrainSession<F>,
    splits: Vec<(u32, u32)>,
    leaf_of: Vec<u32>,
    newton: Vec<F>,
    exact_values: Vec<F>,
    r: DeviceGrownTree<F>,
)
    requires
        call_ensures(GpuTrainSession::<F>::finish_tree, (s, splits, leaf_of, newton, exact_values), r),
    ensures
        r.splits@ == splits@ && r.leaf_of@ == leaf_of@,
        s.exact_leaf is Some ==> r.leaf_values@ == exact_values@,
        s.exact_leaf is None ==> r.leaf_values@ == newton@,
        r.approx_dim == 1,
{
}

} // verus!
