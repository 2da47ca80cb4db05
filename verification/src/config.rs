//! The options of a training run, as far as the backend reads them.

use vstd::prelude::*;
use crate::channel::Real;

verus! {

/// What runs the kernels.
#[derive(Clone, Copy, Debug, PartialEq, Eq, Structural)]
pub enum Backend {
    Cpu,
    Cuda,
    Rocm,
    Wgpu,
}

/// Whether the backend is a real device with double-precision atomics.
pub fn device_backend_active(backend: Backend) -> (r: bool)
    ensures
        r == (backend == Backend::Cuda || backend == Backend::Rocm),
{
    match backend {
        Backend::Cuda => true,
        Backend::Rocm => true,
        Backend::Cpu => false,
        Backend::Wgpu => false,
    }
}

/// The loss of a training run.
#[derive(Debug)]
pub enum Loss<F> {
    Rmse,
    Logloss,
    CrossEntropy,
    Mae,
    Quantile { alpha: F, delta: F },
    Mape,
    LogCosh,
    Lq { q: F },
    Huber { delta: F },
    Expectile { alpha: F },
    Poisson,
    Tweedie { variance_power: F },
    Focal { alpha: F, gamma: F },
    QueryRmse,
    QuerySoftMax { lambda: F, beta: F },
    YetiRank { permutations: u32, decay: F },
    YetiRankPairwise { permutations: u32, decay: F },
    PairLogitPairwise,
    MultiClass,
    MultiClassOneVsAll,
    MultiLogloss,
    MultiCrossEntropy,
    RmseWithUncertainty,
}

/// How splits are scored.
#[derive(Clone, Copy, Debug, PartialEq, Eq, Structural)]
pub enum EScoreFunction {
    Cosine,
    L2,
    NewtonL2,
    NewtonCosine,
    SolarL2,
    LOOL2,
    SatL2,
}

/// How trees are grown.
#[derive(Clone, Copy, Debug, PartialEq, Eq, Structural)]
pub enum DeviceGrowPolicy {
    SymmetricTree,
    Depthwise,
    Lossguide,
    Region,
}

/// How objects are sampled per tree.
#[derive(Clone, Copy, Debug, PartialEq, Eq, Structural)]
pub enum DeviceBootstrapType {
    No,
    Bernoulli,
    Bayesian,
    Poisson,
    Mvs,
}

/// One target-statistic column.
pub struct DeviceCtrColumn<F> {
    /// Categorical bins of each member feature.
    pub member_bins: Vec<Vec<u32>>,
    pub prior: F,
    pub borders: Vec<F>,
    pub bucket_count: u32,
    pub weight_group: u32,
    pub ctr_type: i8,
    pub target_border_idx: u32,
    pub projection_members: Vec<u32>,
}

/// The half of the target statistics that leaf values are averaged over.
pub struct DeviceCtrAveraging<F> {
    pub permutation: Vec<u32>,
    pub target_class: Vec<u32>,
    pub columns: Vec<DeviceCtrColumn<F>>,
}

/// The target statistics of a run.
pub struct DeviceCtrConfig<F> {
    pub permutation: Vec<u32>,
    pub target_class: Vec<u32>,
    pub columns: Vec<DeviceCtrColumn<F>>,
    pub averaging: Option<DeviceCtrAveraging<F>>,
}

/// The options of a run beside the loss and the score.
pub struct DeviceTrainConfig<F> {
    pub backend: Backend,
    pub grow_policy: DeviceGrowPolicy,
    pub bootstrap_type: DeviceBootstrapType,
    pub mvs_lambda: Option<F>,
    pub exact_leaf: bool,
    pub ctr: Option<DeviceCtrConfig<F>>,
    pub max_leaves: Option<usize>,
    pub min_data_in_leaf: usize,
    pub sample_rate: F,
    pub rng_seed: u64,
    pub quantile_alpha: F,
    pub quantile_delta: F,
    pub one_hot_flags: Vec<bool>,
    pub real_folds: Vec<u32>,
    pub n_float: usize,
}

/// The options of a run without any family of its own: a symmetric tree, no sampling,
/// Newton leaves, no target statistics, no leaf cap.
pub open spec fn is_plain_config<F>(config: DeviceTrainConfig<F>) -> bool {
    config.grow_policy == DeviceGrowPolicy::SymmetricTree && family_default(config)
}

/// No family beside the grow policy is set.
pub open spec fn family_default<F>(config: DeviceTrainConfig<F>) -> bool {
    &&& config.bootstrap_type == DeviceBootstrapType::No
    &&& config.mvs_lambda is None
    &&& !config.exact_leaf
    &&& config.ctr is None
    &&& config.max_leaves is None
}

impl<F: Real> DeviceTrainConfig<F> {
    /// The plain options, with the parameters that every run carries.
    pub fn plain(backend: Backend, sample_rate: F, quantile_alpha: F, quantile_delta: F) -> (r: Self)
        ensures
            is_plain_config(r),
            r.backend == backend,
            r.sample_rate == sample_rate,
            r.quantile_alpha == quantile_alpha,
            r.quantile_delta == quantile_delta,
            r.min_data_in_leaf == 1,
            r.rng_seed == 0,
            r.one_hot_flags@.len() == 0,
            r.real_folds@.len() == 0,
            r.n_float == 0,
    {
        DeviceTrainConfig {
            backend,
            grow_policy: DeviceGrowPolicy::SymmetricTree,
            bootstrap_type: DeviceBootstrapType::No,
            mvs_lambda: None,
            exact_leaf: false,
            ctr: None,
            max_leaves: None,
            min_data_in_leaf: 1,
            sample_rate,
            rng_seed: 0,
            quantile_alpha,
            quantile_delta,
            one_hot_flags: Vec::new(),
            real_folds: Vec::new(),
            n_float: 0,
        }
    }

    /// Whether no family is set.
    pub fn is_covered_regime(&self) -> (r: bool)
        ensures
            r == is_plain_config(*self),
    {
        self.grow_policy == DeviceGrowPolicy::SymmetricTree && self.has_default_family()
    }

    /// Whether no family beside the grow policy is set.
    pub fn has_default_family(&self) -> (r: bool)
        ensures
            r == family_default(*self),
    {
        self.bootstrap_type == DeviceBootstrapType::No && self.mvs_lambda.is_none() && !self.exact_leaf
            && self.ctr.is_none() && self.max_leaves.is_none()
    }
}

} // verus!
