//! The resident training session: what is opened, and what each tree asks of the device.

use vstd::prelude::*;
use crate::channel::Real;
use crate::cindex::{pack_cindex, packed_rows, table_fault, PackedCindex};
use crate::config::{DeviceGrowPolicy, DeviceTrainConfig, EScoreFunction, Loss};
use crate::coverage::{
    bootstrap_arm_of, ctr_arm_covered, ctr_arm_ok, der_kernel_of, family_covered, family_ok, grow_policy_of, is_pairwise_scoring,
    is_ranking_loss, leaf_method_of, line_bins, map_bootstrap_kernel, map_der_kernel, map_grow_policy, map_leaf_method,
    map_multiclass_objective, map_score_fn, multiclass_objective_of, pad_hist_line_bins, ranks, score_fn_of, scores_pairs,
    BootstrapArm, DerBinaryKernel, DeviceBootstrapKind, DeviceLeafMethod, NonsymPolicy,
};
use crate::error::{CbError, CbResult, Column, Degeneracy, RangeFault};
use crate::guard::{find_at_least, first_at_least};
use crate::loss::{first_der, host_der1};
use crate::rng::{draw_of, seeded_state, state_after, TFastRng64};
use crate::smooth::Smooth;

verus! {

/// What a non-symmetric grower is told.
pub struct NonsymState {
    pub policy: NonsymPolicy,
    pub max_depth: usize,
    pub max_leaves: usize,
    pub min_data_in_leaf: usize,
}

/// The parameters of exact leaves.
pub struct ExactLeafState<F> {
    pub alpha: F,
    pub delta: F,
    pub mape: bool,
}

/// A device sampling and its stream.
pub struct BootstrapState<F> {
    pub kind: DeviceBootstrapKind,
    pub rng: TFastRng64,
    pub sample_rate: F,
    pub bagging_temperature: F,
}

/// A minimal-variance sampling and its stream.
pub struct MvsState<F> {
    pub rng: TFastRng64,
    pub sample_rate: F,
    pub lambda: F,
}

/// A session: the resident columns, the run's constants, and the state that trees advance.
pub struct GpuTrainSession<F> {
    pub cindex: Vec<u32>,
    pub packed: PackedCindex,
    pub weight: Vec<F>,
    pub objects: usize,
    pub n_bins: usize,
    pub n_bins_line: usize,
    pub base_features: usize,
    pub n_features: usize,
    pub cindex_stride: usize,
    pub depth: usize,
    pub scaled_l2: F,
    pub score_fn: u32,
    pub learning_rate: F,
    pub der_kernel: DerBinaryKernel,
    pub one_hot_flags: Vec<bool>,
    pub real_folds: Vec<u32>,
    pub n_float: usize,
    pub nonsym: Option<NonsymState>,
    pub exact_leaf: Option<ExactLeafState<F>>,
    pub bootstrap: Option<BootstrapState<F>>,
    pub mvs: Option<MvsState<F>>,
    /// The target is on the device.
    pub target_resident: bool,
    /// Derivatives are on the device.
    pub der1_resident: bool,
}

/// The device serves the run.
pub open spec fn session_covered<F>(
    loss: Loss<F>,
    depth: int,
    plain: bool,
    fold_count: int,
    score_function: EScoreFunction,
    n: int,
    n_features: int,
    n_bins: int,
    config: DeviceTrainConfig<F>,
) -> bool {
    &&& plain
    &&& depth > 0
    &&& fold_count == 1
    &&& !scores_pairs(loss)
    &&& !ranks(loss)
    &&& multiclass_objective_of(loss) is None
    &&& leaf_method_of(config, loss) is Some
    &&& family_covered(config, loss, n, n_bins)
    &&& session_der_kernel(config, loss) is Some
    &&& score_fn_of(score_function) is Some
    &&& n > 0
    &&& n_features > 0
    &&& n_bins > 0
    &&& session_line(config, n_bins) is Some
}

/// The derivative kernel of a session. Exact leaves take the residual.
pub open spec fn session_der_kernel<F>(config: DeviceTrainConfig<F>, loss: Loss<F>) -> Option<DerBinaryKernel> {
    match leaf_method_of(config, loss) {
        Some(DeviceLeafMethod::Exact { .. }) => Some(DerBinaryKernel::RmseGradient),
        _ => der_kernel_of(loss),
    }
}

/// The histogram line of a session: padded for symmetric trees.
pub open spec fn session_line<F>(config: DeviceTrainConfig<F>, n_bins: int) -> Option<usize> {
    if config.grow_policy == DeviceGrowPolicy::SymmetricTree {
        line_bins(n_bins)
    } else {
        Some(n_bins as usize)
    }
}

/// Columns one after the other.
pub open spec fn joined(columns: Seq<Vec<u32>>, upto: nat) -> Seq<u32>
    decreases upto,
{
    if upto == 0 {
        Seq::empty()
    } else {
        joined(columns, (upto - 1) as nat) + columns[upto - 1]@
    }
}

/// The bins of a session: the given ones, and the target-statistic columns after them.
pub open spec fn session_bins<F>(
    bins: Seq<u32>,
    ctr_columns: Seq<Vec<u32>>,
    config: DeviceTrainConfig<F>,
    n: int,
    n_bins: int,
) -> Seq<u32> {
    if session_takes_ctr(config, n, n_bins) {
        bins + joined(ctr_columns, ctr_columns.len())
    } else {
        bins
    }
}

/// The session's features include target statistics.
pub open spec fn session_takes_ctr<F>(config: DeviceTrainConfig<F>, n: int, n_bins: int) -> bool {
    config.grow_policy == DeviceGrowPolicy::SymmetricTree && ctr_arm_covered(config, n, n_bins)
}

/// The number of features of a session.
pub open spec fn session_features<F>(
    n_features: int,
    ctr_columns: Seq<Vec<u32>>,
    config: DeviceTrainConfig<F>,
    n: int,
    n_bins: int,
) -> int {
    if session_takes_ctr(config, n, n_bins) {
        n_features + ctr_columns.len()
    } else {
        n_features
    }
}

/// The one-hot flag of each feature of a session; unset where the run names none.
pub open spec fn session_flags(flags: Seq<bool>, features: nat) -> Seq<bool> {
    Seq::new(features, |f: int| f < flags.len() && flags[f])
}

/// What is wrong with the columns of a covered run, if anything.
pub open spec fn session_fault<F>(
    bins: Seq<u32>,
    weight: Seq<F>,
    n: int,
    n_features: int,
    n_bins: int,
    ctr_columns: Seq<Vec<u32>>,
    config: DeviceTrainConfig<F>,
) -> Option<CbError> {
    if n_features * n > usize::MAX {
        Some(CbError::OutOfRange(RangeFault::ObjectStride { n_features: n_features as usize, n: n as usize }))
    } else if bins.len() != n_features * n {
        Some(
            CbError::LengthMismatch {
                column: Column::BinsFeatureMajor,
                expected: (n_features * n) as usize,
                actual: bins.len() as usize,
            },
        )
    } else if weight.len() != n {
        Some(CbError::LengthMismatch { column: Column::Weight, expected: n as usize, actual: weight.len() as usize })
    } else if first_at_least(bins, n_bins) is Some {
        Some(
            CbError::OutOfRange(
                RangeFault::BinValue { value: first_at_least(bins, n_bins)->0, n_bins: n_bins as usize },
            ),
        )
    } else {
        let features = session_features(n_features, ctr_columns, config, n, n_bins) as nat;
        table_fault(
            session_bins(bins, ctr_columns, config, n, n_bins),
            Seq::new(features, |f: int| session_line(config, n_bins)->0),
            session_flags(config.one_hot_flags@, features),
            n,
        )
    }
}

/// The session holds what a covered run without fault opens.
pub open spec fn session_opened<F: Real>(
    s: GpuTrainSession<F>,
    loss: Loss<F>,
    depth: int,
    score_function: EScoreFunction,
    bins: Seq<u32>,
    weight: Seq<F>,
    n: int,
    n_features: int,
    n_bins: int,
    learning_rate: F,
    scaled_l2: F,
    config: DeviceTrainConfig<F>,
    ctr_columns: Seq<Vec<u32>>,
) -> bool {
    let arm = bootstrap_arm_of(config.bootstrap_type);
    let policy = grow_policy_of(config.grow_policy);
    &&& s.cindex@ == session_bins(bins, ctr_columns, config, n, n_bins)
    &&& s.n_features == session_features(n_features, ctr_columns, config, n, n_bins)
    &&& packed_rows(
        s.packed,
        s.cindex@,
        Seq::new(s.n_features as nat, |f: int| s.n_bins_line),
        session_flags(config.one_hot_flags@, s.n_features as nat),
        n,
    )
    &&& s.weight@ == weight
    &&& s.objects == n
    &&& s.n_bins == n_bins
    &&& Some(s.n_bins_line) == session_line(config, n_bins)
    &&& s.base_features == n_features
    &&& s.cindex_stride == s.n_features * n
    &&& s.depth == depth
    &&& s.scaled_l2 == scaled_l2
    &&& Some(s.score_fn) == score_fn_of(score_function)
    &&& s.learning_rate == learning_rate
    &&& Some(s.der_kernel) == session_der_kernel(config, loss)
    &&& s.one_hot_flags@ == config.one_hot_flags@
    &&& s.real_folds@ == config.real_folds@
    &&& s.n_float == if config.one_hot_flags@.len() == 0 { n_features } else { config.n_float as int }
    &&& match policy {
        Some(p) => s.nonsym matches Some(ns) && ns.policy == p && ns.max_depth == depth && ns.min_data_in_leaf == config.min_data_in_leaf
            && ns.max_leaves == match config.max_leaves {
            Some(cap) => cap,
            None => usize::MAX,
        },
        None => s.nonsym is None,
    }
    &&& match leaf_method_of(config, loss) {
        Some(DeviceLeafMethod::Exact { alpha, delta, mape }) if policy is None => s.exact_leaf == Some(
            ExactLeafState { alpha, delta, mape },
        ),
        _ => s.exact_leaf is None,
    }
    &&& match arm {
        BootstrapArm::Device(kind) if policy is None => s.bootstrap matches Some(bs) && bs.kind == kind
            && bs.rng@ == seeded_state(config.rng_seed) && bs.sample_rate == config.sample_rate && bs.bagging_temperature == F::one_spec(),
        _ => s.bootstrap is None,
    }
    &&& match arm {
        BootstrapArm::Mvs if policy is None => s.mvs matches Some(mvs) && mvs.rng@ == seeded_state(config.rng_seed)
            && mvs.sample_rate == config.sample_rate && Some(mvs.lambda) == config.mvs_lambda,
        _ => s.mvs is None,
    }
    &&& !s.target_resident
    &&& !s.der1_resident
}

/// Copies a column.
pub(crate) fn copy_column<T: Copy>(s: &[T]) -> (r: Vec<T>)
    ensures
        r@ == s@,
{
    let n: usize = s.len();
    let mut out: Vec<T> = Vec::new();
    let mut i: usize = 0;
    while i < n
        invariant
            i <= n,
            n == s@.len(),
            out@ == s@.take(i as int),
        decreases n - i,
    {
        out.push(s[i]);
        proof {
            assert(out@ =~= s@.take(i + 1));
        }
        i = i + 1;
    }
    assert(s@.take(n as int) =~= s@);
    out
}

/// The given bins with columns after them.
fn join_columns(bins: &[u32], columns: &[Vec<u32>], n: usize) -> (r: Vec<u32>)
    requires
        forall|c: int| 0 <= c < columns@.len() ==> #[trigger] columns@[c]@.len() == n,
    ensures
        r@ == bins@ + joined(columns@, columns@.len()),
{
    let m: usize = columns.len();
    let mut out: Vec<u32> = copy_column(bins);
    let mut c: usize = 0;
    proof {
        assert(bins@ + joined(columns@, 0) =~= bins@);
    }
    while c < m
        invariant
            c <= m,
            m == columns@.len(),
            out@ == bins@ + joined(columns@, c as nat),
        decreases m - c,
    {
        let mut column: Vec<u32> = copy_column(columns[c].as_slice());
        out.append(&mut column);
        proof {
            assert(out@ =~= bins@ + joined(columns@, (c + 1) as nat));
        }
        c = c + 1;
    }
    out
}

/// The one-hot flag of each feature.
fn spread_flags(flags: &[bool], features: usize) -> (r: Vec<bool>)
    ensures
        r@ == session_flags(flags@, features as nat),
{
    let mut out: Vec<bool> = Vec::new();
    let mut f: usize = 0;
    while f < features
        invariant
            f <= features,
            out@.len() == f,
            forall|k: int| 0 <= k < f ==> #[trigger] out@[k] == (k < flags@.len() && flags@[k]),
        decreases features - f,
    {
        out.push(f < flags.len() && flags[f]);
        f = f + 1;
    }
    assert(out@ =~= session_flags(flags@, features as nat));
    out
}

impl<F: Real> GpuTrainSession<F> {
    /// Opens a session for a run that the device serves.
    ///
    /// A run outside of what the device serves is declined: the result is `Ok(None)`, never
    /// an error and never a session that serves part of it. `ctr_columns` are the binarized
    /// target-statistic columns, one for each that the options name, which join the features
    /// where the run's target statistics are covered.
    pub fn begin(
        loss: &Loss<F>,
        depth: usize,
        boosting_type_is_plain: bool,
        fold_count: usize,
        score_function: EScoreFunction,
        bins_feature_major: &[u32],
        weight: &[F],
        n: usize,
        n_features: usize,
        n_bins: usize,
        learning_rate: F,
        scaled_l2: F,
        config: &DeviceTrainConfig<F>,
        ctr_columns: &[Vec<u32>],
    ) -> (r: CbResult<Option<Self>>)
        requires
            session_takes_ctr(*config, n as int, n_bins as int) ==> {
                &&& ctr_columns@.len() == config.ctr->0.columns@.len()
                &&& n_features + ctr_columns@.len() <= usize::MAX
                &&& forall|c: int| 0 <= c < ctr_columns@.len() ==> #[trigger] ctr_columns@[c]@.len() == n
            },
        ensures
            !session_covered(*loss, depth as int, boosting_type_is_plain, fold_count as int, score_function, n as int, n_features as int, n_bins as int, *config)
                ==> r == Ok::<Option<Self>, CbError>(None),
            session_covered(*loss, depth as int, boosting_type_is_plain, fold_count as int, score_function, n as int, n_features as int, n_bins as int, *config)
                ==> match session_fault(bins_feature_major@, weight@, n as int, n_features as int, n_bins as int, ctr_columns@, *config) {
                Some(e) => r == Err::<Option<Self>, CbError>(e),
                None => r matches Ok(Some(s)) && session_opened(
                    s,
                    *loss,
                    depth as int,
                    score_function,
                    bins_feature_major@,
                    weight@,
                    n as int,
                    n_features as int,
                    n_bins as int,
                    learning_rate,
                    scaled_l2,
                    *config,
                    ctr_columns@,
                ),
            },
    {
        if !boosting_type_is_plain {
            return Ok(None);
        }
        if depth == 0 || fold_count != 1 {
            return Ok(None);
        }
        if is_pairwise_scoring(loss) {
            return Ok(None);
        }
        if is_ranking_loss(loss) {
            return Ok(None);
        }
        if map_multiclass_objective(loss).is_some() {
            return Ok(None);
        }
        let policy: Option<NonsymPolicy> = map_grow_policy(config.grow_policy);
        let leaf_method: DeviceLeafMethod<F> = match map_leaf_method(config, loss) {
            Some(m) => m,
            None => {
                return Ok(None);
            },
        };
        if !family_ok(config, loss, n, n_bins) {
            return Ok(None);
        }
        let der_kernel: DerBinaryKernel = match &leaf_method {
            DeviceLeafMethod::Exact { .. } => DerBinaryKernel::RmseGradient,
            DeviceLeafMethod::Newton => match map_der_kernel(loss) {
                Some(k) => k,
                None => {
                    return Ok(None);
                },
            },
        };
        let score_fn: u32 = match map_score_fn(score_function) {
            Some(s) => s,
            None => {
                return Ok(None);
            },
        };
        if n == 0 || n_features == 0 || n_bins == 0 {
            return Ok(None);
        }
        let n_bins_line: usize = if policy.is_none() {
            match pad_hist_line_bins(n_bins) {
                Some(w) => w,
                None => {
                    return Ok(None);
                },
            }
        } else {
            n_bins
        };
        let cindex_stride: usize = match n_features.checked_mul(n) {
            Some(stride) => stride,
            None => {
                return Err(CbError::OutOfRange(RangeFault::ObjectStride { n_features, n }));
            },
        };
        if bins_feature_major.len() != cindex_stride {
            return Err(
                CbError::LengthMismatch {
                    column: Column::BinsFeatureMajor,
                    expected: cindex_stride,
                    actual: bins_feature_major.len(),
                },
            );
        }
        if weight.len() != n {
            return Err(CbError::LengthMismatch { column: Column::Weight, expected: n, actual: weight.len() });
        }
        match find_at_least(bins_feature_major, n_bins) {
            Some(value) => {
                return Err(CbError::OutOfRange(RangeFault::BinValue { value, n_bins }));
            },
            None => {},
        }
        let takes_ctr: bool = policy.is_none() && ctr_arm_ok(config, n, n_bins);
        let eff_bins: Vec<u32> = if takes_ctr {
            join_columns(bins_feature_major, ctr_columns, n)
        } else {
            copy_column(bins_feature_major)
        };
        let eff_features: usize = if takes_ctr {
            n_features + ctr_columns.len()
        } else {
            n_features
        };
        let buckets: Vec<usize> = vec![n_bins_line; eff_features];
        let flags: Vec<bool> = spread_flags(config.one_hot_flags.as_slice(), eff_features);
        proof {
            assert(buckets@ =~= Seq::new(eff_features as nat, |f: int| n_bins_line));
        }
        let packed: PackedCindex = match pack_cindex(eff_bins.as_slice(), buckets.as_slice(), flags.as_slice(), n) {
            Ok(packed) => packed,
            Err(e) => {
                return Err(e);
            },
        };
        let eff_stride: usize = eff_bins.len();
        let nonsym: Option<NonsymState> = match policy {
            Some(policy) => Some(
                NonsymState {
                    policy,
                    max_depth: depth,
                    max_leaves: match config.max_leaves {
                        Some(cap) => cap,
                        None => usize::MAX,
                    },
                    min_data_in_leaf: config.min_data_in_leaf,
                },
            ),
            None => None,
        };
        let exact_leaf: Option<ExactLeafState<F>> = match leaf_method {
            DeviceLeafMethod::Exact { alpha, delta, mape } if policy.is_none() => Some(ExactLeafState { alpha, delta, mape }),
            _ => None,
        };
        let arm: BootstrapArm = map_bootstrap_kernel(config.bootstrap_type);
        let bootstrap: Option<BootstrapState<F>> = match arm {
            BootstrapArm::Device(kind) if policy.is_none() => Some(
                BootstrapState {
                    kind,
                    rng: TFastRng64::from_seed(config.rng_seed),
                    sample_rate: config.sample_rate,
                    bagging_temperature: F::one(),
                },
            ),
            _ => None,
        };
        let mvs: Option<MvsState<F>> = match (arm, config.mvs_lambda) {
            (BootstrapArm::Mvs, Some(lambda)) if policy.is_none() => Some(
                MvsState { rng: TFastRng64::from_seed(config.rng_seed), sample_rate: config.sample_rate, lambda },
            ),
            _ => None,
        };
        let n_float: usize = if config.one_hot_flags.len() == 0 {
            n_features
        } else {
            config.n_float
        };
        Ok(
            Some(
                GpuTrainSession {
                    cindex: eff_bins,
                    packed,
                    weight: copy_column(weight),
                    objects: n,
                    n_bins,
                    n_bins_line,
                    base_features: n_features,
                    n_features: eff_features,
                    cindex_stride: eff_stride,
                    depth,
                    scaled_l2,
                    score_fn,
                    learning_rate,
                    der_kernel,
                    one_hot_flags: copy_column(config.one_hot_flags.as_slice()),
                    real_folds: copy_column(config.real_folds.as_slice()),
                    n_float,
                    nonsym,
                    exact_leaf,
                    bootstrap,
                    mvs,
                    target_resident: false,
                    der1_resident: false,
                },
            ),
        )
    }

    /// The number of objects.
    pub fn n(&self) -> (r: usize)
        ensures
            r == self.objects,
    {
        self.objects
    }

    /// The number of features, target-statistic columns included.
    pub fn n_features_effective(&self) -> (r: usize)
        ensures
            r == self.n_features,
    {
        self.n_features
    }
}

/// How the objects of one tree are sampled.
pub enum Sample<F> {
    Full,
    Bootstrap { kind: DeviceBootstrapKind, base: [u64; 4], rand_seed: u64, sample_rate: F, bagging_temperature: F },
    Mvs { rand_seed: u64, sample_rate: F, lambda: F },
}

/// What one tree asks of the device.
pub enum GrowAction<F> {
    /// Grow by a non-symmetric policy over derivatives taken on the host.
    Nonsym {
        policy: NonsymPolicy,
        max_depth: usize,
        max_leaves: usize,
        min_data_in_leaf: usize,
        der1: Vec<F>,
    },
    /// Bring the resident columns up to date, then draw the sample and grow a symmetric tree.
    Oblivious { upload_target: bool, upload_approx: bool, derive_der1: bool },
}

/// The draws that a sampling takes from its stream per tree.
pub open spec fn bootstrap_draws(kind: DeviceBootstrapKind, n: nat) -> nat {
    match kind {
        DeviceBootstrapKind::Bayesian => 1,
        DeviceBootstrapKind::Bernoulli => n,
        DeviceBootstrapKind::Poisson => n,
    }
}

/// The minimal-variance sampling leaves objects out.
pub open spec fn mvs_draws<F: Real>(mvs: MvsState<F>) -> bool {
    F::one_spec().above_spec(mvs.sample_rate)
}

/// The sample of the next tree: a device sampling goes before a minimal-variance one.
pub open spec fn is_sample_of<F: Real>(s: GpuTrainSession<F>, sample: Sample<F>) -> bool {
    match s.bootstrap {
        Some(bs) => sample matches Sample::Bootstrap { kind, base, rand_seed, sample_rate, bagging_temperature } && {
            &&& kind == bs.kind
            &&& base@ == bs.rng@
            &&& rand_seed == if kind == DeviceBootstrapKind::Bayesian { draw_of(bs.rng@, 1) } else { 0 }
            &&& sample_rate == bs.sample_rate
            &&& bagging_temperature == bs.bagging_temperature
        },
        None => match s.mvs {
            Some(mvs) if mvs_draws(mvs) => sample == (Sample::Mvs {
                rand_seed: draw_of(mvs.rng@, 1),
                sample_rate: mvs.sample_rate,
                lambda: mvs.lambda,
            }),
            _ => sample is Full,
        },
    }
}

/// The streams of a session after the sample of one tree.
pub open spec fn streams_advanced<F: Real>(before: GpuTrainSession<F>, after: GpuTrainSession<F>) -> bool {
    &&& match before.bootstrap {
        Some(bs) => after.bootstrap matches Some(next) && {
            &&& next.kind == bs.kind
            &&& next.sample_rate == bs.sample_rate
            &&& next.bagging_temperature == bs.bagging_temperature
            &&& next.rng@ == state_after(bs.rng@, bootstrap_draws(bs.kind, before.objects as nat))
        },
        None => after.bootstrap is None,
    }
    &&& match before.mvs {
        Some(mvs) => after.mvs matches Some(next) && {
            &&& next.sample_rate == mvs.sample_rate
            &&& next.lambda == mvs.lambda
            &&& next.rng@ == if mvs_draws(mvs) { state_after(mvs.rng@, 3) } else { mvs.rng@ }
        },
        None => after.mvs is None,
    }
}

impl<F: Real> GpuTrainSession<F> {
    /// The one-hot flags, the true bin counts, the number of float features, and the range
    /// of features that a one-hot scoring pass sweeps.
    pub fn one_hot_channel(&self) -> (r: (Vec<bool>, Vec<u32>, usize, usize, usize))
        ensures
            r.0@ == self.one_hot_flags@,
            r.1@ == self.real_folds@,
            r.2 == self.n_float,
            r.3 == self.n_float,
            r.4 == self.base_features,
    {
        (
            copy_column(self.one_hot_flags.as_slice()),
            copy_column(self.real_folds.as_slice()),
            self.n_float,
            self.n_float,
            self.base_features,
        )
    }
}

impl<F: Smooth> GpuTrainSession<F> {
    /// Decides what the next tree asks of the device.
    ///
    /// Trees upload the target and derive until derivatives are reported with
    /// `derivatives_ready`: a derivation that fails leaves a session from which the next tree
    /// starts over. Trees with exact leaves upload the approximation and derive each time, and
    /// their target stays on the device from its upload on.
    pub fn grow_one(&mut self, approx: &[F], target: &[F]) -> (r: CbResult<GrowAction<F>>)
        ensures
            target@.len() != old(self).objects ==> r == Err::<GrowAction<F>, CbError>(
                CbError::LengthMismatch { column: Column::Target, expected: old(self).objects, actual: target@.len() as usize },
            ) && *final(self) == *old(self),
            target@.len() == old(self).objects && (old(self).nonsym is Some || old(self).exact_leaf is Some) && approx@.len()
                != old(self).objects ==> r == Err::<GrowAction<F>, CbError>(
                CbError::LengthMismatch { column: Column::Approx, expected: old(self).objects, actual: approx@.len() as usize },
            ) && *final(self) == *old(self),
            target@.len() == old(self).objects && old(self).nonsym is Some && approx@.len() == old(self).objects ==> {
                &&& r matches Ok(GrowAction::Nonsym { policy, max_depth, max_leaves, min_data_in_leaf, der1 }) && {
                    &&& policy == old(self).nonsym->0.policy
                    &&& max_depth == old(self).nonsym->0.max_depth
                    &&& max_leaves == old(self).nonsym->0.max_leaves
                    &&& min_data_in_leaf == old(self).nonsym->0.min_data_in_leaf
                    &&& der1@ == Seq::new(
                        old(self).objects as nat,
                        |i: int| first_der(old(self).der_kernel, approx@[i], target@[i]),
                    )
                }
                &&& *final(self) == *old(self)
            },
            target@.len() == old(self).objects && old(self).nonsym is None && (old(self).exact_leaf is None || approx@.len()
                == old(self).objects) ==> {
                &&& r matches Ok(GrowAction::Oblivious { upload_target, upload_approx, derive_der1 }) && {
                    &&& upload_target == !old(self).target_resident
                    &&& upload_approx == (old(self).exact_leaf is Some)
                    &&& derive_der1 == (old(self).exact_leaf is Some || !old(self).target_resident)
                }
                &&& *final(self) == (GpuTrainSession {
                    target_resident: old(self).target_resident || old(self).exact_leaf is Some,
                    ..*old(self)
                })
            },
    {
        if target.len() != self.objects {
            return Err(
                CbError::LengthMismatch { column: Column::Target, expected: self.objects, actual: target.len() },
            );
        }
        if (self.nonsym.is_some() || self.exact_leaf.is_some()) && approx.len() != self.objects {
            return Err(
                CbError::LengthMismatch { column: Column::Approx, expected: self.objects, actual: approx.len() },
            );
        }
        match &self.nonsym {
            Some(ns) => {
                return Ok(
                    GrowAction::Nonsym {
                        policy: ns.policy,
                        max_depth: ns.max_depth,
                        max_leaves: ns.max_leaves,
                        min_data_in_leaf: ns.min_data_in_leaf,
                        der1: host_der1(self.der_kernel, approx, target),
                    },
                );
            },
            None => {},
        }
        let exact: bool = self.exact_leaf.is_some();
        let upload_target: bool = !self.target_resident;
        if exact {
            self.target_resident = true;
        }
        Ok(GrowAction::Oblivious { upload_target, upload_approx: exact, derive_der1: exact || upload_target })
    }

    /// Takes note that the device has derived: target and derivatives are on it.
    pub fn derivatives_ready(&mut self)
        ensures
            *final(self) == (GpuTrainSession { target_resident: true, der1_resident: true, ..*old(self) }),
    {
        self.target_resident = true;
        self.der1_resident = true;
    }

    /// The sample of a tree whose columns are on the device. The sampling streams advance by
    /// what the tree draws: a Bayesian sampling takes one draw as the seed of the device's own
    /// draws, the other device samplings one draw per object, the minimal-variance sampling
    /// three.
    pub fn draw_sample(&mut self) -> (r: CbResult<Sample<F>>)
        ensures
            !old(self).der1_resident ==> r == Err::<Sample<F>, CbError>(CbError::Degenerate(Degeneracy::MissingDer1))
                && *final(self) == *old(self),
            old(self).der1_resident && !old(self).target_resident ==> r == Err::<Sample<F>, CbError>(
                CbError::Degenerate(Degeneracy::MissingTarget),
            ) && *final(self) == *old(self),
            old(self).der1_resident && old(self).target_resident ==> {
                &&& r matches Ok(sample) && is_sample_of(*old(self), sample)
                &&& streams_advanced(*old(self), *final(self))
                &&& *final(self) == (GpuTrainSession { bootstrap: final(self).bootstrap, mvs: final(self).mvs, ..*old(self) })
            },
    {
        if !self.der1_resident {
            return Err(CbError::Degenerate(Degeneracy::MissingDer1));
        }
        if !self.target_resident {
            return Err(CbError::Degenerate(Degeneracy::MissingTarget));
        }
        let n: u64 = self.objects as u64;
        let drawn: Option<Sample<F>> = match &mut self.bootstrap {
            Some(bs) => {
                let base: [u64; 4] = bs.rng.raw_state();
                let rand_seed: u64 = match bs.kind {
                    DeviceBootstrapKind::Bayesian => bs.rng.gen_rand(),
                    _ => {
                        bs.rng.advance(n);
                        0
                    },
                };
                Some(
                    Sample::Bootstrap {
                        kind: bs.kind,
                        base,
                        rand_seed,
                        sample_rate: bs.sample_rate,
                        bagging_temperature: bs.bagging_temperature,
                    },
                )
            },
            None => None,
        };
        let reduced: Sample<F> = match &mut self.mvs {
            Some(mvs) => {
                if F::one().above(mvs.sample_rate) {
                    let ghost start = mvs.rng@;
                    let rand_seed: u64 = mvs.rng.gen_rand();
                    let _first: u64 = mvs.rng.gen_rand();
                    let _second: u64 = mvs.rng.gen_rand();
                    proof {
                        crate::rng::law_advance_adds_up(start, 1, 1);
                        crate::rng::law_advance_adds_up(start, 2, 1);
                    }
                    Sample::Mvs { rand_seed, sample_rate: mvs.sample_rate, lambda: mvs.lambda }
                } else {
                    Sample::Full
                }
            },
            None => Sample::Full,
        };
        match drawn {
            Some(sample) => Ok(sample),
            None => Ok(reduced),
        }
    }
}

/// An entry of a column, or the given one past its end.
pub open spec fn entry_or<F>(column: Seq<F>, i: int, or: F) -> F {
    if i < column.len() {
        column[i]
    } else {
        or
    }
}

pub(crate) fn get_or<F: Copy>(column: &[F], i: usize, or: F) -> (r: F)
    ensures
        r == entry_or(column@, i as int, or),
{
    if i < column.len() {
        column[i]
    } else {
        or
    }
}

/// The residual of an object.
pub open spec fn residual_of<F: Real>(approx: Seq<F>, target: Seq<F>, i: int) -> F {
    entry_or(target, i, F::zero_spec()).minus_spec(entry_or(approx, i, F::zero_spec())).narrow_spec()
}

/// The greater of one and the magnitude of a target.
pub open spec fn magnitude_or_one<F: Real>(t: F) -> F {
    let one = F::one_spec();
    if t.above_spec(one) {
        t
    } else if t.negated_spec().above_spec(one) {
        t.negated_spec()
    } else {
        one
    }
}

pub(crate) fn greater_of_one<F: Real>(t: F) -> (r: F)
    ensures
        r == magnitude_or_one(t),
{
    let one: F = F::one();
    if t.above(one) {
        t
    } else if t.negated().above(one) {
        t.negated()
    } else {
        one
    }
}

/// The weight of an object in its leaf. Percentage errors weigh an object down by the
/// magnitude of its target.
pub open spec fn exact_weight_of<F: Real>(weight: Seq<F>, target: Seq<F>, mape: bool, i: int) -> F {
    let w = entry_or(weight, i, F::one_spec());
    if mape {
        w.over_spec(magnitude_or_one(entry_or(target, i, F::zero_spec())))
    } else {
        w
    }
}

/// The objects of a leaf among the first `upto`, in ascending order.
pub open spec fn leaf_members(leaf_of: Seq<u32>, leaf: int, upto: nat) -> Seq<int>
    decreases upto,
{
    if upto == 0 {
        Seq::empty()
    } else {
        let rest = leaf_members(leaf_of, leaf, (upto - 1) as nat);
        if leaf_of[upto - 1] == leaf {
            rest.push(upto - 1)
        } else {
            rest
        }
    }
}

/// The residuals and weights of the objects of each leaf, in ascending object order.
/// Objects whose leaf is out of range belong to none.
pub fn exact_leaf_groups<F: Real>(
    leaf_of: &[u32],
    n_leaves: usize,
    approx: &[F],
    target: &[F],
    weight: &[F],
    mape: bool,
) -> (r: (Vec<Vec<F>>, Vec<Vec<F>>))
    ensures
        r.0@.len() == n_leaves,
        r.1@.len() == n_leaves,
        forall|leaf: int|
            0 <= leaf < n_leaves ==> (#[trigger] r.0@[leaf])@ == leaf_members(leaf_of@, leaf, leaf_of@.len()).map_values(
                |i: int| residual_of(approx@, target@, i),
            ),
        forall|leaf: int|
            0 <= leaf < n_leaves ==> (#[trigger] r.1@[leaf])@ == leaf_members(leaf_of@, leaf, leaf_of@.len()).map_values(
                |i: int| exact_weight_of(weight@, target@, mape, i),
            ),
{
    let n: usize = leaf_of.len();
    let ghost res_of = |i: int| residual_of(approx@, target@, i);
    let ghost w_of = |i: int| exact_weight_of(weight@, target@, mape, i);
    let mut per_res: Vec<Vec<F>> = Vec::new();
    let mut per_w: Vec<Vec<F>> = Vec::new();
    let mut l: usize = 0;
    while l < n_leaves
        invariant
            l <= n_leaves,
            per_res@.len() == l,
            per_w@.len() == l,
            forall|k: int| 0 <= k < l ==> (#[trigger] per_res@[k])@.len() == 0,
            forall|k: int| 0 <= k < l ==> (#[trigger] per_w@[k])@.len() == 0,
        decreases n_leaves - l,
    {
        per_res.push(Vec::new());
        per_w.push(Vec::new());
        l = l + 1;
    }
    proof {
        assert forall|k: int| 0 <= k < n_leaves implies (#[trigger] per_res@[k])@ == leaf_members(leaf_of@, k, 0).map_values(res_of) by {
            assert(per_res@[k]@ =~= leaf_members(leaf_of@, k, 0).map_values(res_of));
        }
        assert forall|k: int| 0 <= k < n_leaves implies (#[trigger] per_w@[k])@ == leaf_members(leaf_of@, k, 0).map_values(w_of) by {
            assert(per_w@[k]@ =~= leaf_members(leaf_of@, k, 0).map_values(w_of));
        }
    }
    let mut i: usize = 0;
    while i < n
        invariant
            i <= n,
            n == leaf_of@.len(),
            per_res@.len() == n_leaves,
            per_w@.len() == n_leaves,
            res_of == (|i: int| residual_of(approx@, target@, i)),
            w_of == (|i: int| exact_weight_of(weight@, target@, mape, i)),
            forall|k: int| 0 <= k < n_leaves ==> (#[trigger] per_res@[k])@ == leaf_members(leaf_of@, k, i as nat).map_values(res_of),
            forall|k: int| 0 <= k < n_leaves ==> (#[trigger] per_w@[k])@ == leaf_members(leaf_of@, k, i as nat).map_values(w_of),
        decreases n - i,
    {
        let leaf: usize = leaf_of[i] as usize;
        let t: F = get_or(target, i, F::zero());
        let a: F = get_or(approx, i, F::zero());
        let res: F = t.minus(a).narrow();
        let base: F = get_or(weight, i, F::one());
        let w: F = if mape {
            base.over(greater_of_one(t))
        } else {
            base
        };
        let ghost res_before = per_res@;
        let ghost w_before = per_w@;
        if leaf < n_leaves {
            per_res[leaf].push(res);
            per_w[leaf].push(w);
        }
        proof {
            assert forall|k: int| 0 <= k < n_leaves implies (#[trigger] per_res@[k])@ == leaf_members(leaf_of@, k, (i + 1) as nat).map_values(res_of) by {
                assert(res_before[k]@ == leaf_members(leaf_of@, k, i as nat).map_values(res_of));
                assert(per_res@[k]@ =~= leaf_members(leaf_of@, k, (i + 1) as nat).map_values(res_of));
            }
            assert forall|k: int| 0 <= k < n_leaves implies (#[trigger] per_w@[k])@ == leaf_members(leaf_of@, k, (i + 1) as nat).map_values(w_of) by {
                assert(w_before[k]@ == leaf_members(leaf_of@, k, i as nat).map_values(w_of));
                assert(per_w@[k]@ =~= leaf_members(leaf_of@, k, (i + 1) as nat).map_values(w_of));
            }
        }
        i = i + 1;
    }
    (per_res, per_w)
}

/// The exact value of each leaf: what the order statistic of its residuals gives, and zero
/// for a leaf without objects. `deltas` are the order statistics of the groups.
pub fn compute_exact_leaf_values<F: Real>(residuals: &[Vec<F>], deltas: &[F]) -> (r: Vec<F>)
    ensures
        r@ == Seq::new(
            residuals@.len(),
            |leaf: int|
                if residuals@[leaf]@.len() == 0 {
                    F::zero_spec()
                } else {
                    entry_or(deltas@, leaf, F::zero_spec())
                },
        ),
{
    let n_leaves: usize = residuals.len();
    let mut values: Vec<F> = Vec::new();
    let mut leaf: usize = 0;
    while leaf < n_leaves
        invariant
            leaf <= n_leaves,
            n_leaves == residuals@.len(),
            values@.len() == leaf,
            forall|l: int|
                0 <= l < leaf ==> #[trigger] values@[l] == if residuals@[l]@.len() == 0 {
                    F::zero_spec()
                } else {
                    entry_or(deltas@, l, F::zero_spec())
                },
        decreases n_leaves - leaf,
    {
        let value: F = if residuals[leaf].len() == 0 {
            F::zero()
        } else {
            get_or(deltas, leaf, F::zero())
        };
        values.push(value);
        leaf = leaf + 1;
    }
    values
}

/// A grown tree. The nodes of a non-symmetric tree carry the steps to their children and the
/// leaves they end in; the path of a region tree carries the feature, the bin and the side of
/// each step.
pub struct DeviceGrownTree<F> {
    pub splits: Vec<(u32, u32)>,
    pub leaf_values: Vec<F>,
    pub approx_dim: usize,
    pub leaf_of: Vec<u32>,
    pub step_nodes: Vec<(u32, u32)>,
    pub node_id_to_leaf_id: Vec<u32>,
    pub region_path: Vec<(u32, u32, bool)>,
}

impl<F: Real> GpuTrainSession<F> {
    /// The tree that a grown symmetric one is reported as: with its own leaf values, or with
    /// the exact ones where the session estimates exact leaves, and without nodes or a path.
    pub fn finish_tree(
        &self,
        splits: Vec<(u32, u32)>,
        leaf_of: Vec<u32>,
        newton_values: Vec<F>,
        exact_values: Vec<F>,
    ) -> (r: DeviceGrownTree<F>)
        ensures
            r.splits@ == splits@,
            r.leaf_of@ == leaf_of@,
            r.leaf_values@ == if self.exact_leaf is Some { exact_values@ } else { newton_values@ },
            r.approx_dim == 1,
            r.step_nodes@.len() == 0,
            r.node_id_to_leaf_id@.len() == 0,
            r.region_path@.len() == 0,
    {
        let leaf_values: Vec<F> = if self.exact_leaf.is_some() {
            exact_values
        } else {
            newton_values
        };
        DeviceGrownTree {
            splits,
            leaf_values,
            approx_dim: 1,
            leaf_of,
            step_nodes: Vec::new(),
            node_id_to_leaf_id: Vec::new(),
            region_path: Vec::new(),
        }
    }
}

/// Trees of a device sampling draw on without gap: two trees of `n` draws are one stretch
/// of `2 * n`.
pub proof fn law_sampling_stream_is_continuous<F: Real>(a: GpuTrainSession<F>, b: GpuTrainSession<F>, c: GpuTrainSession<F>)
    requires
        streams_advanced(a, b),
        streams_advanced(b, c),
        a.objects == b.objects,
        a.bootstrap is Some,
    ensures
        c.bootstrap is Some,
        c.bootstrap->0.rng@ == state_after(
            a.bootstrap->0.rng@,
            2 * bootstrap_draws(a.bootstrap->0.kind, a.objects as nat),
        ),
{
    let d = bootstrap_draws(a.bootstrap->0.kind, a.objects as nat);
    crate::rng::law_advance_adds_up(a.bootstrap->0.rng@, d, d);
}

/// A run outside plain boosting, on several folds, without depth, or with a loss that a
/// special driver takes, is declined whatever its other options.
pub proof fn law_special_runs_are_declined<F>(
    loss: Loss<F>,
    depth: int,
    plain: bool,
    fold_count: int,
    score_function: EScoreFunction,
    n: int,
    n_features: int,
    n_bins: int,
    config: DeviceTrainConfig<F>,
)
    requires
        !plain || depth <= 0 || fold_count != 1 || scores_pairs(loss) || ranks(loss) || multiclass_objective_of(loss) is Some
            || config.grow_policy == DeviceGrowPolicy::Region,
    ensures
        !session_covered(loss, depth, plain, fold_count, score_function, n, n_features, n_bins, config),
{
}

/// A symmetric run that combines two families is declined.
pub proof fn law_two_families_are_declined<F>(
    loss: Loss<F>,
    depth: int,
    score_function: EScoreFunction,
    n: int,
    n_features: int,
    n_bins: int,
    config: DeviceTrainConfig<F>,
)
    requires
        (config.exact_leaf && config.ctr is Some) || (config.exact_leaf && !(bootstrap_arm_of(config.bootstrap_type) is NoDraw)) || (
        config.ctr is Some && !(bootstrap_arm_of(config.bootstrap_type) is NoDraw)) || (config.exact_leaf && config.mvs_lambda is Some)
            || (config.ctr is Some && config.mvs_lambda is Some),
    ensures
        !session_covered(loss, depth, true, 1, score_function, n, n_features, n_bins, config),
{
}

/// A plain run of a covered loss is served.
pub proof fn law_plain_runs_are_covered<F>(
    loss: Loss<F>,
    depth: int,
    score_function: EScoreFunction,
    n: int,
    n_features: int,
    n_bins: int,
    config: DeviceTrainConfig<F>,
)
    requires
        crate::config::is_plain_config(config),
        loss is Rmse || loss is Logloss || loss is CrossEntropy,
        depth > 0,
        score_fn_of(score_function) is Some,
        n > 0,
        n_features > 0,
        0 < n_bins <= 256,
    ensures
        session_covered(loss, depth, true, 1, score_function, n, n_features, n_bins, config),
{
}

} // verus!
