//! Which driver takes a run.

use cb_backend::channel::{Fixed, Real};
use cb_backend::config::{Backend, DeviceBootstrapType, DeviceGrowPolicy, DeviceTrainConfig, Loss};
use cb_backend::coverage::{
    langevin_covered_loss, map_langevin_coverage, map_multiclass_coverage, map_ordered_coverage, map_pairwise_coverage,
    map_ranking_coverage, DerBinaryKernel, MulticlassObjective, RankingObjective,
};

fn plain() -> DeviceTrainConfig<Fixed> {
    DeviceTrainConfig::plain(Backend::Cuda, Fixed::one(), Fixed::one(), Fixed::one())
}

fn special_configs() -> Vec<DeviceTrainConfig<Fixed>> {
    vec![
        DeviceTrainConfig { grow_policy: DeviceGrowPolicy::Depthwise, ..plain() },
        DeviceTrainConfig { bootstrap_type: DeviceBootstrapType::Bernoulli, ..plain() },
        DeviceTrainConfig { mvs_lambda: Some(Fixed::one()), ..plain() },
        DeviceTrainConfig { exact_leaf: true, ..plain() },
        DeviceTrainConfig { max_leaves: Some(8), ..plain() },
    ]
}

#[test]
fn a_pairwise_loss_has_a_driver_on_its_line_widths() {
    let l2 = Fixed::count(3);
    for n_bins in [32usize, 64, 128] {
        let state = map_pairwise_coverage(&Loss::PairLogitPairwise, &plain(), 1, true, 1, n_bins, l2).expect("a driver");
        assert_eq!(state.l2_diag_reg.raw, l2.raw);
        assert_eq!(state.pairwise_bucket_weight_prior_reg.raw, Fixed::one().raw / 10);
    }
    assert!(map_pairwise_coverage(&Loss::PairLogitPairwise, &plain(), 1, true, 1, 16, l2).is_none());
    assert!(map_pairwise_coverage(&Loss::PairLogitPairwise, &plain(), 0, true, 1, 32, l2).is_none());
    assert!(map_pairwise_coverage(&Loss::PairLogitPairwise, &plain(), 1, false, 1, 32, l2).is_none());
    assert!(map_pairwise_coverage(&Loss::PairLogitPairwise, &plain(), 1, true, 2, 32, l2).is_none());
    assert!(map_pairwise_coverage(&Loss::Rmse, &plain(), 1, true, 1, 32, l2).is_none());
    for config in special_configs() {
        assert!(map_pairwise_coverage(&Loss::PairLogitPairwise, &config, 1, true, 1, 32, l2).is_none());
    }
}

#[test]
fn a_ranking_loss_names_its_objective() {
    let one = Fixed::one();
    let two = Fixed::count(2);
    assert!(matches!(
        map_ranking_coverage(&Loss::<Fixed>::QueryRmse, &plain(), 2, true, 1),
        Some(RankingObjective::QueryRmse)
    ));
    assert!(matches!(
        map_ranking_coverage(&Loss::QuerySoftMax { lambda: one, beta: two }, &plain(), 2, true, 1),
        Some(RankingObjective::QuerySoftMax { beta, lambda }) if beta.raw == two.raw && lambda.raw == one.raw
    ));
    assert!(matches!(
        map_ranking_coverage(&Loss::YetiRank { permutations: 10, decay: one }, &plain(), 2, true, 1),
        Some(RankingObjective::YetiRank { permutations: 10, .. })
    ));
    assert!(matches!(
        map_ranking_coverage(&Loss::YetiRankPairwise { permutations: 4, decay: one }, &plain(), 2, true, 1),
        Some(RankingObjective::PFoundF { permutations: 4, .. })
    ));
    assert!(map_ranking_coverage(&Loss::<Fixed>::Rmse, &plain(), 2, true, 1).is_none());
    assert!(map_ranking_coverage(&Loss::<Fixed>::QueryRmse, &plain(), 0, true, 1).is_none());
    for config in special_configs() {
        assert!(map_ranking_coverage(&Loss::<Fixed>::QueryRmse, &config, 2, true, 1).is_none());
    }
}

#[test]
fn a_multi_output_loss_names_its_objective() {
    let objective = |loss: &Loss<Fixed>| map_multiclass_coverage(loss, &plain(), 2, true, 1);
    assert_eq!(objective(&Loss::MultiClass), Some(MulticlassObjective::Softmax));
    assert_eq!(objective(&Loss::MultiClassOneVsAll), Some(MulticlassObjective::OneVsAll));
    assert_eq!(objective(&Loss::MultiLogloss), Some(MulticlassObjective::MultiCrossEntropy));
    assert_eq!(objective(&Loss::MultiCrossEntropy), Some(MulticlassObjective::MultiCrossEntropy));
    assert_eq!(objective(&Loss::RmseWithUncertainty), Some(MulticlassObjective::RmseWithUncertainty));
    assert_eq!(objective(&Loss::Logloss), None);
    assert_eq!(map_multiclass_coverage(&Loss::<Fixed>::MultiClass, &plain(), 2, true, 2), None);
    for config in special_configs() {
        assert_eq!(map_multiclass_coverage(&Loss::<Fixed>::MultiClass, &config, 2, true, 1), None);
    }
}

#[test]
fn ordered_and_langevin_runs_take_pointwise_losses() {
    assert_eq!(map_ordered_coverage(&Loss::<Fixed>::Rmse, &plain(), 2, 1), Some(DerBinaryKernel::RmseGradient));
    assert_eq!(map_ordered_coverage(&Loss::<Fixed>::Logloss, &plain(), 2, 1), Some(DerBinaryKernel::LoglossGradient));
    assert_eq!(map_ordered_coverage(&Loss::<Fixed>::Mae, &plain(), 2, 1), None);
    assert_eq!(map_ordered_coverage(&Loss::<Fixed>::Rmse, &plain(), 2, 3), None);
    assert!(langevin_covered_loss(&Loss::<Fixed>::CrossEntropy));
    assert!(!langevin_covered_loss(&Loss::<Fixed>::PairLogitPairwise));
    assert_eq!(
        map_langevin_coverage(&Loss::<Fixed>::CrossEntropy, &plain(), 2, true, 1),
        Some(DerBinaryKernel::LoglossGradient)
    );
    assert_eq!(map_langevin_coverage(&Loss::<Fixed>::Rmse, &plain(), 2, false, 1), None);
    assert_eq!(map_langevin_coverage(&Loss::<Fixed>::QueryRmse, &plain(), 2, true, 1), None);
    for config in special_configs() {
        assert_eq!(map_ordered_coverage(&Loss::<Fixed>::Rmse, &config, 2, 1), None);
        assert_eq!(map_langevin_coverage(&Loss::<Fixed>::Rmse, &config, 2, true, 1), None);
    }
}
