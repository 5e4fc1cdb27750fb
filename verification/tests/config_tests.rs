use mesh_analytics::config::AlgoConfig;

#[test]
fn test_set_algos() {
    let mut algo_config = AlgoConfig::new();
    algo_config.set_algos(0b00111);
    assert_eq!(algo_config.get_ap_activation(), true);
    assert_eq!(algo_config.get_mincut_activation(), true);
    assert_eq!(algo_config.get_diff_cent_activation(), true);
    assert_eq!(algo_config.get_most_sim_t_activation(), false);
    assert_eq!(algo_config.get_pred_state_activation(), false);
}

#[test]
fn set_algos_covers_every_bit() {
    for b in 0u8..32u8 {
        let mut cfg = AlgoConfig::new();
        cfg.set_algos(b);
        assert_eq!(cfg.get_ap_activation(), b & 0b00001 != 0);
        assert_eq!(cfg.get_mincut_activation(), b & 0b00010 != 0);
        assert_eq!(cfg.get_diff_cent_activation(), b & 0b00100 != 0);
        assert_eq!(cfg.get_most_sim_t_activation(), b & 0b01000 != 0);
        assert_eq!(cfg.get_pred_state_activation(), b & 0b10000 != 0);
    }
}

#[test]
fn set_algos_twice_is_same_as_once() {
    for b in 0u8..32u8 {
        let mut once = AlgoConfig::new();
        once.set_algos(b);
        let mut twice = AlgoConfig::new();
        twice.set_algos(b);
        twice.set_algos(b);
        assert_eq!(once.get_ap_activation(), twice.get_ap_activation());
        assert_eq!(once.get_mincut_activation(), twice.get_mincut_activation());
        assert_eq!(once.get_diff_cent_activation(), twice.get_diff_cent_activation());
        assert_eq!(once.get_most_sim_t_activation(), twice.get_most_sim_t_activation());
        assert_eq!(once.get_pred_state_activation(), twice.get_pred_state_activation());
    }
}

#[test]
fn set_algos_is_absolute_not_additive() {
    let mut cfg = AlgoConfig::new();
    cfg.set_algos(0b11111);
    cfg.set_algos(0b00001);
    assert_eq!(cfg.get_ap_activation(), true);
    assert_eq!(cfg.get_mincut_activation(), false);
    assert_eq!(cfg.get_diff_cent_activation(), false);
    assert_eq!(cfg.get_most_sim_t_activation(), false);
    assert_eq!(cfg.get_pred_state_activation(), false);
}

#[test]
fn individual_setters_match_bulk_assignment() {
    let mut bulk = AlgoConfig::new();
    bulk.set_algos(0b10101);
    let mut single = AlgoConfig::new();
    single.set_ap(true);
    single.set_mincut(false);
    single.set_diff_cent(true);
    single.set_most_sim_t(false);
    single.set_pred_state(true);
    assert_eq!(bulk.get_ap_activation(), single.get_ap_activation());
    assert_eq!(bulk.get_mincut_activation(), single.get_mincut_activation());
    assert_eq!(bulk.get_diff_cent_activation(), single.get_diff_cent_activation());
    assert_eq!(bulk.get_most_sim_t_activation(), single.get_most_sim_t_activation());
    assert_eq!(bulk.get_pred_state_activation(), single.get_pred_state_activation());
}

#[test]
fn new_registry_starts_disabled() {
    let cfg = AlgoConfig::new();
    assert_eq!(cfg.get_ap_activation(), false);
    assert_eq!(cfg.get_mincut_activation(), false);
    assert_eq!(cfg.get_diff_cent_activation(), false);
    assert_eq!(cfg.get_most_sim_t_activation(), false);
    assert_eq!(cfg.get_pred_state_activation(), false);
    assert!(cfg.get_ap_params().get("T").is_none());
    assert!(cfg.get_diff_cent_params().get("T").is_none());
}
