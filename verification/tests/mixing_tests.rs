use ccf_core::mixing::{
    blend_alpha, HierarchicalMixerConfig, MixingStrategy, MAX_CLUSTERS, MAX_CLUSTER_SIZE,
    MAX_CONTEXTS_PER_CLUSTER, MAX_TOTAL_CONTEXTS,
};

/// A fixed-point quantity as a float.
fn unit(v: u32) -> f64 {
    v as f64 / 1_000_000.0
}

#[test]
fn blend_alpha_zero_tick_is_zero() {
    assert_eq!(unit(blend_alpha(0, 100)), 0.0);
}

#[test]
fn blend_alpha_full_tick_is_one() {
    assert_eq!(unit(blend_alpha(100, 100)), 1.0);
}

#[test]
fn blend_alpha_past_end_clamps_to_one() {
    assert_eq!(unit(blend_alpha(150, 100)), 1.0);
}

#[test]
fn blend_alpha_zero_blend_ticks_is_one() {
    assert_eq!(unit(blend_alpha(0, 0)), 1.0);
}

#[test]
fn blend_alpha_midpoint() {
    let a = blend_alpha(50, 100);
    assert!((unit(a) - 0.5).abs() < 1e-6);
}

#[test]
fn blend_alpha_exact_values() {
    assert_eq!(blend_alpha(1, 3), 333_333);
    assert_eq!(blend_alpha(2, 3), 666_666);
    assert_eq!(blend_alpha(3, 3), 1_000_000);
    assert_eq!(blend_alpha(usize::MAX - 1, usize::MAX), 999_999);
    assert_eq!(blend_alpha(usize::MAX, 0), 1_000_000);
    let mut last = 0;
    for tick in 0..=120 {
        let alpha = blend_alpha(tick, 100);
        assert!(alpha >= last && alpha <= 1_000_000);
        last = alpha;
    }
}

#[test]
fn mixer_config_defaults_and_mode() {
    let config = HierarchicalMixerConfig::default();
    assert_eq!(config.flat_threshold, 50);
    assert_eq!(config.sk_iterations_intra, 20);
    assert_eq!(config.sk_iterations_inter, 20);
    assert_eq!(config.transition_blend_ticks, 100);
    assert!(MixingStrategy::select(50, config).is_flat());
    assert!(MixingStrategy::select(51, config).is_hierarchical());
    let small = HierarchicalMixerConfig { flat_threshold: 4, ..config };
    assert!(MixingStrategy::select(4, small).hierarchical().is_none());
    assert!(MixingStrategy::select(5, small).hierarchical().is_some());
    assert_eq!(MAX_TOTAL_CONTEXTS, MAX_CLUSTERS * MAX_CONTEXTS_PER_CLUSTER);
    assert_eq!(MAX_CLUSTER_SIZE, MAX_CONTEXTS_PER_CLUSTER);
}
