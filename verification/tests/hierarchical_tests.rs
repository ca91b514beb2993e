use ccf_core::mixing::{HierarchicalMixer, HierarchicalMixerConfig, MixingStrategy};

/// Floats as fixed-point units.
fn units(values: &[f32]) -> Vec<u32> {
    values.iter().map(|&x| (x as f64 * 1_000_000.0).round() as u32).collect()
}

/// Fixed-point units as floats.
fn floats(values: &[u32]) -> Vec<f32> {
    values.iter().map(|&v| (v as f64 / 1_000_000.0) as f32).collect()
}

/// A configuration with a short transition.
fn test_config() -> HierarchicalMixerConfig {
    HierarchicalMixerConfig {
        flat_threshold: 4,
        sk_iterations_intra: 20,
        sk_iterations_inter: 20,
        transition_blend_ticks: 10,
    }
}

/// The sum of absolute values.
fn l1_norm(v: &[f32]) -> f32 {
    v.iter().map(|x| x.abs()).sum()
}

/// The member indices of a cluster.
fn members(mixer: &HierarchicalMixer, cluster: usize) -> Vec<usize> {
    mixer.clusters[cluster].member_indices.iter().copied().collect()
}

#[test]
fn test_intra_cluster_mixing_preserves_norm() {
    let mut mixer = HierarchicalMixer::new(test_config());

    let assignments = [0u16, 0, 0, 1, 1];
    mixer.update_clusters(&assignments, 2);

    let v = 1.0_f32 / 3.0;
    let raw = [v; 9];
    mixer.update_intra_params(0, &units(&raw));
    mixer.reproject_all();

    let mut coherence = units(&[0.8_f32, 0.4, 0.6, 0.9, 0.2]);
    let counts = [5u32, 3, 8, 2, 6];
    let norm_before = l1_norm(&floats(&coherence));

    mixer.apply(&mut coherence, &counts);

    let coherence = floats(&coherence);
    let norm_after = l1_norm(&coherence);
    assert!(norm_after <= norm_before + 1e-4, "norm increased: {:.6} -> {:.6}", norm_before, norm_after);

    for (i, &v) in coherence.iter().enumerate() {
        assert!(v >= 0.0 && v <= 1.0, "coherence[{}] = {} out of [0,1]", i, v);
    }
}

#[test]
fn test_full_hierarchical_preserves_norm() {
    let mut mixer = HierarchicalMixer::new(test_config());

    let assignments = [0u16, 0, 1, 1, 1, 2];
    mixer.update_clusters(&assignments, 3);

    let v2 = 1.0_f32 / 2.0;
    mixer.update_intra_params(0, &units(&[v2; 4]));
    let v3 = 1.0_f32 / 3.0;
    mixer.update_intra_params(1, &units(&[v3; 9]));

    mixer.update_inter_params(&units(&[v3; 9]));
    mixer.reproject_all();

    let mut coherence = units(&[0.3_f32, 0.7, 0.5, 0.9, 0.1, 0.6]);
    let counts = [4u32, 2, 7, 1, 3, 5];
    let norm_before = l1_norm(&floats(&coherence));

    mixer.apply(&mut coherence, &counts);

    let coherence = floats(&coherence);
    let norm_after = l1_norm(&coherence);
    assert!(norm_after <= norm_before + 1e-4, "norm increased: {:.6} -> {:.6}", norm_before, norm_after);
    for (i, &v) in coherence.iter().enumerate() {
        assert!(v >= 0.0 && v <= 1.0, "coherence[{}] = {} out of [0,1]", i, v);
    }
}

#[test]
fn test_identity_matrix_is_noop() {
    let mut mixer = HierarchicalMixer::new(test_config());

    let assignments = [0u16, 0, 1, 1, 1];
    mixer.update_clusters(&assignments, 2);

    let before = [0.3_f32, 0.6, 0.1, 0.8, 0.5];
    let mut coherence = units(&before);
    let counts = [1u32, 2, 3, 4, 5];

    mixer.apply(&mut coherence, &counts);

    for (i, (&after, &before)) in floats(&coherence).iter().zip(before.iter()).enumerate() {
        assert!(
            (after - before).abs() < 1e-5,
            "coherence[{}] changed: {:.6} -> {:.6}",
            i,
            before,
            after
        );
    }
    assert_eq!(coherence, units(&before));
}

#[test]
fn test_adaptive_mode_switch() {
    let config = HierarchicalMixerConfig { flat_threshold: 4, ..Default::default() };

    let strategy_flat = MixingStrategy::select(4, config.clone());
    assert!(strategy_flat.is_flat(), "n=4 should use Flat mode");

    let strategy_hier = MixingStrategy::select(5, config);
    assert!(strategy_hier.is_hierarchical(), "n=5 should use Hierarchical mode");

    if let Some(mixer) = strategy_hier.hierarchical() {
        assert_eq!(mixer.num_clusters, 0);
        assert!(!mixer.in_transition);
    }

    let config2 = HierarchicalMixerConfig { flat_threshold: 4, ..Default::default() };
    let mut mixer = HierarchicalMixer::new(config2);
    let assignments = [0u16, 0, 1, 1, 1];
    mixer.update_clusters(&assignments, 2);

    let mut coherence = units(&[0.4_f32, 0.8, 0.2, 0.6, 0.9]);
    let counts = [1u32, 2, 3, 4, 5];
    mixer.apply(&mut coherence, &counts);

    for (i, &v) in floats(&coherence).iter().enumerate() {
        assert!(v >= 0.0 && v <= 1.0, "coherence[{}] = {} out of [0,1] after mode switch", i, v);
    }
}

#[test]
fn test_unequal_cluster_sizes() {
    let mut mixer = HierarchicalMixer::new(test_config());

    let assignments = [0u16, 1, 1, 1, 1, 1, 2, 2];
    mixer.update_clusters(&assignments, 3);

    let before = [0.9_f32, 0.1, 0.2, 0.3, 0.4, 0.5, 0.6, 0.7];
    let mut coherence = units(&before);
    let counts = [5u32, 1, 2, 3, 4, 5, 6, 7];

    mixer.apply(&mut coherence, &counts);

    for (i, (&after, &before)) in floats(&coherence).iter().zip(before.iter()).enumerate() {
        assert!(
            (after - before).abs() < 1e-5,
            "identity: coherence[{}] changed: {:.6} -> {:.6}",
            i,
            before,
            after
        );
    }

    let inter_raw = [0.8_f32, 0.1, 0.1, 0.1, 0.8, 0.1, 0.1, 0.1, 0.8];
    mixer.update_inter_params(&units(&inter_raw));
    mixer.reproject_all();

    let mut coherence2 = units(&[0.9_f32, 0.1, 0.1, 0.1, 0.1, 0.1, 0.8, 0.8]);
    let counts2 = [10u32, 1, 1, 1, 1, 1, 5, 5];

    mixer.apply(&mut coherence2, &counts2);

    let coherence2 = floats(&coherence2);
    for (i, &v) in coherence2.iter().enumerate() {
        assert!(v >= 0.0 && v <= 1.0, "coherence2[{}] = {} out of [0,1]", i, v);
    }

    assert!(
        coherence2[0] < 0.95,
        "singleton cluster coherence should decrease slightly due to inter-cluster transfer, got {}",
        coherence2[0]
    );
}

#[test]
fn clusters_take_their_members_in_order() {
    let mut mixer = HierarchicalMixer::new(test_config());
    // cluster 7 does not exist: its contexts are left out
    mixer.update_clusters(&[1, 0, 1, 7, 0, 1], 2);
    assert_eq!(mixer.num_clusters, 2);
    assert_eq!(mixer.clusters.len(), 2);
    assert_eq!(members(&mixer, 0), vec![1, 4]);
    assert_eq!(members(&mixer, 1), vec![0, 2, 5]);
    assert_eq!(mixer.clusters[0].cluster_id, 0);
    assert_eq!(mixer.clusters[1].size, 3);
    assert!(!mixer.in_transition);
    // identity on the three members, zero elsewhere
    let projected = &mixer.clusters[1].intra_mix_projected;
    assert_eq!(projected.len(), 128 * 128);
    for i in 0..5 {
        for j in 0..5 {
            let expect = if i == j && i < 3 { 1_000_000 } else { 0 };
            assert_eq!(projected[i * 128 + j], expect);
        }
    }
    assert_eq!(mixer.inter_mix_projected[0], 1_000_000);
    assert_eq!(mixer.inter_mix_projected[33], 1_000_000);
    assert_eq!(mixer.inter_mix_projected[66], 0);
    // no more than 32 clusters, no more than 128 members
    let many = [0u16; 200];
    mixer.update_clusters(&many, 40);
    assert_eq!(mixer.num_clusters, 32);
    assert_eq!(mixer.clusters[0].size, 128);
    assert_eq!(members(&mixer, 0), (0..128).collect::<Vec<usize>>());
    assert_eq!(mixer.clusters[1].size, 0);
    assert!(mixer.in_transition);
}

#[test]
fn five_steps_exact_values() {
    let mut mixer = HierarchicalMixer::new(test_config());
    mixer.update_clusters(&[0, 0, 1], 2);
    // within cluster 0 the two members are averaged
    mixer.update_intra_params(0, &[500_000; 4]);
    mixer.reproject_all();
    let mut values = vec![200_000u32, 600_000, 900_000];
    mixer.apply(&mut values, &[1, 3, 1]);
    assert_eq!(values, vec![400_000, 400_000, 900_000]);

    // between the clusters the means are averaged: 0.4 and 0.9 meet at 0.65
    mixer.update_inter_params(&[500_000; 4]);
    mixer.reproject_all();
    let mut values = vec![200_000u32, 600_000, 900_000];
    mixer.apply(&mut values, &[1, 3, 1]);
    // cluster 0 rises by 0.25, a quarter of it to the first member and
    // three quarters to the second; cluster 1 sinks by 0.25
    assert_eq!(values, vec![462_500, 587_500, 650_000]);

    // without counts the change is shared equally
    let mut values = vec![200_000u32, 600_000, 900_000];
    mixer.apply(&mut values, &[0, 0, 0]);
    assert_eq!(values, vec![525_000, 525_000, 650_000]);

    // values beyond the members are not touched, members beyond the values are left out
    let mut values = vec![200_000u32];
    mixer.apply(&mut values, &[1]);
    assert_eq!(values.len(), 1);
    assert!(values[0] <= 1_000_000);
}

#[test]
fn transition_blends_old_and_new() {
    let mut mixer = HierarchicalMixer::new(test_config());
    mixer.update_clusters(&[0, 0], 1);
    mixer.update_intra_params(0, &[500_000; 4]);
    mixer.reproject_all();
    assert!(!mixer.in_transition);
    assert!(!mixer.tick_transition());

    // the new structure keeps the two contexts apart
    mixer.update_clusters(&[0, 1], 2);
    assert!(mixer.in_transition);
    assert_eq!(mixer.transition_tick, 0);

    // at the start of the transition the old structure decides
    let mut values = vec![200_000u32, 600_000];
    mixer.apply(&mut values, &[1, 1]);
    assert_eq!(values, vec![400_000, 400_000]);

    // after four of ten ticks: 0.6 old and 0.4 new
    for _ in 0..4 {
        assert!(mixer.tick_transition());
    }
    assert_eq!(mixer.transition_tick, 4);
    let mut values = vec![200_000u32, 600_000];
    mixer.apply(&mut values, &[1, 1]);
    assert_eq!(values, vec![320_000, 480_000]);

    // the tenth tick ends the transition
    for _ in 0..5 {
        assert!(mixer.tick_transition());
    }
    assert!(!mixer.tick_transition());
    assert!(!mixer.in_transition);
    assert_eq!(mixer.transition_tick, 0);
    assert!(mixer.old_clusters.is_none());
    assert!(mixer.old_inter_mix.is_none());
    let mut values = vec![200_000u32, 600_000];
    mixer.apply(&mut values, &[1, 1]);
    assert_eq!(values, vec![200_000, 600_000]);
}

#[test]
fn raw_parameters_are_projected() {
    let mut mixer = HierarchicalMixer::new(test_config());
    mixer.update_clusters(&[0, 0], 1);
    mixer.update_intra_params(0, &[1_000_000, 3_000_000, 2_000_000, 2_000_000]);
    assert!(mixer.clusters[0].projected_dirty);
    assert_eq!(mixer.clusters[0].intra_mix_raw[0], 1_000_000);
    assert_eq!(mixer.clusters[0].intra_mix_raw[1], 3_000_000);
    assert_eq!(mixer.clusters[0].intra_mix_raw[128], 2_000_000);
    // the projection is not touched until it is asked for
    assert_eq!(mixer.clusters[0].intra_mix_projected[1], 0);
    // a cluster that does not exist is no cluster to update
    mixer.update_intra_params(9, &[7; 4]);
    mixer.reproject_all();
    assert!(!mixer.clusters[0].projected_dirty);
    let p = &mixer.clusters[0].intra_mix_projected;
    let rows = [p[0] + p[1], p[128] + p[129]];
    let cols = [p[0] + p[128], p[1] + p[129]];
    for sum in rows.iter().chain(cols.iter()) {
        assert!((*sum as i64 - 1_000_000).abs() <= 2, "sum = {}", sum);
    }
    // the padding is the identity
    assert_eq!(p[2 * 128 + 2], 1_000_000);
    assert_eq!(p[2 * 128 + 3], 0);
    assert_eq!(p[2], 0);

    let mut strategy = MixingStrategy::select(100, test_config());
    if let Some(inner) = strategy.hierarchical_mut() {
        inner.update_clusters(&[0], 1);
    }
    assert_eq!(strategy.hierarchical().map(|m| m.num_clusters), Some(1));
}

#[test]
fn well_formedness_is_decided() {
    let mut mixer = HierarchicalMixer::new(test_config());
    assert!(mixer.is_well_formed());
    mixer.update_clusters(&[0, 1, 1], 2);
    mixer.update_clusters(&[0, 0, 1], 2);
    assert!(mixer.is_well_formed());
    assert!(mixer.clusters[1].is_well_formed());

    let mut miscounted = mixer.clone();
    miscounted.num_clusters = 3;
    assert!(!miscounted.is_well_formed());

    let mut wrong_size = mixer.clone();
    wrong_size.clusters[0].size = 1;
    assert!(!wrong_size.clusters[0].is_well_formed());
    assert!(!wrong_size.is_well_formed());

    let mut short_matrix = mixer.clone();
    short_matrix.clusters[1].intra_mix_projected.pop();
    assert!(!short_matrix.is_well_formed());

    let mut bad_record = mixer.clone();
    if let Some(kept) = bad_record.old_clusters.as_mut() {
        kept[0].intra_mix_raw.clear();
    }
    assert!(!bad_record.is_well_formed());
}
