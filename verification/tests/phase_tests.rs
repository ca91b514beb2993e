use ccf_core::phase::{permeability, NarrationDepth, Personality, PhaseSpace, SocialPhase};

/// A quantity of the unit interval in parts per million.
fn ppm(x: f64) -> u32 {
    (x * 1_000_000.0).round() as u32
}

/// A fixed-point quantity as a float.
fn unit(v: u32) -> f64 {
    v as f64 / 1_000_000.0
}

const EPSILON: f64 = f32::EPSILON as f64;

// ── Personality ─────────────────────────────────────────────────────────────

#[test]
fn test_personality_new_mid_range() {
    let p = Personality::new();
    assert!((unit(p.curiosity_drive) - 0.5).abs() < EPSILON);
    assert!((unit(p.startle_sensitivity) - 0.5).abs() < EPSILON);
    assert!((unit(p.recovery_speed) - 0.5).abs() < EPSILON);
    assert_eq!(Personality::default(), p);
}

#[test]
fn test_personality_modulate_coherence_gain() {
    let p = Personality {
        curiosity_drive: ppm(0.5),
        startle_sensitivity: ppm(0.5),
        recovery_speed: ppm(0.9),
    };
    let result = p.modulate_coherence_gain(ppm(0.02));
    assert!((result as f64 / 1_000_000.0 - 0.02 * 1.4).abs() < EPSILON, "got {}", result);
    assert_eq!(result, 28_000);
}

#[test]
fn test_personality_modulate_startle_drop() {
    let p = Personality {
        curiosity_drive: ppm(0.5),
        startle_sensitivity: ppm(0.1),
        recovery_speed: ppm(0.5),
    };
    let result = p.modulate_startle_drop(ppm(0.05));
    assert!((result as f64 / 1_000_000.0 - 0.05 * 0.6).abs() < EPSILON, "got {}", result);
    assert_eq!(result, 30_000);
}

#[test]
fn modulation_has_room_for_the_largest_inputs() {
    let p = Personality { curiosity_drive: 0, startle_sensitivity: u32::MAX, recovery_speed: u32::MAX };
    assert_eq!(p.modulate_coherence_gain(u32::MAX), 18_448_891_548_767);
    assert_eq!(p.modulate_startle_drop(u32::MAX), 18_448_891_548_767);
    assert_eq!(p.modulate_startle_drop(0), 0);
}

// ── PhaseSpace ──────────────────────────────────────────────────────────────

#[test]
fn test_phase_space_default_values() {
    let ps = PhaseSpace::default();
    assert!((unit(ps.coherence_high_enter) - 0.65).abs() < EPSILON);
    assert!((unit(ps.coherence_high_exit) - 0.55).abs() < EPSILON);
    assert!((unit(ps.tension_high_enter) - 0.45).abs() < EPSILON);
    assert!((unit(ps.tension_high_exit) - 0.35).abs() < EPSILON);
    assert_eq!(PhaseSpace::new(), ps);
}

// ── SocialPhase classification ──────────────────────────────────────────────

#[test]
fn test_social_phase_shy_observer() {
    let ps = PhaseSpace::default();
    let phase = SocialPhase::classify(ppm(0.1), ppm(0.1), SocialPhase::ShyObserver, &ps);
    assert_eq!(phase, SocialPhase::ShyObserver);
}

#[test]
fn test_social_phase_quietly_beloved() {
    let ps = PhaseSpace::default();
    let phase = SocialPhase::classify(ppm(0.8), ppm(0.1), SocialPhase::ShyObserver, &ps);
    assert_eq!(phase, SocialPhase::QuietlyBeloved);
}

#[test]
fn test_social_phase_startled_retreat() {
    let ps = PhaseSpace::default();
    let phase = SocialPhase::classify(ppm(0.1), ppm(0.7), SocialPhase::ShyObserver, &ps);
    assert_eq!(phase, SocialPhase::StartledRetreat);
}

#[test]
fn test_social_phase_protective_guardian() {
    let ps = PhaseSpace::default();
    let phase = SocialPhase::classify(ppm(0.8), ppm(0.7), SocialPhase::ShyObserver, &ps);
    assert_eq!(phase, SocialPhase::ProtectiveGuardian);
}

#[test]
fn test_social_phase_hysteresis_coherence() {
    let ps = PhaseSpace::default();

    let phase = SocialPhase::classify(ppm(0.66), ppm(0.1), SocialPhase::ShyObserver, &ps);
    assert_eq!(phase, SocialPhase::QuietlyBeloved);

    let phase = SocialPhase::classify(ppm(0.56), ppm(0.1), SocialPhase::QuietlyBeloved, &ps);
    assert_eq!(phase, SocialPhase::QuietlyBeloved);

    let phase = SocialPhase::classify(ppm(0.54), ppm(0.1), SocialPhase::QuietlyBeloved, &ps);
    assert_eq!(phase, SocialPhase::ShyObserver);
}

#[test]
fn test_social_phase_hysteresis_tension() {
    let ps = PhaseSpace::default();

    let phase = SocialPhase::classify(ppm(0.1), ppm(0.46), SocialPhase::ShyObserver, &ps);
    assert_eq!(phase, SocialPhase::StartledRetreat);

    let phase = SocialPhase::classify(ppm(0.1), ppm(0.36), SocialPhase::StartledRetreat, &ps);
    assert_eq!(phase, SocialPhase::StartledRetreat);

    let phase = SocialPhase::classify(ppm(0.1), ppm(0.34), SocialPhase::StartledRetreat, &ps);
    assert_eq!(phase, SocialPhase::ShyObserver);
}

#[test]
fn test_custom_thresholds_stricter() {
    let strict = PhaseSpace {
        coherence_high_enter: ppm(0.80),
        coherence_high_exit: ppm(0.70),
        ..PhaseSpace::default()
    };

    let phase = SocialPhase::classify(ppm(0.70), ppm(0.1), SocialPhase::ShyObserver, &strict);
    assert_eq!(
        phase,
        SocialPhase::ShyObserver,
        "coherence 0.70 should NOT enter QB with strict threshold 0.80"
    );

    let phase = SocialPhase::classify(ppm(0.85), ppm(0.1), SocialPhase::ShyObserver, &strict);
    assert_eq!(
        phase,
        SocialPhase::QuietlyBeloved,
        "coherence 0.85 should enter QB with strict threshold 0.80"
    );

    let phase = SocialPhase::classify(ppm(0.75), ppm(0.1), SocialPhase::QuietlyBeloved, &strict);
    assert_eq!(
        phase,
        SocialPhase::QuietlyBeloved,
        "coherence 0.75 should stay in QB (above exit 0.70)"
    );

    let phase = SocialPhase::classify(ppm(0.65), ppm(0.1), SocialPhase::QuietlyBeloved, &strict);
    assert_eq!(
        phase,
        SocialPhase::ShyObserver,
        "coherence 0.65 should exit QB (below exit 0.70)"
    );
}

#[test]
fn test_custom_thresholds_looser() {
    let loose = PhaseSpace {
        coherence_high_enter: ppm(0.40),
        coherence_high_exit: ppm(0.30),
        ..PhaseSpace::default()
    };

    let phase = SocialPhase::classify(ppm(0.42), ppm(0.1), SocialPhase::ShyObserver, &loose);
    assert_eq!(
        phase,
        SocialPhase::QuietlyBeloved,
        "coherence 0.42 should enter QB with loose threshold 0.40"
    );

    let ps = PhaseSpace::default();
    let phase = SocialPhase::classify(ppm(0.42), ppm(0.1), SocialPhase::ShyObserver, &ps);
    assert_eq!(
        phase,
        SocialPhase::ShyObserver,
        "coherence 0.42 should NOT enter QB with default threshold 0.65"
    );
}

#[test]
fn test_full_quadrant_sweep_with_default_thresholds() {
    let ps = PhaseSpace::default();

    let cases: &[(f64, f64, SocialPhase, SocialPhase)] = &[
        (0.1, 0.1, SocialPhase::ShyObserver, SocialPhase::ShyObserver),
        (0.8, 0.1, SocialPhase::ShyObserver, SocialPhase::QuietlyBeloved),
        (0.1, 0.7, SocialPhase::ShyObserver, SocialPhase::StartledRetreat),
        (0.8, 0.7, SocialPhase::ShyObserver, SocialPhase::ProtectiveGuardian),
        (0.56, 0.1, SocialPhase::QuietlyBeloved, SocialPhase::QuietlyBeloved),
        (0.54, 0.1, SocialPhase::QuietlyBeloved, SocialPhase::ShyObserver),
        (0.1, 0.36, SocialPhase::StartledRetreat, SocialPhase::StartledRetreat),
        (0.1, 0.34, SocialPhase::StartledRetreat, SocialPhase::ShyObserver),
    ];

    for &(coh, ten, prev, expected) in cases {
        let result = SocialPhase::classify(ppm(coh), ppm(ten), prev, &ps);
        assert_eq!(
            result, expected,
            "coh={} ten={} prev={:?}: got {:?}, expected {:?}",
            coh, ten, prev, result, expected
        );
    }
}

#[test]
fn hysteresis_scenario_from_shy_observer() {
    let ps = PhaseSpace::default();
    let first = SocialPhase::classify(ppm(0.66), ppm(0.1), SocialPhase::ShyObserver, &ps);
    assert_eq!(first, SocialPhase::QuietlyBeloved);
    let second = SocialPhase::classify(ppm(0.60), ppm(0.1), first, &ps);
    assert_eq!(second, SocialPhase::QuietlyBeloved);
    let third = SocialPhase::classify(ppm(0.54), ppm(0.1), second, &ps);
    assert_eq!(third, SocialPhase::ShyObserver);
    // from the low side 0.60 does not reach the enter threshold
    let fourth = SocialPhase::classify(ppm(0.60), ppm(0.1), third, &ps);
    assert_eq!(fourth, SocialPhase::ShyObserver);
}

#[test]
fn thresholds_are_inclusive() {
    let ps = PhaseSpace::default();
    assert_eq!(
        SocialPhase::classify(650_000, 0, SocialPhase::ShyObserver, &ps),
        SocialPhase::QuietlyBeloved
    );
    assert_eq!(
        SocialPhase::classify(649_999, 0, SocialPhase::ShyObserver, &ps),
        SocialPhase::ShyObserver
    );
    assert_eq!(
        SocialPhase::classify(550_000, 350_000, SocialPhase::ProtectiveGuardian, &ps),
        SocialPhase::ProtectiveGuardian
    );
    assert_eq!(
        SocialPhase::classify(549_999, 349_999, SocialPhase::ProtectiveGuardian, &ps),
        SocialPhase::ShyObserver
    );
    assert_eq!(
        SocialPhase::classify(0, 450_000, SocialPhase::QuietlyBeloved, &ps),
        SocialPhase::StartledRetreat
    );
}

#[test]
fn test_expression_scale_ordering() {
    assert!(
        SocialPhase::QuietlyBeloved.expression_scale()
            > SocialPhase::ProtectiveGuardian.expression_scale()
    );
    assert!(
        SocialPhase::ProtectiveGuardian.expression_scale()
            > SocialPhase::ShyObserver.expression_scale()
    );
    assert!(
        SocialPhase::ShyObserver.expression_scale() > SocialPhase::StartledRetreat.expression_scale()
    );
}

#[test]
fn test_led_tint_distinct() {
    let so = SocialPhase::ShyObserver.led_tint();
    let sr = SocialPhase::StartledRetreat.led_tint();
    let qb = SocialPhase::QuietlyBeloved.led_tint();
    let pg = SocialPhase::ProtectiveGuardian.led_tint();
    assert_ne!(so, sr);
    assert_ne!(so, qb);
    assert_ne!(so, pg);
    assert_ne!(sr, qb);
    assert_ne!(sr, pg);
    assert_ne!(qb, pg);
}

#[test]
fn led_tint_exact_values() {
    assert_eq!(SocialPhase::ShyObserver.led_tint(), [40, 40, 80]);
    assert_eq!(SocialPhase::StartledRetreat.led_tint(), [80, 20, 20]);
    assert_eq!(SocialPhase::QuietlyBeloved.led_tint(), [60, 120, 200]);
    assert_eq!(SocialPhase::ProtectiveGuardian.led_tint(), [200, 100, 0]);
}

// ── Permeability ────────────────────────────────────────────────────────────

#[test]
fn test_permeability_shy_observer_range() {
    let p_zero = permeability(ppm(0.0), ppm(0.3), SocialPhase::ShyObserver);
    assert!((unit(p_zero) - 0.0).abs() < EPSILON, "got {}", p_zero);

    let p_max = permeability(ppm(1.0), ppm(0.3), SocialPhase::ShyObserver);
    assert!((unit(p_max) - 0.3).abs() < EPSILON, "got {}", p_max);

    let p_mid = permeability(ppm(0.5), ppm(0.3), SocialPhase::ShyObserver);
    assert!((unit(p_mid) - 0.15).abs() < EPSILON, "got {}", p_mid);
}

#[test]
fn test_permeability_startled_retreat_fixed() {
    for coh in &[0.0_f64, 0.25, 0.5, 0.75, 1.0] {
        for ten in &[0.0_f64, 0.5, 1.0] {
            let p = permeability(ppm(*coh), ppm(*ten), SocialPhase::StartledRetreat);
            assert!(
                (unit(p) - 0.1).abs() < EPSILON,
                "SR should always be 0.1, got {} at coh={} ten={}",
                p,
                coh,
                ten
            );
        }
    }
}

#[test]
fn test_permeability_quietly_beloved_range() {
    let p_zero = permeability(ppm(0.0), ppm(0.3), SocialPhase::QuietlyBeloved);
    assert!((unit(p_zero) - 0.5).abs() < EPSILON, "got {}", p_zero);

    let p_max = permeability(ppm(1.0), ppm(0.3), SocialPhase::QuietlyBeloved);
    assert!((unit(p_max) - 1.0).abs() < EPSILON, "got {}", p_max);

    let p_mid = permeability(ppm(0.5), ppm(0.3), SocialPhase::QuietlyBeloved);
    assert!((unit(p_mid) - 0.75).abs() < EPSILON, "got {}", p_mid);
}

#[test]
fn test_permeability_protective_guardian_range() {
    let p_zero = permeability(ppm(0.0), ppm(0.3), SocialPhase::ProtectiveGuardian);
    assert!((unit(p_zero) - 0.4).abs() < EPSILON, "got {}", p_zero);

    let p_max = permeability(ppm(1.0), ppm(0.3), SocialPhase::ProtectiveGuardian);
    assert!((unit(p_max) - 0.6).abs() < EPSILON, "got {}", p_max);

    let p_mid = permeability(ppm(0.5), ppm(0.3), SocialPhase::ProtectiveGuardian);
    assert!((unit(p_mid) - 0.5).abs() < EPSILON, "got {}", p_mid);
}

#[test]
fn test_permeability_ordering() {
    let coh = ppm(0.7);
    let ten = ppm(0.3);
    let qb = permeability(coh, ten, SocialPhase::QuietlyBeloved);
    let pg = permeability(coh, ten, SocialPhase::ProtectiveGuardian);
    let so = permeability(coh, ten, SocialPhase::ShyObserver);
    let sr = permeability(coh, ten, SocialPhase::StartledRetreat);

    assert!(qb > pg, "QB({}) should be > PG({})", qb, pg);
    assert!(pg > so, "PG({}) should be > SO({})", pg, so);
    assert!(so > sr, "SO({}) should be > SR({})", so, sr);
}

#[test]
fn test_expression_scale_matches_permeability() {
    let qb = SocialPhase::QuietlyBeloved.expression_scale();
    let pg = SocialPhase::ProtectiveGuardian.expression_scale();
    let so = SocialPhase::ShyObserver.expression_scale();
    let sr = SocialPhase::StartledRetreat.expression_scale();

    assert_eq!(qb, permeability(ppm(0.5), ppm(0.3), SocialPhase::QuietlyBeloved));
    assert_eq!(pg, permeability(ppm(0.5), ppm(0.3), SocialPhase::ProtectiveGuardian));
    assert_eq!(so, permeability(ppm(0.5), ppm(0.3), SocialPhase::ShyObserver));
    assert_eq!(sr, permeability(ppm(0.5), ppm(0.3), SocialPhase::StartledRetreat));
}

#[test]
fn permeability_exact_values() {
    assert_eq!(permeability(700_000, 0, SocialPhase::ShyObserver), 210_000);
    assert_eq!(permeability(700_000, 0, SocialPhase::StartledRetreat), 100_000);
    assert_eq!(permeability(700_000, 0, SocialPhase::QuietlyBeloved), 850_000);
    assert_eq!(permeability(700_000, 0, SocialPhase::ProtectiveGuardian), 540_000);
    assert_eq!(permeability(7, 900_000, SocialPhase::ShyObserver), 2);
    assert_eq!(permeability(u32::MAX, 0, SocialPhase::ShyObserver), 1_288_490_188);
}

// ── NarrationDepth ──────────────────────────────────────────────────────────

#[test]
fn test_narration_depth_thresholds() {
    assert_eq!(NarrationDepth::from_permeability(ppm(0.0)), NarrationDepth::Silent);
    assert_eq!(NarrationDepth::from_permeability(ppm(0.19)), NarrationDepth::Silent);
    assert_eq!(NarrationDepth::from_permeability(ppm(0.2)), NarrationDepth::Minimal);
    assert_eq!(NarrationDepth::from_permeability(ppm(0.39)), NarrationDepth::Minimal);
    assert_eq!(NarrationDepth::from_permeability(ppm(0.4)), NarrationDepth::Brief);
    assert_eq!(NarrationDepth::from_permeability(ppm(0.59)), NarrationDepth::Brief);
    assert_eq!(NarrationDepth::from_permeability(ppm(0.6)), NarrationDepth::Full);
    assert_eq!(NarrationDepth::from_permeability(ppm(0.79)), NarrationDepth::Full);
    assert_eq!(NarrationDepth::from_permeability(ppm(0.8)), NarrationDepth::Deep);
    assert_eq!(NarrationDepth::from_permeability(ppm(1.0)), NarrationDepth::Deep);
}

#[test]
fn test_narration_depth_matches_quadrants() {
    assert_eq!(
        NarrationDepth::from_permeability(permeability(ppm(1.0), ppm(0.3), SocialPhase::ShyObserver)),
        NarrationDepth::Minimal
    );
    assert_eq!(
        NarrationDepth::from_permeability(permeability(
            ppm(0.5),
            ppm(0.5),
            SocialPhase::StartledRetreat
        )),
        NarrationDepth::Silent
    );
    assert_eq!(
        NarrationDepth::from_permeability(permeability(
            ppm(1.0),
            ppm(0.1),
            SocialPhase::QuietlyBeloved
        )),
        NarrationDepth::Deep
    );
    assert_eq!(
        NarrationDepth::from_permeability(permeability(
            ppm(0.5),
            ppm(0.5),
            SocialPhase::ProtectiveGuardian
        )),
        NarrationDepth::Brief
    );
}

#[test]
fn narration_bands_at_their_edges() {
    assert_eq!(NarrationDepth::from_permeability(199_999), NarrationDepth::Silent);
    assert_eq!(NarrationDepth::from_permeability(200_000), NarrationDepth::Minimal);
    assert_eq!(NarrationDepth::from_permeability(399_999), NarrationDepth::Minimal);
    assert_eq!(NarrationDepth::from_permeability(599_999), NarrationDepth::Brief);
    assert_eq!(NarrationDepth::from_permeability(799_999), NarrationDepth::Full);
    assert_eq!(NarrationDepth::from_permeability(u32::MAX), NarrationDepth::Deep);
}

#[test]
fn inverted_thresholds_are_taken_as_given() {
    // enter below exit: a misconfiguration that the classifier does not reject
    let ps = PhaseSpace {
        coherence_high_enter: ppm(0.4),
        coherence_high_exit: ppm(0.6),
        tension_high_enter: ppm(0.2),
        tension_high_exit: ppm(0.8),
    };
    let up = SocialPhase::classify(ppm(0.5), ppm(0.5), SocialPhase::ShyObserver, &ps);
    assert_eq!(up, SocialPhase::ProtectiveGuardian);
    // from the high side the same reading is below both exit thresholds
    let down = SocialPhase::classify(ppm(0.5), ppm(0.5), up, &ps);
    assert_eq!(down, SocialPhase::ShyObserver);
}

#[test]
fn readings_beyond_the_unit_interval_are_classified() {
    let ps = PhaseSpace::default();
    assert_eq!(
        SocialPhase::classify(u32::MAX, u32::MAX, SocialPhase::ShyObserver, &ps),
        SocialPhase::ProtectiveGuardian
    );
    assert_eq!(
        SocialPhase::classify(0, 0, SocialPhase::ProtectiveGuardian, &ps),
        SocialPhase::ShyObserver
    );
}
