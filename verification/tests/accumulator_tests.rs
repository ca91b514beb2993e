use ccf_core::accumulator::{CoherenceAccumulator, CoherenceField, Interaction, MAX_CONTEXTS};
use ccf_core::mbot::{
    BrightnessBand, MbotSensors, MotionContext, NoiseBand, Orientation, PresenceSignature,
    TimePeriod,
};
use ccf_core::phase::{Personality, PhaseSpace, SocialPhase};
use ccf_core::vocabulary::ContextKey;

/// A quantity of the unit interval in parts per million.
fn ppm(x: f64) -> u32 {
    (x * 1_000_000.0).round() as u32
}

/// A fixed-point quantity as a float.
fn unit(v: u32) -> f64 {
    v as f64 / 1_000_000.0
}

fn make_key(
    brightness: BrightnessBand,
    noise: NoiseBand,
    presence: PresenceSignature,
) -> ContextKey<MbotSensors, 6> {
    ContextKey::new(MbotSensors {
        brightness,
        noise,
        presence,
        motion: MotionContext::Static,
        orientation: Orientation::Upright,
        time_period: TimePeriod::Day,
    })
}

fn bright_quiet_static() -> ContextKey<MbotSensors, 6> {
    make_key(BrightnessBand::Bright, NoiseBand::Quiet, PresenceSignature::Absent)
}

fn dark_loud_close() -> ContextKey<MbotSensors, 6> {
    make_key(BrightnessBand::Dark, NoiseBand::Loud, PresenceSignature::Close)
}

fn neutral_personality() -> Personality {
    Personality {
        curiosity_drive: ppm(0.5),
        startle_sensitivity: ppm(0.5),
        recovery_speed: ppm(0.5),
    }
}

/// The `i`-th of the 486 snapshots of the reference vocabulary.
fn nth_key(i: usize) -> ContextKey<MbotSensors, 6> {
    let brightness = [BrightnessBand::Dark, BrightnessBand::Dim, BrightnessBand::Bright][i % 3];
    let noise = [NoiseBand::Quiet, NoiseBand::Moderate, NoiseBand::Loud][(i / 3) % 3];
    let presence =
        [PresenceSignature::Absent, PresenceSignature::Far, PresenceSignature::Close][(i / 9) % 3];
    let motion = [MotionContext::Static, MotionContext::Slow, MotionContext::Fast][(i / 27) % 3];
    let orientation = [Orientation::Upright, Orientation::Tilted][(i / 81) % 2];
    let time_period = [TimePeriod::Day, TimePeriod::Evening, TimePeriod::Night][(i / 162) % 3];
    ContextKey::new(MbotSensors { brightness, noise, presence, motion, orientation, time_period })
}

// ── CoherenceAccumulator ────────────────────────────────────────────────────

#[test]
fn test_accumulator_positive_growth() {
    let mut acc = CoherenceAccumulator::new();
    assert_eq!(acc.value, 0);

    for i in 0..50 {
        acc.positive_interaction(ppm(0.5), i, false);
    }
    assert!(unit(acc.value) > 0.3, "value={}", acc.value);
    assert!(unit(acc.value) < 1.0);
    assert_eq!(acc.interaction_count, 50);
}

#[test]
fn test_accumulator_asymptotic_growth() {
    let mut acc = CoherenceAccumulator::new();
    for i in 0..500 {
        acc.positive_interaction(ppm(0.5), i, false);
    }
    let high_value = acc.value;
    for i in 500..510 {
        acc.positive_interaction(ppm(0.5), i, false);
    }
    let delta = unit(acc.value) - unit(high_value);
    assert!(delta < 0.01, "delta should be small at high values: {}", delta);
}

#[test]
fn test_accumulator_personality_modulation() {
    let mut fast = CoherenceAccumulator::new();
    let mut slow = CoherenceAccumulator::new();

    for i in 0..20 {
        fast.positive_interaction(ppm(0.9), i, false);
        slow.positive_interaction(ppm(0.1), i, false);
    }
    assert!(fast.value > slow.value, "fast={} should be > slow={}", fast.value, slow.value);
}

#[test]
fn test_accumulator_negative_interaction() {
    let mut acc = CoherenceAccumulator::new();
    for i in 0..30 {
        acc.positive_interaction(ppm(0.5), i, false);
    }
    let before = acc.value;
    acc.negative_interaction(ppm(0.5), 31);
    assert!(acc.value < before);
}

#[test]
fn test_accumulator_earned_floor() {
    let mut acc = CoherenceAccumulator::new();
    for i in 0..100 {
        acc.positive_interaction(ppm(0.5), i, false);
    }
    let before = acc.value;
    for i in 100..200 {
        acc.negative_interaction(ppm(1.0), i);
    }
    assert!(unit(acc.value) > 0.3, "value={} should be above earned floor", acc.value);
    assert!(acc.value < before);
}

#[test]
fn test_accumulator_decay_toward_floor() {
    let mut acc = CoherenceAccumulator::new();
    for i in 0..50 {
        acc.positive_interaction(ppm(0.5), i, false);
    }
    let before = acc.value;
    acc.decay(1000);
    assert!(acc.value < before);
    let floor = 0.5 * (1.0 - 1.0 / (1.0 + 50.0 / 20.0));
    assert!(
        unit(acc.value) >= floor - 0.000_001,
        "value={} should be >= floor={}",
        acc.value,
        floor
    );
}

#[test]
fn test_cold_start_baseline() {
    let acc = CoherenceAccumulator::new_with_baseline(ppm(1.0));
    assert!((unit(acc.value) - 0.15).abs() < 0.001, "value={}", acc.value);

    let acc = CoherenceAccumulator::new_with_baseline(ppm(0.2));
    assert!((unit(acc.value) - 0.03).abs() < 0.001, "value={}", acc.value);

    let acc = CoherenceAccumulator::new_with_baseline(ppm(0.0));
    assert_eq!(acc.value, 0);
}

#[test]
fn test_alone_boost() {
    let mut alone_acc = CoherenceAccumulator::new();
    let mut social_acc = CoherenceAccumulator::new();

    for i in 0..20 {
        alone_acc.positive_interaction(ppm(0.5), i, true);
        social_acc.positive_interaction(ppm(0.5), i, false);
    }

    assert!(
        alone_acc.value > social_acc.value,
        "alone={} should be > social={}",
        alone_acc.value,
        social_acc.value
    );
}

#[test]
fn test_accumulator_value_bounded() {
    let acc = CoherenceAccumulator::new_with_baseline(ppm(2.0));
    assert!(unit(acc.value) >= 0.0 && unit(acc.value) <= 1.0, "value={}", acc.value);

    let mut acc = CoherenceAccumulator::new_with_baseline(ppm(0.5));
    for i in 0..1000 {
        acc.positive_interaction(ppm(1.0), i, true);
    }
    assert!(unit(acc.value) <= 1.0, "value={}", acc.value);
}

// ── CoherenceField ──────────────────────────────────────────────────────────

#[test]
fn test_coherence_field_effective_coherence_unfamiliar() {
    let mut field: CoherenceField<MbotSensors, 6> = CoherenceField::new();
    let key = bright_quiet_static();

    let eff = field.effective_coherence(ppm(0.8), &key);
    assert_eq!(eff, 0);

    {
        let acc = field.get_or_create(&key);
        for i in 0..10 {
            acc.positive_interaction(ppm(0.5), i, false);
        }
    }
    let ctx_coh = field.context_coherence(&key);
    assert!(ctx_coh > 0);
    assert!(unit(ctx_coh) < 0.3, "ctx_coh={} should be < 0.3 for unfamiliar test", ctx_coh);

    let eff = field.effective_coherence(ppm(0.8), &key);
    assert!((unit(eff) - unit(ctx_coh)).abs() < 0.001);

    let eff = field.effective_coherence(ppm(0.05), &key);
    assert!((unit(eff) - 0.05).abs() < 0.001);
}

#[test]
fn test_coherence_field_effective_coherence_familiar() {
    let mut field: CoherenceField<MbotSensors, 6> = CoherenceField::new();
    let key = bright_quiet_static();

    {
        let acc = field.get_or_create(&key);
        for i in 0..80 {
            acc.positive_interaction(ppm(0.5), i, false);
        }
    }
    let ctx_coh = field.context_coherence(&key);
    assert!(unit(ctx_coh) >= 0.3, "ctx_coh={} should be >= 0.3 for familiar test", ctx_coh);

    let eff = field.effective_coherence(ppm(0.8), &key);
    let expected = 0.3 * 0.8 + 0.7 * unit(ctx_coh);
    assert!((unit(eff) - expected).abs() < 0.001, "eff={} expected={}", eff, expected);

    let eff_low = field.effective_coherence(ppm(0.1), &key);
    let expected_low = 0.3 * 0.1 + 0.7 * unit(ctx_coh);
    assert!(
        (unit(eff_low) - expected_low).abs() < 0.001,
        "eff_low={} expected_low={}",
        eff_low,
        expected_low
    );
    assert!(unit(eff_low) > 0.1, "familiar context should buffer: eff_low={}", eff_low);
}

#[test]
fn test_coherence_field_independent_contexts() {
    let mut field: CoherenceField<MbotSensors, 6> = CoherenceField::new();
    let key_a = bright_quiet_static();
    let key_b = dark_loud_close();

    {
        let acc = field.get_or_create(&key_a);
        for i in 0..50 {
            acc.positive_interaction(ppm(0.5), i, false);
        }
    }

    assert!(unit(field.context_coherence(&key_a)) > 0.3);
    assert_eq!(field.context_coherence(&key_b), 0);
}

#[test]
fn test_coherence_field_interaction_via_personality() {
    let mut field: CoherenceField<MbotSensors, 6> = CoherenceField::new();
    let key = bright_quiet_static();
    let p = neutral_personality();

    for tick in 0..30 {
        field.positive_interaction(&key, &p, tick, false);
    }
    assert!(field.context_coherence(&key) > 0);

    let before = field.context_coherence(&key);
    field.negative_interaction(&key, &p, 30);
    assert!(field.context_coherence(&key) < before);
}

#[test]
fn test_coherence_field_eviction() {
    let mut field: CoherenceField<MbotSensors, 6> = CoherenceField::new();
    for i in 0..=MAX_CONTEXTS {
        let presence = if i % 2 == 0 { PresenceSignature::Absent } else { PresenceSignature::Close };
        let noise = if i % 3 == 0 {
            NoiseBand::Quiet
        } else if i % 3 == 1 {
            NoiseBand::Moderate
        } else {
            NoiseBand::Loud
        };
        let brightness = if i % 4 < 2 { BrightnessBand::Bright } else { BrightnessBand::Dark };
        let key = make_key(brightness, noise, presence);
        let acc = field.get_or_create(&key);
        acc.last_interaction_tick = i as u64;
    }
    assert!(field.context_count() <= MAX_CONTEXTS);
}

#[test]
fn test_coherence_field_decay_all() {
    let mut field: CoherenceField<MbotSensors, 6> = CoherenceField::new();
    let key = bright_quiet_static();

    {
        let acc = field.get_or_create(&key);
        for i in 0..50 {
            acc.positive_interaction(ppm(0.5), i, false);
        }
    }
    let before = field.context_coherence(&key);
    field.decay_all(1000);
    assert!(field.context_coherence(&key) < before, "coherence should decay");
}

#[test]
fn test_coherence_field_fallback() {
    let mut field: CoherenceField<MbotSensors, 6> = CoherenceField::new();
    let key = bright_quiet_static();

    assert_eq!(field.context_coherence(&key), 0);

    field.set_fallback(Some(ppm(0.4)));
    assert!((unit(field.context_coherence(&key)) - 0.4).abs() < 0.001);

    {
        let acc = field.get_or_create(&key);
        acc.value = ppm(0.6);
    }
    assert!((unit(field.context_coherence(&key)) - 0.6).abs() < 0.001);

    field.set_fallback(None);
    assert!((unit(field.context_coherence(&key)) - 0.6).abs() < 0.001);
}

#[test]
fn test_asymmetric_gate_noise_resilience() {
    let mut field: CoherenceField<MbotSensors, 6> = CoherenceField::new();
    let key = bright_quiet_static();

    {
        let acc = field.get_or_create(&key);
        for i in 0..100 {
            acc.positive_interaction(ppm(0.5), i, false);
        }
    }
    let ctx_coh = field.context_coherence(&key);
    assert!(unit(ctx_coh) >= 0.3, "should be familiar");

    let eff = field.effective_coherence(ppm(0.2), &key);
    assert!(unit(eff) > 0.2, "familiar context should buffer noise: eff={}", eff);
}

#[test]
fn test_asymmetric_gate_unfamiliar_strict() {
    let mut field: CoherenceField<MbotSensors, 6> = CoherenceField::new();
    let key = bright_quiet_static();

    {
        let acc = field.get_or_create(&key);
        for i in 0..5 {
            acc.positive_interaction(ppm(0.5), i, false);
        }
    }
    let ctx_coh = field.context_coherence(&key);
    assert!(unit(ctx_coh) < 0.3);

    let eff = field.effective_coherence(ppm(0.9), &key);
    assert!(
        (unit(eff) - unit(ctx_coh)).abs() < 0.001,
        "unfamiliar gate should cap at ctx: eff={} ctx={}",
        eff,
        ctx_coh
    );
}

#[test]
fn test_context_interaction_count() {
    let mut field: CoherenceField<MbotSensors, 6> = CoherenceField::new();
    let key = bright_quiet_static();
    let p = neutral_personality();

    assert_eq!(field.context_interaction_count(&key), 0);
    for tick in 0..5 {
        field.positive_interaction(&key, &p, tick, false);
    }
    assert_eq!(field.context_interaction_count(&key), 5);
}

#[test]
fn test_iter_and_context_count() {
    let mut field: CoherenceField<MbotSensors, 6> = CoherenceField::new();
    let key_a = bright_quiet_static();
    let key_b = dark_loud_close();
    let p = neutral_personality();

    field.positive_interaction(&key_a, &p, 0, false);
    field.positive_interaction(&key_b, &p, 1, false);

    assert_eq!(field.context_count(), 2);
    let count = field.iter().iter().count();
    assert_eq!(count, 2);
}

// ── Exact values of each formula ────────────────────────────────────────────

#[test]
fn positive_interaction_exact_values() {
    // 0.02 * (0.5 + 0.5) * (1 - 0) = 0.02
    let mut acc = CoherenceAccumulator::new();
    acc.positive_interaction(ppm(0.5), 7, false);
    assert_eq!(acc.value, 20_000);
    assert_eq!(acc.interaction_count, 1);
    assert_eq!(acc.last_interaction_tick, 7);
    // 0.02 * 1.0 * (1 - 0.02) = 0.0196
    acc.positive_interaction(ppm(0.5), 8, false);
    assert_eq!(acc.value, 39_600);
    // alone doubles: 0.04 * 1.2 * (1 - 0.0396) = 0.0460992, rounded down
    acc.positive_interaction(ppm(0.7), 9, true);
    assert_eq!(acc.value, 39_600 + 46_099);
    assert_eq!(acc.interaction_count, 3);
}

#[test]
fn earned_floor_exact_values() {
    let mut acc = CoherenceAccumulator::new();
    assert_eq!(acc.earned_floor(), 0);
    acc.interaction_count = 20;
    assert_eq!(acc.earned_floor(), 250_000);
    acc.interaction_count = 100;
    assert_eq!(acc.earned_floor(), 416_666);
    acc.interaction_count = 80;
    assert_eq!(acc.earned_floor(), 400_000);
    acc.interaction_count = u32::MAX;
    assert!(acc.earned_floor() < 500_000);
    assert!(acc.earned_floor() >= 499_999);
}

#[test]
fn negative_interaction_exact_values() {
    // 0.05 * (0.5 + 0.5) = 0.05
    let mut acc = CoherenceAccumulator { value: 800_000, interaction_count: 20, last_interaction_tick: 0 };
    acc.negative_interaction(ppm(0.5), 3);
    assert_eq!(acc.value, 750_000);
    assert_eq!(acc.interaction_count, 20);
    assert_eq!(acc.last_interaction_tick, 3);
    // the floor of 20 interactions is a quarter
    let mut acc = CoherenceAccumulator { value: 260_000, interaction_count: 20, last_interaction_tick: 0 };
    acc.negative_interaction(ppm(1.0), 4);
    assert_eq!(acc.value, 250_000);
    // a value below its floor is lifted to it
    let mut acc = CoherenceAccumulator { value: 20_000, interaction_count: 1, last_interaction_tick: 0 };
    acc.negative_interaction(ppm(0.5), 5);
    assert_eq!(acc.value, 23_809);
}

#[test]
fn decay_exact_values() {
    let mut acc = CoherenceAccumulator { value: 800_000, interaction_count: 20, last_interaction_tick: 9 };
    acc.decay(1000);
    assert_eq!(acc.value, 700_000);
    assert_eq!(acc.last_interaction_tick, 9);
    acc.decay(u64::MAX);
    assert_eq!(acc.value, 250_000);
    acc.decay(1);
    assert_eq!(acc.value, 250_000);
    // at or below the floor nothing happens
    let mut acc = CoherenceAccumulator { value: 100_000, interaction_count: 20, last_interaction_tick: 0 };
    acc.decay(500);
    assert_eq!(acc.value, 100_000);
}

#[test]
fn cold_start_exact_values() {
    assert_eq!(CoherenceAccumulator::new_with_baseline(1_000_000).value, 150_000);
    assert_eq!(CoherenceAccumulator::new_with_baseline(200_000).value, 30_000);
    assert_eq!(CoherenceAccumulator::new_with_baseline(u32::MAX).value, 1_000_000);
}

#[test]
fn out_of_range_state_is_brought_back() {
    let mut acc = CoherenceAccumulator { value: u32::MAX, interaction_count: 0, last_interaction_tick: 0 };
    acc.positive_interaction(u32::MAX, 1, true);
    assert_eq!(acc.value, 1_000_000);
    let mut acc = CoherenceAccumulator { value: u32::MAX, interaction_count: 0, last_interaction_tick: 0 };
    acc.negative_interaction(0, 1);
    assert_eq!(acc.value, 1_000_000);
    let mut acc = CoherenceAccumulator { value: u32::MAX, interaction_count: 0, last_interaction_tick: 0 };
    acc.decay(0);
    assert_eq!(acc.value, 1_000_000);
}

#[test]
fn apply_follows_the_three_operations() {
    let mut by_event = CoherenceAccumulator::new();
    let mut by_call = CoherenceAccumulator::new();
    by_event.apply(&Interaction::Positive { recovery_speed: 700_000, tick: 1, alone: true });
    by_call.positive_interaction(700_000, 1, true);
    assert_eq!(by_event, by_call);
    by_event.apply(&Interaction::Negative { startle_sensitivity: 100_000, tick: 2 });
    by_call.negative_interaction(100_000, 2);
    assert_eq!(by_event, by_call);
    by_event.apply(&Interaction::Decay { elapsed_ticks: 3 });
    by_call.decay(3);
    assert_eq!(by_event, by_call);
}

// ── The general properties, on concrete values ──────────────────────────────

#[test]
fn boundedness_over_a_mixed_run() {
    let mut acc = CoherenceAccumulator::new_with_baseline(ppm(1.0));
    let mut seed: u64 = 0x9e37_79b9_7f4a_7c15;
    for tick in 0..5000u64 {
        seed = seed.wrapping_mul(6364136223846793005).wrapping_add(1442695040888963407);
        let param = (seed >> 33) as u32 % 2_000_000;
        match seed % 3 {
            0 => acc.positive_interaction(param, tick, seed % 5 == 0),
            1 => acc.negative_interaction(param, tick),
            _ => acc.decay(seed % 1000),
        }
        assert!(acc.value <= 1_000_000);
    }
}

#[test]
fn floor_protection_after_negative_runs() {
    for k in [0u32, 1, 5, 20, 80, 1000] {
        let mut acc = CoherenceAccumulator { value: 900_000, interaction_count: k, last_interaction_tick: 0 };
        let floor = acc.earned_floor();
        for tick in 0..200 {
            acc.negative_interaction(ppm(1.0), tick);
            assert!(acc.value >= floor);
        }
        assert_eq!(acc.value, floor);
        assert_eq!(acc.interaction_count, k);
    }
}

#[test]
fn growth_is_strict_with_shrinking_gain() {
    let mut acc = CoherenceAccumulator::new();
    let mut last_gain = u32::MAX;
    for tick in 0..150 {
        let before = acc.value;
        acc.positive_interaction(ppm(0.5), tick, false);
        assert!(acc.value > before);
        assert!(acc.value < 1_000_000);
        let gain = acc.value - before;
        assert!(gain < last_gain);
        last_gain = gain;
    }
}

#[test]
fn growth_stalls_within_a_ten_thousandth_of_one() {
    let mut acc = CoherenceAccumulator { value: 999_990, interaction_count: 0, last_interaction_tick: 0 };
    acc.positive_interaction(0, 1, false);
    assert_eq!(acc.value, 999_990);
}

#[test]
fn gate_exact_values() {
    let mut field: CoherenceField<MbotSensors, 6> = CoherenceField::new();
    let key = bright_quiet_static();
    field.get_or_create(&key).value = 299_999;
    assert_eq!(field.effective_coherence(900_000, &key), 299_999);
    assert_eq!(field.effective_coherence(100_000, &key), 100_000);
    field.get_or_create(&key).value = 300_000;
    // 0.3 * 0.9 + 0.7 * 0.3 = 0.48
    assert_eq!(field.effective_coherence(900_000, &key), 480_000);
    // 0.3 * 0.0 + 0.7 * 0.3 = 0.21
    assert_eq!(field.effective_coherence(0, &key), 210_000);
    field.get_or_create(&key).value = 1_000_000;
    assert_eq!(field.effective_coherence(u32::MAX, &key), 1_000_000);
}

#[test]
fn context_isolation() {
    let mut field: CoherenceField<MbotSensors, 6> = CoherenceField::new();
    let key_a = bright_quiet_static();
    let key_b = dark_loud_close();
    let p = neutral_personality();
    for tick in 0..10 {
        field.positive_interaction(&key_b, &p, tick, false);
    }
    let b_value = field.context_coherence(&key_b);
    let b_count = field.context_interaction_count(&key_b);
    for tick in 10..60 {
        field.positive_interaction(&key_a, &p, tick, true);
        field.negative_interaction(&key_a, &p, tick);
    }
    assert_eq!(field.context_coherence(&key_b), b_value);
    assert_eq!(field.context_interaction_count(&key_b), b_count);
}

#[test]
fn eviction_bound_and_least_recently_used() {
    let mut field: CoherenceField<MbotSensors, 6> = CoherenceField::new();
    let p = neutral_personality();
    for i in 0..200 {
        field.positive_interaction(&nth_key(i), &p, 1000 + i as u64, false);
        assert!(field.context_count() <= MAX_CONTEXTS);
        assert_eq!(field.context_count(), (i + 1).min(MAX_CONTEXTS));
    }
    // the 64 most recent contexts are the ones that are left
    for i in 0..136 {
        assert_eq!(field.context_interaction_count(&nth_key(i)), 0);
    }
    for i in 136..200 {
        assert_eq!(field.context_interaction_count(&nth_key(i)), 1);
    }
}

#[test]
fn eviction_picks_the_oldest_tick() {
    let mut field: CoherenceField<MbotSensors, 6> = CoherenceField::new();
    let p = neutral_personality();
    for i in 0..64 {
        // context 17 is the one touched longest ago
        let tick = if i == 17 { 5 } else { 100 + i as u64 };
        field.positive_interaction(&nth_key(i), &p, tick, false);
    }
    assert_eq!(field.context_count(), 64);
    field.negative_interaction(&nth_key(300), &p, 500);
    assert_eq!(field.context_count(), 64);
    assert_eq!(field.context_interaction_count(&nth_key(17)), 0);
    assert_eq!(field.context_coherence(&nth_key(17)), 0);
    for i in 0..64 {
        if i != 17 {
            assert_eq!(field.context_interaction_count(&nth_key(i)), 1);
        }
    }
}

#[test]
fn decay_all_reaches_every_entry() {
    let mut field: CoherenceField<MbotSensors, 6> = CoherenceField::new();
    for i in 0..10 {
        let acc = field.get_or_create(&nth_key(i));
        acc.value = 500_000 + i as u32;
    }
    field.decay_all(10);
    for i in 0..10 {
        assert_eq!(field.context_coherence(&nth_key(i)), 499_000 + i as u32);
    }
    let items = field.iter();
    assert_eq!(items.len(), 10);
    for (features, acc) in items.iter() {
        assert_eq!(features.len(), 6);
        assert!(acc.value >= 499_000 && acc.value < 499_010);
    }
}

#[test]
fn all_entries_by_falling_count() {
    let mut field: CoherenceField<MbotSensors, 6> = CoherenceField::new();
    let p = neutral_personality();
    let counts = [3u32, 9, 1, 9, 0, 4, 7];
    for (i, &count) in counts.iter().enumerate() {
        field.get_or_create(&nth_key(i));
        for tick in 0..count {
            field.positive_interaction(&nth_key(i), &p, tick as u64, false);
        }
    }
    let entries = field.all_entries();
    assert_eq!(entries.len(), counts.len());
    let listed: Vec<u32> = entries.iter().map(|e| e.2).collect();
    assert_eq!(listed, vec![9, 9, 7, 4, 3, 1, 0]);
    for (features, value, count) in entries.iter() {
        let i = (0..counts.len()).find(|&i| &nth_key(i).feature_vec() == features).expect("a known key");
        assert_eq!(*count, counts[i]);
        assert_eq!(*value, field.context_coherence(&nth_key(i)));
    }
    let empty: CoherenceField<MbotSensors, 6> = CoherenceField::new();
    assert!(empty.all_entries().is_empty());
}

#[test]
fn end_to_end_scenario() {
    let mut field: CoherenceField<MbotSensors, 6> = CoherenceField::new();
    let key = bright_quiet_static();
    let personality = Personality {
        curiosity_drive: ppm(0.5),
        startle_sensitivity: ppm(0.5),
        recovery_speed: ppm(0.7),
    };
    for tick in 0..80 {
        field.positive_interaction(&key, &personality, tick, false);
    }
    let effective = field.effective_coherence(ppm(0.9), &key);
    assert!(unit(effective) > 0.55, "effective={}", effective);
    let phase = SocialPhase::classify(effective, ppm(0.1), SocialPhase::ShyObserver, &PhaseSpace::default());
    assert_eq!(phase, SocialPhase::QuietlyBeloved);

    let before = field.context_coherence(&key);
    field.negative_interaction(&key, &personality, 80);
    let after = field.context_coherence(&key);
    assert!(after < before);
    // the earned floor of 80 interactions is 0.5 * 80 / 100 = 0.4
    let floor = field.get_or_create(&key).earned_floor();
    assert_eq!(floor, 400_000);
    assert!(after >= floor);
    assert_eq!(field.context_interaction_count(&key), 80);
}

#[test]
fn new_context_starts_at_the_cold_start_of_the_personality() {
    let mut field: CoherenceField<MbotSensors, 6> = CoherenceField::new();
    let key = bright_quiet_static();
    let p = Personality {
        curiosity_drive: ppm(1.0),
        startle_sensitivity: ppm(0.5),
        recovery_speed: ppm(0.5),
    };
    field.positive_interaction(&key, &p, 0, false);
    // 0.15 to start with, and then 0.02 * (0.5 + 0.5) * 0.85 on top
    assert!((unit(field.context_coherence(&key)) - 0.167).abs() < 1e-3);
    assert_eq!(field.context_coherence(&key), 167_000);
    assert_eq!(field.context_interaction_count(&key), 1);

    // a context that is known keeps what it has, whatever the curiosity
    let incurious = Personality { curiosity_drive: 0, ..p };
    field.positive_interaction(&key, &incurious, 1, false);
    assert_eq!(field.context_coherence(&key), 167_000 + 16_660);

    // without curiosity a new context starts at zero
    let other = dark_loud_close();
    field.positive_interaction(&other, &incurious, 2, false);
    assert_eq!(field.context_coherence(&other), 20_000);
}

#[test]
fn negative_interaction_with_a_new_context_drops_from_the_cold_start() {
    let mut field: CoherenceField<MbotSensors, 6> = CoherenceField::new();
    let key = bright_quiet_static();
    let p = Personality {
        curiosity_drive: ppm(1.0),
        startle_sensitivity: ppm(0.5),
        recovery_speed: ppm(0.5),
    };
    field.negative_interaction(&key, &p, 7);
    // 0.15 to start with, less 0.05 * (0.5 + 0.5)
    assert_eq!(field.context_coherence(&key), 100_000);
    assert_eq!(field.context_interaction_count(&key), 0);
    assert_eq!(field.context_count(), 1);

    // half the curiosity, half the start: 0.075 less 0.05
    let other = dark_loud_close();
    field.negative_interaction(&other, &neutral_personality(), 8);
    assert_eq!(field.context_coherence(&other), 25_000);
}

#[test]
fn get_or_create_starts_at_the_baseline_of_the_field() {
    let mut field: CoherenceField<MbotSensors, 6> = CoherenceField::new();
    let key = bright_quiet_static();
    let acc = *field.get_or_create(&key);
    assert_eq!(acc, CoherenceAccumulator::new());
    assert_eq!(field.context_count(), 1);
}
