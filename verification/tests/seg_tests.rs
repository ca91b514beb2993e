use ccf_core::accumulator::CoherenceField;
use ccf_core::mbot::{
    BrightnessBand, MbotSensors, MotionContext, NoiseBand, Orientation, PresenceSignature,
    TimePeriod,
};
use ccf_core::phase::Personality;
use ccf_core::seg::{
    CcfSegSnapshot, ContextRecord, PersonalityRecord, CCF_SEG_MAGIC, CCF_SEG_VERSION,
};
use ccf_core::vocabulary::ContextKey;
use serde_json::{Number, Value};

/// A quantity of the unit interval in parts per million.
fn ppm(x: f64) -> u32 {
    (x * 1_000_000.0).round() as u32
}

/// A fixed-point quantity as a float.
fn unit(v: u32) -> f64 {
    v as f64 / 1_000_000.0
}

fn make_key(brightness: BrightnessBand, noise: NoiseBand) -> ContextKey<MbotSensors, 6> {
    ContextKey::new(MbotSensors {
        brightness,
        noise,
        presence: PresenceSignature::Absent,
        motion: MotionContext::Static,
        orientation: Orientation::Upright,
        time_period: TimePeriod::Day,
    })
}

fn bright_quiet() -> ContextKey<MbotSensors, 6> {
    make_key(BrightnessBand::Bright, NoiseBand::Quiet)
}

fn dark_loud() -> ContextKey<MbotSensors, 6> {
    make_key(BrightnessBand::Dark, NoiseBand::Loud)
}

fn dim_moderate() -> ContextKey<MbotSensors, 6> {
    make_key(BrightnessBand::Dim, NoiseBand::Moderate)
}

/// A field with three known contexts, and a personality.
fn make_field() -> (CoherenceField<MbotSensors, 6>, Personality) {
    let mut field: CoherenceField<MbotSensors, 6> = CoherenceField::new();
    let personality = Personality {
        curiosity_drive: ppm(0.8),
        startle_sensitivity: ppm(0.3),
        recovery_speed: ppm(0.7),
    };

    let k1 = bright_quiet();
    let k2 = dark_loud();
    let k3 = dim_moderate();

    for tick in 0..10u64 {
        field.positive_interaction(&k1, &personality, tick, false);
    }

    for tick in 0..5u64 {
        field.positive_interaction(&k2, &personality, tick, false);
    }
    field.negative_interaction(&k2, &personality, 5);

    for tick in 0..20u64 {
        field.positive_interaction(&k3, &personality, tick, true);
    }

    (field, personality)
}

fn number(n: u64) -> Value {
    Value::Number(Number::from(n))
}

/// The snapshot as a JSON value, field by field.
fn to_json(snapshot: &CcfSegSnapshot) -> Value {
    let mut personality = serde_json::Map::new();
    personality.insert("curiosity_drive".to_string(), number(snapshot.personality.curiosity_drive as u64));
    personality.insert(
        "startle_sensitivity".to_string(),
        number(snapshot.personality.startle_sensitivity as u64),
    );
    personality.insert("recovery_speed".to_string(), number(snapshot.personality.recovery_speed as u64));
    let mut contexts = Vec::new();
    for record in snapshot.contexts.iter() {
        let mut context = serde_json::Map::new();
        context.insert("context_hash".to_string(), number(record.context_hash as u64));
        context.insert("coherence_value".to_string(), number(record.coherence_value as u64));
        context.insert("interaction_count".to_string(), number(record.interaction_count as u64));
        context.insert("last_interaction_tick".to_string(), number(record.last_interaction_tick));
        contexts.push(Value::Object(context));
    }
    let mut root = serde_json::Map::new();
    root.insert("version".to_string(), number(snapshot.version as u64));
    root.insert("created_at".to_string(), Value::Number(Number::from(snapshot.created_at)));
    root.insert("last_active_at".to_string(), Value::Number(Number::from(snapshot.last_active_at)));
    root.insert("total_interactions".to_string(), number(snapshot.total_interactions));
    root.insert("personality".to_string(), Value::Object(personality));
    root.insert("contexts".to_string(), Value::Array(contexts));
    Value::Object(root)
}

/// The snapshot that a JSON value describes.
fn from_json(value: &Value) -> CcfSegSnapshot {
    let get = |v: &Value, name: &str| -> u64 { v.get(name).and_then(Value::as_u64).expect(name) };
    let personality = value.get("personality").expect("personality");
    let contexts = value.get("contexts").and_then(Value::as_array).expect("contexts");
    CcfSegSnapshot {
        version: get(value, "version") as u16,
        created_at: value.get("created_at").and_then(Value::as_i64).expect("created_at"),
        last_active_at: value.get("last_active_at").and_then(Value::as_i64).expect("last_active_at"),
        total_interactions: get(value, "total_interactions"),
        personality: PersonalityRecord {
            curiosity_drive: get(personality, "curiosity_drive") as u32,
            startle_sensitivity: get(personality, "startle_sensitivity") as u32,
            recovery_speed: get(personality, "recovery_speed") as u32,
        },
        contexts: contexts
            .iter()
            .map(|c| ContextRecord {
                context_hash: get(c, "context_hash") as u32,
                coherence_value: get(c, "coherence_value") as u32,
                interaction_count: get(c, "interaction_count") as u32,
                last_interaction_tick: get(c, "last_interaction_tick"),
            })
            .collect(),
    }
}

#[test]
fn test_snapshot_captures_correct_context_count() {
    let (field, personality) = make_field();
    let snapshot = CcfSegSnapshot::from_field(&field, &personality, 1_000_000, 1_001_000, 36);

    assert_eq!(
        snapshot.context_count(),
        3,
        "snapshot should have 3 contexts, got {}",
        snapshot.context_count()
    );
}

#[test]
fn test_snapshot_version_is_current() {
    let (field, personality) = make_field();
    let snapshot = CcfSegSnapshot::from_field(&field, &personality, 0, 0, 0);
    assert_eq!(snapshot.version, CCF_SEG_VERSION, "snapshot version should be {}", CCF_SEG_VERSION);
    assert_eq!(CCF_SEG_VERSION, 1);
    assert_eq!(CCF_SEG_MAGIC.to_be_bytes(), [b'C', b'C', b'F', b'S']);
}

#[test]
fn test_snapshot_metadata_preserved() {
    let created_at: i64 = 1_740_000_000;
    let last_active_at: i64 = 1_740_001_000;
    let total_interactions: u64 = 500;

    let (field, personality) = make_field();
    let snapshot =
        CcfSegSnapshot::from_field(&field, &personality, created_at, last_active_at, total_interactions);

    assert_eq!(snapshot.created_at, created_at);
    assert_eq!(snapshot.last_active_at, last_active_at);
    assert_eq!(snapshot.total_interactions, total_interactions);
}

#[test]
fn test_snapshot_personality_preserved() {
    let (field, personality) = make_field();
    let snapshot = CcfSegSnapshot::from_field(&field, &personality, 0, 0, 0);

    assert_eq!(snapshot.personality.curiosity_drive, personality.curiosity_drive);
    assert_eq!(snapshot.personality.startle_sensitivity, personality.startle_sensitivity);
    assert_eq!(snapshot.personality.recovery_speed, personality.recovery_speed);
    assert_eq!(snapshot.personality.to_personality(), personality);
    assert_eq!(PersonalityRecord::from_personality(&personality), snapshot.personality);
    assert_eq!(PersonalityRecord::from(&personality), snapshot.personality);
    assert_eq!(Personality::from(&snapshot.personality), personality);
}

#[test]
fn test_snapshot_context_coherence_values_preserved() {
    let (field, personality) = make_field();

    let k1 = bright_quiet();
    let k2 = dark_loud();
    let k3 = dim_moderate();

    let coh1 = field.context_coherence(&k1);
    let coh2 = field.context_coherence(&k2);
    let coh3 = field.context_coherence(&k3);
    let count1 = field.context_interaction_count(&k1);
    let count2 = field.context_interaction_count(&k2);
    let count3 = field.context_interaction_count(&k3);

    let snapshot = CcfSegSnapshot::from_field(&field, &personality, 0, 0, 0);

    let hash1 = k1.context_hash_u32();
    let hash2 = k2.context_hash_u32();
    let hash3 = k3.context_hash_u32();

    let rec1 = snapshot.find_context(hash1).expect("context 1 (bright_quiet) not found in snapshot");
    let rec2 = snapshot.find_context(hash2).expect("context 2 (dark_loud) not found in snapshot");
    let rec3 = snapshot.find_context(hash3).expect("context 3 (dim_moderate) not found in snapshot");

    assert!(
        (unit(rec1.coherence_value) - unit(coh1)).abs() < 1e-6,
        "context 1 coherence: snapshot={} live={}",
        rec1.coherence_value,
        coh1
    );
    assert!(
        (unit(rec2.coherence_value) - unit(coh2)).abs() < 1e-6,
        "context 2 coherence: snapshot={} live={}",
        rec2.coherence_value,
        coh2
    );
    assert!(
        (unit(rec3.coherence_value) - unit(coh3)).abs() < 1e-6,
        "context 3 coherence: snapshot={} live={}",
        rec3.coherence_value,
        coh3
    );

    assert_eq!(rec1.interaction_count, count1, "context 1 interaction_count mismatch");
    assert_eq!(rec2.interaction_count, count2, "context 2 interaction_count mismatch");
    assert_eq!(rec3.interaction_count, count3, "context 3 interaction_count mismatch");
    assert_eq!(rec1.last_interaction_tick, 9);
    assert_eq!(rec2.last_interaction_tick, 5);
    assert_eq!(rec3.last_interaction_tick, 19);
}

#[test]
fn test_ccf_seg_round_trip_json() {
    let (field, personality) = make_field();
    let taken =
        CcfSegSnapshot::from_field(&field, &personality, 1_740_000_000, 1_740_001_000, 36);

    let json = serde_json::to_string(&to_json(&taken)).expect("serialise to JSON");

    let parsed: Value = serde_json::from_str(&json).expect("deserialise from JSON");
    let restored: CcfSegSnapshot = from_json(&parsed);

    assert_eq!(taken.version, restored.version, "version mismatch after round-trip");
    assert_eq!(taken.created_at, restored.created_at, "created_at mismatch after round-trip");
    assert_eq!(
        taken.last_active_at, restored.last_active_at,
        "last_active_at mismatch after round-trip"
    );
    assert_eq!(
        taken.total_interactions, restored.total_interactions,
        "total_interactions mismatch after round-trip"
    );
    assert_eq!(
        taken.context_count(),
        restored.context_count(),
        "context count mismatch after round-trip"
    );

    assert_eq!(taken.personality, restored.personality);

    for taken_ctx in &taken.contexts {
        let restored_ctx = restored.find_context(taken_ctx.context_hash).unwrap_or_else(|| {
            panic!("context hash 0x{:08x} missing after round-trip", taken_ctx.context_hash)
        });

        assert_eq!(
            taken_ctx.coherence_value, restored_ctx.coherence_value,
            "coherence_value mismatch for hash 0x{:08x}",
            taken_ctx.context_hash
        );
        assert_eq!(
            taken_ctx.interaction_count, restored_ctx.interaction_count,
            "interaction_count mismatch for hash 0x{:08x}",
            taken_ctx.context_hash
        );
        assert_eq!(
            taken_ctx.last_interaction_tick, restored_ctx.last_interaction_tick,
            "last_interaction_tick mismatch for hash 0x{:08x}",
            taken_ctx.context_hash
        );
    }
}

#[test]
fn test_empty_field_snapshot() {
    let field: CoherenceField<MbotSensors, 6> = CoherenceField::new();
    let personality = Personality::new();
    let snapshot = CcfSegSnapshot::from_field(&field, &personality, 0, 0, 0);

    assert_eq!(snapshot.context_count(), 0);
    assert_eq!(snapshot.version, CCF_SEG_VERSION);

    let json = serde_json::to_string(&to_json(&snapshot)).expect("serialise empty snapshot");
    let parsed: Value = serde_json::from_str(&json).expect("deserialise empty snapshot");
    let restored: CcfSegSnapshot = from_json(&parsed);
    assert_eq!(restored.context_count(), 0);
}

#[test]
fn test_find_context_returns_none_for_unknown_hash() {
    let (field, personality) = make_field();
    let snapshot = CcfSegSnapshot::from_field(&field, &personality, 0, 0, 0);
    assert!(snapshot.find_context(0xDEAD_BEEF).is_none());
}

#[test]
fn find_context_returns_the_first_match() {
    let record = |hash: u32, value: u32| ContextRecord {
        context_hash: hash,
        coherence_value: value,
        interaction_count: 0,
        last_interaction_tick: 0,
    };
    let snapshot = CcfSegSnapshot {
        version: CCF_SEG_VERSION,
        created_at: -5,
        last_active_at: 0,
        total_interactions: 0,
        personality: PersonalityRecord { curiosity_drive: 1, startle_sensitivity: 2, recovery_speed: 3 },
        contexts: vec![record(7, 100), record(9, 200), record(7, 300)],
    };
    assert_eq!(snapshot.find_context(7), Some(&record(7, 100)));
    assert_eq!(snapshot.find_context(9), Some(&record(9, 200)));
    assert_eq!(snapshot.find_context(8), None);
    assert_eq!(snapshot.context_count(), 3);
    let acc = ccf_core::accumulator::CoherenceAccumulator {
        value: 100,
        interaction_count: 0,
        last_interaction_tick: 0,
    };
    assert_eq!(ContextRecord::from_entry(7, &acc), record(7, 100));
    assert_eq!(ContextRecord::from((7, &acc)), record(7, 100));
}
