use ccf_core::boundary::{boundary_tanh, MinCutBoundary, MAX_CONTEXTS, MIN_TRUST_OBSERVATIONS};
use ccf_core::mbot::{
    BrightnessBand, MbotSensors, MotionContext, NoiseBand, Orientation, PresenceSignature,
    TimePeriod,
};
use ccf_core::vocabulary::{ContextKey, SensorVocabulary};

/// A quantity of the unit interval in parts per million.
fn ppm(x: f64) -> u32 {
    (x * 1_000_000.0).round() as u32
}

/// A fixed-point quantity as a float.
fn unit(v: u64) -> f64 {
    v as f64 / 1_000_000.0
}

fn tanh(x: f64) -> f64 {
    boundary_tanh((x * 1_000_000.0).round() as i64) as f64 / 1_000_000.0
}

fn make_key(b: BrightnessBand, n: NoiseBand) -> ContextKey<MbotSensors, 6> {
    ContextKey::new(MbotSensors {
        brightness: b,
        noise: n,
        presence: PresenceSignature::Absent,
        motion: MotionContext::Static,
        orientation: Orientation::Upright,
        time_period: TimePeriod::Day,
    })
}

fn bright_quiet() -> ContextKey<MbotSensors, 6> {
    make_key(BrightnessBand::Bright, NoiseBand::Quiet)
}
fn bright_loud() -> ContextKey<MbotSensors, 6> {
    make_key(BrightnessBand::Bright, NoiseBand::Loud)
}
fn dark_quiet() -> ContextKey<MbotSensors, 6> {
    make_key(BrightnessBand::Dark, NoiseBand::Quiet)
}
fn dark_loud() -> ContextKey<MbotSensors, 6> {
    make_key(BrightnessBand::Dark, NoiseBand::Loud)
}

/// A vocabulary whose feature vector is given outright.
#[derive(Clone, Debug, PartialEq, Eq, Hash)]
struct Raw([u16; 3]);

impl SensorVocabulary<3> for Raw {
    fn to_feature_vec(&self) -> [u16; 3] {
        self.0
    }
}

fn raw(a: u16, b: u16, c: u16) -> ContextKey<Raw, 3> {
    ContextKey::new(Raw([a, b, c]))
}

/// Registers each key with every key before it as known.
fn graph_of(keys: &[ContextKey<Raw, 3>]) -> MinCutBoundary<Raw, 3> {
    let mut b: MinCutBoundary<Raw, 3> = MinCutBoundary::new();
    for i in 0..keys.len() {
        let known: Vec<(ContextKey<Raw, 3>, u32)> =
            keys[..i].iter().map(|k| (k.clone(), k.context_hash_u32())).collect();
        b.report_context_with_key(&keys[i], &known);
    }
    b
}

/// The weight of the cheapest cut, by trying every two-way split.
fn cheapest_cut(keys: &[ContextKey<Raw, 3>], weight: &dyn Fn(usize, usize) -> u64) -> u64 {
    let n = keys.len();
    let mut best = u64::MAX;
    for mask in 1..(1u32 << n) - 1 {
        let mut total = 0;
        for i in 0..n {
            for j in (i + 1)..n {
                if (mask >> i) & 1 != (mask >> j) & 1 {
                    total += weight(i, j);
                }
            }
        }
        best = best.min(total);
    }
    best
}

#[test]
fn test_claim_9_min_cut_is_computed_not_configured() {
    let mut b: MinCutBoundary<MbotSensors, 6> = MinCutBoundary::new();
    let k1 = bright_quiet();
    let k2 = dark_loud();
    b.report_context_with_key(&k1, &[]);
    let existing = [(k1.clone(), k1.context_hash_u32())];
    b.report_context_with_key(&k2, &existing);
    let cut = b.min_cut_value();
    assert!(unit(cut) >= 0.0, "min_cut_value must be non-negative");
}

#[test]
fn test_claim_10_partition_is_observable() {
    let mut b: MinCutBoundary<MbotSensors, 6> = MinCutBoundary::new();
    let k1 = bright_quiet();
    let k2 = dark_loud();
    b.report_context_with_key(&k1, &[]);
    let existing = [(k1.clone(), k1.context_hash_u32())];
    b.report_context_with_key(&k2, &existing);
    let result = b.partition();
    assert_eq!(result.partition_s_count + result.partition_complement_count, 2);
}

#[test]
fn test_claim_11_thin_bridge_detected() {
    let mut b: MinCutBoundary<MbotSensors, 6> = MinCutBoundary::new();
    let k1 = bright_quiet();
    let k2 = bright_loud();
    let k3 = dark_quiet();
    let k4 = dark_loud();

    b.report_context_with_key(&k1, &[]);
    let e1 = [(k1.clone(), k1.context_hash_u32())];
    b.report_context_with_key(&k2, &e1);
    let e2 = [(k1.clone(), k1.context_hash_u32()), (k2.clone(), k2.context_hash_u32())];
    b.report_context_with_key(&k3, &e2);
    let e3 = [
        (k1.clone(), k1.context_hash_u32()),
        (k2.clone(), k2.context_hash_u32()),
        (k3.clone(), k3.context_hash_u32()),
    ];
    b.report_context_with_key(&k4, &e3);

    assert_eq!(b.node_count(), 4);
    let cut = b.min_cut_value();
    assert!(unit(cut) >= 0.0);
}

#[test]
fn test_claim_12_boundary_moves_when_trust_changes() {
    let mut b: MinCutBoundary<MbotSensors, 6> = MinCutBoundary::new();
    let k1 = bright_quiet();
    let k2 = bright_loud();
    b.report_context_with_key(&k1, &[]);
    let existing = [(k1.clone(), k1.context_hash_u32())];
    b.report_context_with_key(&k2, &existing);

    let cut_before = b.min_cut_value();

    b.update_trust(&k1, ppm(0.8), MIN_TRUST_OBSERVATIONS);
    b.update_trust(&k2, ppm(0.8), MIN_TRUST_OBSERVATIONS);
    let cut_after_trust = b.min_cut_value();

    b.update_trust(&k2, ppm(0.1), MIN_TRUST_OBSERVATIONS);
    let cut_after_degradation = b.min_cut_value();

    assert!(unit(cut_before) >= 0.0);
    assert!(unit(cut_after_trust) >= 0.0);
    assert!(unit(cut_after_degradation) >= 0.0);
}

#[test]
fn test_empty_graph_returns_zero() {
    let b: MinCutBoundary<MbotSensors, 6> = MinCutBoundary::new();
    assert_eq!(b.min_cut_value(), 0);
}

#[test]
fn test_single_node_returns_zero() {
    let mut b: MinCutBoundary<MbotSensors, 6> = MinCutBoundary::new();
    b.report_context_with_key(&bright_quiet(), &[]);
    assert_eq!(b.min_cut_value(), 0);
}

#[test]
fn test_tanh_values() {
    assert!(tanh(0.0).abs() < 0.01, "tanh(0) = {}", tanh(0.0));
    assert!((tanh(2.0) - 0.964).abs() < 0.01, "tanh(2) = {}", tanh(2.0));
    assert!((tanh(-2.0) + 0.964).abs() < 0.01, "tanh(-2) = {}", tanh(-2.0));
}

#[test]
fn tanh_is_accurate_to_a_thousandth() {
    let mut x = 0.0f64;
    while x <= 12.0 {
        assert!((tanh(x) - x.tanh()).abs() < 0.001, "tanh({}) = {}", x, tanh(x));
        assert!((tanh(-x) + x.tanh()).abs() < 0.001, "tanh(-{}) = {}", x, tanh(-x));
        x += 0.013;
    }
    assert_eq!(boundary_tanh(0), 0);
    assert_eq!(boundary_tanh(9_000_001), 1_000_000);
    assert_eq!(boundary_tanh(-9_000_001), -1_000_000);
    assert_eq!(boundary_tanh(i64::MAX), 1_000_000);
    assert_eq!(boundary_tanh(i64::MIN), -1_000_000);
}

#[test]
fn degenerate_graphs_have_an_empty_first_side() {
    let b: MinCutBoundary<MbotSensors, 6> = MinCutBoundary::new();
    let result = b.partition();
    assert_eq!(result.min_cut_value, 0);
    assert_eq!(result.partition_s_count, 0);
    assert_eq!(result.partition_complement_count, 0);

    let mut b: MinCutBoundary<MbotSensors, 6> = MinCutBoundary::new();
    let k = bright_quiet();
    b.report_context_with_key(&k, &[]);
    let result = b.partition();
    assert_eq!(result.min_cut_value, 0);
    assert_eq!(result.partition_s_count, 0);
    assert_eq!(result.partition_complement_count, 1);
    assert_eq!(result.partition_complement[0], k.context_hash_u32());
    assert_eq!(result.partition_s, [0; 64]);
}

#[test]
fn registration_is_idempotent_and_bounded() {
    let mut b: MinCutBoundary<Raw, 3> = MinCutBoundary::new();
    let k = raw(1, 2, 3);
    b.report_context_with_key(&k, &[]);
    b.report_context_with_key(&k, &[]);
    assert_eq!(b.node_count(), 1);
    for i in 0..100u16 {
        b.report_context_with_key(&raw(i, 7, 9), &[]);
        assert!(b.node_count() <= MAX_CONTEXTS);
    }
    assert_eq!(b.node_count(), MAX_CONTEXTS);
    // updating an unknown context changes nothing
    b.update_trust(&raw(9999, 9999, 9999), 500_000, 100);
    assert_eq!(b.node_count(), MAX_CONTEXTS);
}

#[test]
fn min_cut_of_two_nodes_is_their_edge() {
    let a = raw(60000, 10000, 0);
    let c = raw(50000, 30000, 0);
    let sim = a.cosine_similarity(&c) as u64;
    assert!(sim > 100_000);
    let b = graph_of(&[a.clone(), c.clone()]);
    assert_eq!(b.min_cut_value(), sim);
    let result = b.partition();
    assert_eq!(result.min_cut_value, sim);
    assert_eq!(result.partition_s_count, 1);
    assert_eq!(result.partition_complement_count, 1);
    // the last node of the ordering is the one that is cut off
    assert_eq!(result.partition_s[0], a.context_hash_u32());
    assert_eq!(result.partition_complement[0], c.context_hash_u32());
}

#[test]
fn edges_at_or_below_a_tenth_are_not_created() {
    // cos = 0.0995 < 0.1: no edge, the cut is free
    let a = raw(10000, 0, 0);
    let c = raw(1000, 10000, 0);
    assert!(a.cosine_similarity(&c) <= 100_000);
    let b = graph_of(&[a, c]);
    assert_eq!(b.min_cut_value(), 0);
}

#[test]
fn min_cut_matches_exhaustive_search_on_four_nodes() {
    // two similar pairs, and one thin similarity across the pairs
    let keys = [raw(60000, 0, 0), raw(60000, 7000, 0), raw(0, 60000, 0), raw(0, 50000, 40000)];
    let b = graph_of(&keys);
    assert_eq!(b.node_count(), 4);
    let weight = |i: usize, j: usize| -> u64 {
        let sim = keys[i].cosine_similarity(&keys[j]) as u64;
        if sim > 100_000 {
            sim
        } else {
            0
        }
    };
    // the pairs are tight, and one thin edge bridges them
    assert!(weight(0, 1) > 990_000);
    assert!(weight(2, 3) > 780_000);
    assert_eq!(weight(0, 2), 0);
    assert_eq!(weight(0, 3), 0);
    assert_eq!(weight(1, 3), 0);
    let bridge = weight(1, 2);
    // 7000 / sqrt(60000^2 + 7000^2) = 0.115880..., rounded down
    assert_eq!(bridge, 115_880);
    let expected = cheapest_cut(&keys, &weight);
    assert_eq!(expected, bridge);
    assert_eq!(b.min_cut_value(), expected);

    let result = b.partition();
    assert_eq!(result.min_cut_value, expected);
    assert_eq!(result.partition_s_count + result.partition_complement_count, 4);
    let s: Vec<u32> = result.partition_s[..result.partition_s_count].to_vec();
    let c: Vec<u32> = result.partition_complement[..result.partition_complement_count].to_vec();
    // every node is on exactly one side
    for k in keys.iter() {
        let h = k.context_hash_u32();
        let in_s = s.iter().filter(|&&x| x == h).count();
        let in_c = c.iter().filter(|&&x| x == h).count();
        assert_eq!(in_s + in_c, 1);
    }
    // and the sides are the two pairs
    let pair_a = [keys[0].context_hash_u32(), keys[1].context_hash_u32()];
    let pair_b = [keys[2].context_hash_u32(), keys[3].context_hash_u32()];
    assert!(s == pair_a.to_vec() && c == pair_b.to_vec() || s == pair_b.to_vec() && c == pair_a.to_vec());
}

#[test]
fn min_cut_matches_exhaustive_search_on_many_graphs() {
    let mut seed: u64 = 12345;
    for round in 0..40 {
        let n = 2 + round % 7;
        let mut keys: Vec<ContextKey<Raw, 3>> = Vec::new();
        while keys.len() < n {
            seed = seed.wrapping_mul(6364136223846793005).wrapping_add(1442695040888963407);
            let a = (seed >> 16) as u16;
            let b = (seed >> 32) as u16;
            let c = (seed >> 48) as u16;
            let k = raw(if a % 3 == 0 { 0 } else { a }, if b % 3 == 0 { 0 } else { b }, c);
            if keys.iter().all(|o| o.context_hash_u32() != k.context_hash_u32()) {
                keys.push(k);
            }
        }
        let b = graph_of(&keys);
        let weight = |i: usize, j: usize| -> u64 {
            let sim = keys[i].cosine_similarity(&keys[j]) as u64;
            if sim > 100_000 {
                sim
            } else {
                0
            }
        };
        let expected = cheapest_cut(&keys, &weight);
        assert_eq!(b.min_cut_value(), expected, "round {}", round);
        let result = b.partition();
        assert_eq!(result.min_cut_value, expected);
        assert_eq!(result.partition_s_count + result.partition_complement_count, n);
        assert!(result.partition_s_count >= 1 && result.partition_complement_count >= 1);
        // the reported sides have the reported weight between them
        let side: Vec<bool> = keys
            .iter()
            .map(|k| result.partition_s[..result.partition_s_count].contains(&k.context_hash_u32()))
            .collect();
        let mut total = 0;
        for i in 0..n {
            for j in (i + 1)..n {
                if side[i] != side[j] {
                    total += weight(i, j);
                }
            }
        }
        assert_eq!(total, expected);
    }
}

#[test]
fn trust_scales_an_edge_once_both_ends_are_observed() {
    let a = raw(60000, 10000, 0);
    let c = raw(50000, 30000, 0);
    let sim = a.cosine_similarity(&c) as u64;
    let mut b = graph_of(&[a.clone(), c.clone()]);

    // one end short of observations: the similarity stays
    b.update_trust(&a, 800_000, MIN_TRUST_OBSERVATIONS);
    b.update_trust(&c, 800_000, MIN_TRUST_OBSERVATIONS - 1);
    assert_eq!(b.min_cut_value(), sim);

    // both ends observed: sim * tanh(1.6) * tanh(1.6)
    b.update_trust(&c, 800_000, MIN_TRUST_OBSERVATIONS);
    let t = boundary_tanh(1_600_000) as u64;
    assert_eq!(b.min_cut_value(), sim * t * t / 1_000_000_000_000);
    assert!((unit(b.min_cut_value()) - unit(sim) * 1.6f64.tanh().powi(2)).abs() < 0.002);

    // the scaled weight is what the next update scales again
    let scaled = b.min_cut_value();
    b.update_trust(&a, 50_000, MIN_TRUST_OBSERVATIONS);
    let ta = boundary_tanh(100_000) as u64;
    let expect = scaled * ta * t / 1_000_000_000_000;
    assert_eq!(b.min_cut_value(), expect);
    assert!(expect <= 100_000);

    // an edge that has sunk to a tenth or less is left alone from then on
    b.update_trust(&a, 1_000_000, 1000);
    assert_eq!(b.min_cut_value(), expect);
}

#[test]
fn zero_trust_removes_an_edge() {
    let a = raw(60000, 10000, 0);
    let c = raw(50000, 30000, 0);
    let mut b = graph_of(&[a.clone(), c.clone()]);
    b.update_trust(&c, 0, 50);
    b.update_trust(&a, 0, 50);
    assert_eq!(b.min_cut_value(), 0);
}
