//! Two-tier context maps, and the merging of trust histories.
//!
//! A tiered map keeps, for each coarse class of contexts, one accumulator
//! that every interaction in the class reaches. A class that has been
//! interacted with often enough also keeps fine entries, one per context.
//! Both tiers are bounded: a full map evicts its least recently used class,
//! and a full class evicts its weakest fine entry, which hands a share of
//! its trust back to the class.
//!
//! When two accumulators must become one, the merged accumulator takes the
//! lower trust and the sum of the histories: caution can be inherited,
//! confidence cannot, and no history is erased.

use vstd::prelude::*;
use core::marker::PhantomData;
use crate::accumulator::{baseline_of, CoherenceAccumulator};
use crate::field::{curiosity_of, decayed, gate_of, FAMILIAR_THRESHOLD};
use crate::phase::Personality;
use crate::store::lists_entries;
use crate::tier_store::{
    class_entries, class_get, class_get_mut, class_insert, class_len, class_new, class_remove,
    class_ticks, fine_entries, fine_get, fine_get_mut, fine_insert, fine_items, fine_len, fine_new,
    fine_remove, lists_classes, ClassStore, FineStore, TIER_CAPACITY,
};
use crate::units::{clamp_to_unit, clamp_unit, ONE};
use crate::vocabulary::{ContextKey, SensorVocabulary};

verus! {

/// Configuration of a two-tier context map.
#[derive(Clone, Copy, Debug, PartialEq, Eq, Structural)]
pub struct TieredContextConfig {
    /// Positive interactions at which a coarse class earns fine entries.
    pub promotion_threshold: u32,
    /// Ticks of inactivity after which a fine entry may be evicted.
    pub eviction_staleness_ticks: u64,
    /// Interaction count below which a fine entry may be evicted.
    pub eviction_min_count: u32,
    /// Bit mask of the feature dimensions that form the coarse key.
    pub tier1_feature_mask: u32,
    /// Share of an evicted entry's trust that goes back to its coarse class.
    pub eviction_contribution_weight: u32,
}

impl TieredContextConfig {
    /// Promotion at 20 interactions, staleness after 50 000 ticks, eviction
    /// below 3 interactions, all dimensions in the coarse key, and a tenth
    /// of an evicted entry's trust contributed back.
    pub open spec fn standard() -> TieredContextConfig {
        TieredContextConfig {
            promotion_threshold: 20,
            eviction_staleness_ticks: 50_000,
            eviction_min_count: 3,
            tier1_feature_mask: 0xFFFF_FFFF,
            eviction_contribution_weight: 100_000,
        }
    }
}

impl Default for TieredContextConfig {
    fn default() -> (config: Self)
        ensures
            config == TieredContextConfig::standard(),
    {
        TieredContextConfig {
            promotion_threshold: 20,
            eviction_staleness_ticks: 50_000,
            eviction_min_count: 3,
            tier1_feature_mask: 0xFFFF_FFFF,
            eviction_contribution_weight: 100_000,
        }
    }
}

/// The merge of two accumulators: the lower value, the sum of the counts
/// (saturating), and the later tick.
pub open spec fn merged(a: CoherenceAccumulator, b: CoherenceAccumulator) -> CoherenceAccumulator {
    CoherenceAccumulator {
        value: if a.value <= b.value {
            a.value
        } else {
            b.value
        },
        interaction_count: if a.interaction_count + b.interaction_count > u32::MAX {
            u32::MAX
        } else {
            (a.interaction_count + b.interaction_count) as u32
        },
        last_interaction_tick: if a.last_interaction_tick >= b.last_interaction_tick {
            a.last_interaction_tick
        } else {
            b.last_interaction_tick
        },
    }
}

/// Merges two accumulators.
pub fn merge_accumulators(a: &CoherenceAccumulator, b: &CoherenceAccumulator) -> (m:
    CoherenceAccumulator)
    ensures
        m == merged(*a, *b),
{
    CoherenceAccumulator {
        value: if a.value <= b.value {
            a.value
        } else {
            b.value
        },
        interaction_count: a.interaction_count.saturating_add(b.interaction_count),
        last_interaction_tick: if a.last_interaction_tick >= b.last_interaction_tick {
            a.last_interaction_tick
        } else {
            b.last_interaction_tick
        },
    }
}

/// Merging does not depend on the order of its arguments.
pub proof fn lemma_merge_commutative(a: CoherenceAccumulator, b: CoherenceAccumulator)
    ensures
        merged(a, b) == merged(b, a),
{
}

/// Merging three accumulators does not depend on which two are merged first.
pub proof fn lemma_merge_associative(
    a: CoherenceAccumulator,
    b: CoherenceAccumulator,
    c: CoherenceAccumulator,
)
    ensures
        merged(merged(a, b), c) == merged(a, merged(b, c)),
{
}

/// A merge never grants trust that neither source had, never loses
/// history, and keeps a value in the unit interval there.
pub proof fn lemma_merge_honest(a: CoherenceAccumulator, b: CoherenceAccumulator)
    ensures
        merged(a, b).value <= a.value,
        merged(a, b).value <= b.value,
        merged(a, b).interaction_count >= a.interaction_count,
        merged(a, b).interaction_count >= b.interaction_count,
        a.wf() || b.wf() ==> merged(a, b).wf(),
{
}

/// A coarse key: the 64-bit FNV-1a hash of the selected feature dimensions.
pub type Tier1Key = u64;

/// The offset basis of 64-bit FNV-1a.
pub const FNV64_OFFSET_BASIS: u64 = 14_695_981_039_346_656_037;

/// The prime of 64-bit FNV-1a.
pub const FNV64_PRIME: u64 = 1_099_511_628_211;

/// Whether the feature mask selects dimension `i`. The mask has 32 bits;
/// dimension `i` goes by bit `i mod 32`.
pub open spec fn selected(mask: u32, i: int) -> bool {
    (mask >> ((i % 32) as u32)) & 1u32 == 1u32
}

/// One round of 64-bit FNV-1a.
pub open spec fn fnv64_step(h: u64, q: u16) -> u64 {
    (((h ^ (q as u64)) as int * (FNV64_PRIME as int)) % 0x1_0000_0000_0000_0000) as u64
}

/// The coarse key over the first `n` dimensions: a dimension that the mask
/// does not select counts as zero.
pub open spec fn tier1_key_prefix(features: Seq<u16>, mask: u32, n: int) -> u64
    decreases n,
{
    if n <= 0 {
        FNV64_OFFSET_BASIS
    } else {
        fnv64_step(
            tier1_key_prefix(features, mask, n - 1),
            if selected(mask, n - 1) {
                features[n - 1]
            } else {
                0u16
            },
        )
    }
}

/// The coarse key of a feature vector under a mask.
pub open spec fn tier1_key_of(features: Seq<u16>, mask: u32) -> u64 {
    tier1_key_prefix(features, mask, features.len() as int)
}

/// Computes the coarse key of a feature vector under a mask.
pub fn compute_tier1_key(features: &[u16], mask: u32) -> (key: Tier1Key)
    ensures
        key == tier1_key_of(features@, mask),
{
    let mut h: u64 = FNV64_OFFSET_BASIS;
    let mut i: usize = 0;
    while i < features.len()
        invariant
            i <= features@.len(),
            h == tier1_key_prefix(features@, mask, i as int),
        decreases features@.len() - i,
    {
        let shift: u32 = (i % 32) as u32;
        let q: u16 = if (mask >> shift) & 1u32 == 1u32 {
            features[i]
        } else {
            0
        };
        let mixed: u64 = h ^ (q as u64);
        h = mixed.wrapping_mul(FNV64_PRIME);
        i = i + 1;
    }
    h
}

/// The share of an evicted entry's trust that goes back to its class:
/// `value * weight`.
pub open spec fn contribution_of(value: int, weight: int) -> int {
    value * weight / (ONE as int)
}

/// Whether a fine entry is stale: interacted with fewer than `min_count`
/// times, and not for more than `staleness` ticks.
pub open spec fn is_stale(
    acc: CoherenceAccumulator,
    current_tick: u64,
    min_count: u32,
    staleness: u64,
) -> bool {
    acc.interaction_count < min_count && (if current_tick >= acc.last_interaction_tick {
        current_tick - acc.last_interaction_tick
    } else {
        0
    }) > staleness
}

/// The total contribution of the stale entries among the first `n` items.
pub open spec fn stale_total(
    items: Seq<(Vec<u16>, CoherenceAccumulator)>,
    n: int,
    current_tick: u64,
    config: TieredContextConfig,
) -> int
    decreases n,
{
    if n <= 0 {
        0
    } else {
        stale_total(items, n - 1, current_tick, config) + if is_stale(
            items[n - 1].1,
            current_tick,
            config.eviction_min_count,
            config.eviction_staleness_ticks,
        ) {
            contribution_of(
                items[n - 1].1.value as int,
                config.eviction_contribution_weight as int,
            )
        } else {
            0
        }
    }
}

/// One coarse class as a value: its accumulator, whether its fine tier is
/// active, and its fine entries.
pub struct ClassView {
    /// The coarse accumulator of the class.
    pub accumulator: CoherenceAccumulator,
    /// Whether the class keeps fine entries.
    pub tier2_active: bool,
    /// The fine entries, keyed by quantised feature vector.
    pub fine: Map<Seq<u16>, CoherenceAccumulator>,
}

impl ClassView {
    /// The trust that the class holds for a context: that of its fine
    /// entry, or else that of the class.
    pub open spec fn coherence_for(self, features: Seq<u16>) -> u32 {
        if self.tier2_active && self.fine.contains_key(features) {
            self.fine[features].value
        } else {
            self.accumulator.value
        }
    }

    /// The interaction count that the class holds for a context.
    pub open spec fn count_for(self, features: Seq<u16>) -> u32 {
        if self.tier2_active && self.fine.contains_key(features) {
            self.fine[features].interaction_count
        } else {
            self.accumulator.interaction_count
        }
    }

    /// Whether `victim` is a fine entry that no other is weaker than.
    pub open spec fn is_weakest(self, victim: Seq<u16>) -> bool {
        &&& self.fine.contains_key(victim)
        &&& forall|k: Seq<u16>| #[trigger]
            self.fine.contains_key(k) ==> self.fine[victim].value <= self.fine[k].value
    }

    /// The class with `credit` added to the trust of its accumulator, at most to one.
    pub open spec fn credited(self, credit: int) -> ClassView {
        ClassView {
            accumulator: CoherenceAccumulator {
                value: clamp_unit(self.accumulator.value + credit) as u32,
                ..self.accumulator
            },
            ..self
        }
    }

    /// The class after the fine entry `victim` has been evicted and has
    /// contributed its share.
    pub open spec fn without(self, victim: Seq<u16>, weight: u32) -> ClassView {
        ClassView {
            fine: self.fine.remove(victim),
            ..self.credited(contribution_of(self.fine[victim].value as int, weight as int))
        }
    }

    /// The class after a negative interaction in one of its contexts: the
    /// class drops, and so does the context's fine entry if there is one.
    pub open spec fn after_negative(
        self,
        features: Seq<u16>,
        startle_sensitivity: u32,
        tick: u64,
    ) -> ClassView {
        ClassView {
            accumulator: self.accumulator.after_negative(startle_sensitivity, tick),
            tier2_active: self.tier2_active,
            fine: if self.tier2_active && self.fine.contains_key(features) {
                self.fine.insert(
                    features,
                    self.fine[features].after_negative(startle_sensitivity, tick),
                )
            } else {
                self.fine
            },
        }
    }

    /// The class with the fine entry of a context set.
    pub open spec fn with_fine(self, features: Seq<u16>, acc: CoherenceAccumulator) -> ClassView {
        ClassView { fine: self.fine.insert(features, acc), ..self }
    }

    /// Whether `after` is the class after a weakest fine entry has been
    /// evicted, contributing its share, and the fine entry of a new
    /// context has taken its place.
    pub open spec fn replaces_weakest(
        self,
        after: ClassView,
        features: Seq<u16>,
        acc: CoherenceAccumulator,
        weight: u32,
    ) -> bool {
        exists|victim: Seq<u16>| #[trigger]
            self.is_weakest(victim) && after == self.without(victim, weight).with_fine(features, acc)
    }

    /// The class after its accumulator has taken a positive interaction:
    /// the class grows, and becomes active once its count reaches the
    /// promotion threshold.
    pub open spec fn grown(
        self,
        recovery_speed: u32,
        tick: u64,
        alone: bool,
        config: TieredContextConfig,
    ) -> ClassView {
        let grown = self.accumulator.after_positive(recovery_speed, tick, alone);
        ClassView {
            accumulator: grown,
            tier2_active: self.tier2_active || grown.interaction_count >= config.promotion_threshold,
            fine: self.fine,
        }
    }

    /// Whether `after` is the class after a positive interaction in one of
    /// its contexts. The class grows; an active class grows the context's
    /// fine entry too, which is made from `fresh` if it is new, after a
    /// weakest entry of a full class has been evicted for it.
    pub open spec fn positive_step(
        self,
        after: ClassView,
        features: Seq<u16>,
        fresh: CoherenceAccumulator,
        recovery_speed: u32,
        tick: u64,
        alone: bool,
        config: TieredContextConfig,
        capacity: int,
    ) -> bool {
        let base = self.grown(recovery_speed, tick, alone, config);
        if !base.tier2_active {
            after == base
        } else if base.fine.contains_key(features) {
            after == base.with_fine(
                features,
                base.fine[features].after_positive(recovery_speed, tick, alone),
            )
        } else if base.fine.len() < capacity {
            after == base.with_fine(features, fresh.after_positive(recovery_speed, tick, alone))
        } else {
            base.replaces_weakest(
                after,
                features,
                fresh.after_positive(recovery_speed, tick, alone),
                config.eviction_contribution_weight,
            )
        }
    }

    /// Whether `after` is the class after `elapsed_ticks` of disuse: the
    /// accumulator and every fine entry decay, and then every stale fine
    /// entry is evicted and contributes its share.
    pub open spec fn decay_step(
        self,
        after: ClassView,
        elapsed_ticks: u64,
        current_tick: u64,
        config: TieredContextConfig,
    ) -> bool {
        let sunk = decayed(self.fine, elapsed_ticks);
        &&& after.tier2_active == self.tier2_active
        &&& after.fine == Map::new(
            |k: Seq<u16>|
                sunk.contains_key(k) && !is_stale(
                    sunk[k],
                    current_tick,
                    config.eviction_min_count,
                    config.eviction_staleness_ticks,
                ),
            |k: Seq<u16>| sunk[k],
        )
        &&& exists|items: Seq<(Vec<u16>, CoherenceAccumulator)>| #[trigger]
            lists_entries(items, sunk) && after.accumulator == self.decay_credited(
                items,
                elapsed_ticks,
                current_tick,
                config,
            )
    }

    /// The accumulator of the class after decay, credited with the shares
    /// of the stale entries among `items`.
    pub open spec fn decay_credited(
        self,
        items: Seq<(Vec<u16>, CoherenceAccumulator)>,
        elapsed_ticks: u64,
        current_tick: u64,
        config: TieredContextConfig,
    ) -> CoherenceAccumulator {
        (ClassView { accumulator: self.accumulator.after_decay(elapsed_ticks), ..self }).credited(
            stale_total(items, items.len() as int, current_tick, config),
        ).accumulator
    }

    /// Whether the class is within the capacity of its fine tier.
    pub open spec fn wf(self, capacity: int) -> bool {
        &&& self.fine.dom().finite()
        &&& self.fine.len() <= capacity
    }
}

/// One coarse class: a coarse accumulator and the fine entries under it.
pub struct Tier1Class {
    /// The coarse accumulator, which every interaction in the class reaches.
    pub accumulator: CoherenceAccumulator,
    /// Whether the class keeps fine entries.
    pub tier2_active: bool,
    /// The fine entries, keyed by quantised feature vector.
    pub tier2_entries: FineStore,
}

impl Tier1Class {
    /// The class as a value.
    pub open spec fn view(&self) -> ClassView {
        ClassView {
            accumulator: self.accumulator,
            tier2_active: self.tier2_active,
            fine: fine_entries(self.tier2_entries),
        }
    }

    /// A class with the given accumulator, no fine tier and no fine entries.
    pub fn new(accumulator: CoherenceAccumulator) -> (class: Self)
        ensures
            class@ == (ClassView { accumulator, tier2_active: false, fine: Map::empty() }),
            class@.fine.dom().finite(),
    {
        Tier1Class { accumulator, tier2_active: false, tier2_entries: fine_new() }
    }

    /// The number of fine entries.
    pub fn tier2_len(&self) -> (n: usize)
        ensures
            n == self@.fine.len(),
    {
        fine_len(&self.tier2_entries)
    }

    /// The trust that the class holds for a context.
    pub fn coherence_for(&self, features: &Vec<u16>) -> (value: u32)
        ensures
            value == self@.coherence_for(features@),
    {
        if self.tier2_active {
            match fine_get(&self.tier2_entries, features) {
                Some(acc) => {
                    return acc.value;
                },
                None => {},
            }
        }
        self.accumulator.value
    }

    /// The interaction count that the class holds for a context.
    pub fn count_for(&self, features: &Vec<u16>) -> (count: u32)
        ensures
            count == self@.count_for(features@),
    {
        if self.tier2_active {
            match fine_get(&self.tier2_entries, features) {
                Some(acc) => {
                    return acc.interaction_count;
                },
                None => {},
            }
        }
        self.accumulator.interaction_count
    }

    /// Adds `credit` to the trust of the accumulator, at most to one.
    fn credit(&mut self, value: u32, weight: u32)
        ensures
            final(self)@ == old(self)@.credited(contribution_of(value as int, weight as int)),
    {
        assert(value as int * weight as int <= 0xffff_ffff * 0xffff_ffff) by (nonlinear_arith)
            requires
                0 <= value <= 0xffff_ffff,
                0 <= weight <= 0xffff_ffff,
        ;
        let contribution: u64 = (value as u64) * (weight as u64) / 1_000_000;
        self.accumulator.value = clamp_to_unit(self.accumulator.value as u64 + contribution);
    }

    /// Evicts a weakest fine entry, which contributes its share to the class.
    fn evict_weakest(&mut self, weight: u32)
        requires
            old(self)@.fine.dom().finite(),
            old(self)@.fine.len() > 0,
        ensures
            exists|victim: Seq<u16>| #[trigger]
                old(self)@.is_weakest(victim) && final(self)@ == old(self)@.without(victim, weight),
    {
        let items: Vec<(Vec<u16>, CoherenceAccumulator)> = fine_items(&self.tier2_entries);
        let ghost held = self@.fine;
        assert(items@.len() > 0);
        let mut best: usize = 0;
        let mut i: usize = 1;
        while i < items.len()
            invariant
                best < i <= items@.len(),
                forall|j: int| 0 <= j < i ==> items@[best as int].1.value <= (#[trigger] items@[j]).1.value,
            decreases items@.len() - i,
        {
            if items[i].1.value < items[best].1.value {
                best = i;
            }
            i = i + 1;
        }
        let ghost victim = items@[best as int].0@;
        assert(old(self)@.is_weakest(victim)) by {
            assert(held.contains_key(items@[best as int].0@));
            assert forall|k: Seq<u16>| #[trigger] held.contains_key(k) implies held[victim].value
                <= held[k].value by {
                let j = choose|j: int| 0 <= j < items@.len() && (#[trigger] items@[j]).0@ == k;
                assert(held[items@[j].0@] == items@[j].1);
            }
        }
        let removed: Option<CoherenceAccumulator> = fine_remove(&mut self.tier2_entries, &items[best].0);
        let value: u32 = match removed {
            Some(acc) => acc.value,
            None => 0,
        };
        self.credit(value, weight);
    }
}

impl Tier1Class {
    /// Records a positive interaction in one of the class's contexts.
    pub fn positive_interaction(
        &mut self,
        features: &Vec<u16>,
        fresh: CoherenceAccumulator,
        recovery_speed: u32,
        tick: u64,
        alone: bool,
        config: &TieredContextConfig,
        capacity: usize,
    )
        requires
            old(self)@.wf(capacity as int),
            1 <= capacity <= TIER_CAPACITY,
        ensures
            old(self)@.positive_step(
                final(self)@,
                features@,
                fresh,
                recovery_speed,
                tick,
                alone,
                *config,
                capacity as int,
            ),
            final(self)@.wf(capacity as int),
    {
        self.accumulator.positive_interaction(recovery_speed, tick, alone);
        if !self.tier2_active && self.accumulator.interaction_count >= config.promotion_threshold {
            self.tier2_active = true;
        }
        let ghost base = self@;
        let ghost grown_fresh = fresh.after_positive(recovery_speed, tick, alone);
        assert(base == old(self)@.grown(recovery_speed, tick, alone, *config));
        if self.tier2_active {
            if fine_get(&self.tier2_entries, features).is_some() {
                match fine_get_mut(&mut self.tier2_entries, features) {
                    Some(acc) => {
                        acc.positive_interaction(recovery_speed, tick, alone);
                    },
                    None => {},
                }
                proof {
                    assert(self@.fine.dom() =~= base.fine.dom());
                    assert(self@ == base.with_fine(
                        features@,
                        base.fine[features@].after_positive(recovery_speed, tick, alone),
                    ));
                }
            } else {
                if fine_len(&self.tier2_entries) >= capacity {
                    self.evict_weakest(config.eviction_contribution_weight);
                }
                let ghost roomy = self@;
                let mut grown: CoherenceAccumulator = fresh;
                grown.positive_interaction(recovery_speed, tick, alone);
                let stored: bool = fine_insert(&mut self.tier2_entries, features.clone(), grown);
                proof {
                    assert(roomy.fine.len() < capacity);
                    assert(stored);
                    assert(self@ == roomy.with_fine(features@, grown_fresh));
                    if base.fine.len() < capacity {
                        assert(roomy == base);
                    } else {
                        let victim = choose|victim: Seq<u16>| #[trigger]
                            base.is_weakest(victim) && roomy == base.without(
                                victim,
                                config.eviction_contribution_weight,
                            );
                        assert(base.is_weakest(victim) && self@ == base.without(
                            victim,
                            config.eviction_contribution_weight,
                        ).with_fine(features@, grown_fresh));
                        assert(base.replaces_weakest(
                            self@,
                            features@,
                            grown_fresh,
                            config.eviction_contribution_weight,
                        ));
                    }
                }
            }
        }
    }

    /// Records a negative interaction in one of the class's contexts.
    pub fn negative_interaction(&mut self, features: &Vec<u16>, startle_sensitivity: u32, tick: u64)
        ensures
            final(self)@ == old(self)@.after_negative(features@, startle_sensitivity, tick),
    {
        self.accumulator.negative_interaction(startle_sensitivity, tick);
        if self.tier2_active {
            match fine_get_mut(&mut self.tier2_entries, features) {
                Some(acc) => {
                    acc.negative_interaction(startle_sensitivity, tick);
                },
                None => {},
            }
        }
    }

    /// Applies decay to every fine entry.
    fn decay_entries(&mut self, elapsed_ticks: u64)
        requires
            old(self)@.fine.dom().finite(),
        ensures
            final(self)@.fine == decayed(old(self)@.fine, elapsed_ticks),
            final(self)@.fine.dom() == old(self)@.fine.dom(),
            final(self).accumulator == old(self).accumulator,
            final(self).tier2_active == old(self).tier2_active,
    {
        let items: Vec<(Vec<u16>, CoherenceAccumulator)> = fine_items(&self.tier2_entries);
        let ghost before = self@.fine;
        let mut i: usize = 0;
        while i < items.len()
            invariant
                i <= items@.len(),
                lists_entries(items@, before),
                before.dom().finite(),
                self@.fine.dom() == before.dom(),
                self.accumulator == old(self).accumulator,
                self.tier2_active == old(self).tier2_active,
                forall|j: int|
                    0 <= j < i ==> self@.fine[(#[trigger] items@[j]).0@]
                        == before[items@[j].0@].after_decay(elapsed_ticks),
                forall|j: int|
                    i <= j < items@.len() ==> self@.fine[(#[trigger] items@[j]).0@]
                        == before[items@[j].0@],
            decreases items@.len() - i,
        {
            let ghost held = self@.fine;
            match fine_get_mut(&mut self.tier2_entries, &items[i].0) {
                Some(acc) => {
                    acc.decay(elapsed_ticks);
                },
                None => {},
            }
            proof {
                let k = items@[i as int].0@;
                assert(held.contains_key(k));
                assert(self@.fine == held.insert(k, before[k].after_decay(elapsed_ticks)));
                assert(self@.fine.dom() =~= before.dom());
                assert forall|j: int| 0 <= j < i + 1 implies self@.fine[(#[trigger] items@[j]).0@]
                    == before[items@[j].0@].after_decay(elapsed_ticks) by {
                    if j < i {
                        assert(items@[j].0@ != items@[i as int].0@);
                    }
                }
                assert forall|j: int| i + 1 <= j < items@.len() implies self@.fine[(#[trigger] items@[j]).0@]
                    == before[items@[j].0@] by {
                    assert(items@[i as int].0@ != items@[j].0@);
                }
            }
            i = i + 1;
        }
        proof {
            assert forall|k: Seq<u16>| #[trigger] before.contains_key(k) implies self@.fine[k]
                == before[k].after_decay(elapsed_ticks) by {
                let j = choose|j: int| 0 <= j < items@.len() && (#[trigger] items@[j]).0@ == k;
                assert(self@.fine[items@[j].0@] == before[items@[j].0@].after_decay(elapsed_ticks));
            }
            assert(self@.fine =~= decayed(before, elapsed_ticks));
        }
    }

    /// Applies `elapsed_ticks` of disuse to the class: the accumulator and
    /// every fine entry decay, and then every stale fine entry is evicted
    /// and contributes its share.
    pub fn decay(&mut self, elapsed_ticks: u64, current_tick: u64, config: &TieredContextConfig)
        requires
            old(self)@.fine.dom().finite(),
        ensures
            old(self)@.decay_step(final(self)@, elapsed_ticks, current_tick, *config),
            final(self)@.fine.dom().finite(),
            final(self)@.fine.len() <= old(self)@.fine.len(),
    {
        self.accumulator.decay(elapsed_ticks);
        self.decay_entries(elapsed_ticks);
        let ghost sunk = self@.fine;
        let ghost start = self@;
        let items: Vec<(Vec<u16>, CoherenceAccumulator)> = fine_items(&self.tier2_entries);
        let mut i: usize = 0;
        while i < items.len()
            invariant
                i <= items@.len(),
                lists_entries(items@, sunk),
                sunk.dom().finite(),
                start.fine == sunk,
                start.tier2_active == old(self).tier2_active,
                start.accumulator == old(self).accumulator.after_decay(elapsed_ticks),
                self.tier2_active == start.tier2_active,
                self@.accumulator == start.credited(
                    stale_total(items@, i as int, current_tick, *config),
                ).accumulator,
                stale_total(items@, i as int, current_tick, *config) >= 0,
                self@.fine.dom().finite(),
                self@.fine.len() <= sunk.len(),
                forall|k: Seq<u16>| #[trigger]
                    self@.fine.contains_key(k) ==> sunk.contains_key(k) && self@.fine[k] == sunk[k],
                forall|j: int|
                    0 <= j < i ==> (self@.fine.contains_key((#[trigger] items@[j]).0@) <==> !is_stale(
                        items@[j].1,
                        current_tick,
                        config.eviction_min_count,
                        config.eviction_staleness_ticks,
                    )),
                forall|j: int|
                    i <= j < items@.len() ==> self@.fine.contains_key((#[trigger] items@[j]).0@),
            decreases items@.len() - i,
        {
            let acc: CoherenceAccumulator = items[i].1;
            let idle: u64 = current_tick.saturating_sub(acc.last_interaction_tick);
            let ghost held = self@;
            let ghost total = stale_total(items@, i as int, current_tick, *config);
            if acc.interaction_count < config.eviction_min_count && idle
                > config.eviction_staleness_ticks {
                fine_remove(&mut self.tier2_entries, &items[i].0);
                let ghost share = contribution_of(
                    acc.value as int,
                    config.eviction_contribution_weight as int,
                );
                self.credit(acc.value, config.eviction_contribution_weight);
                proof {
                    assert(0 <= share) by (nonlinear_arith)
                        requires
                            share == (acc.value as int) * (config.eviction_contribution_weight as int)
                                / 1_000_000,
                            0 <= acc.value,
                            0 <= config.eviction_contribution_weight,
                    ;
                    assert(is_stale(
                        items@[i as int].1,
                        current_tick,
                        config.eviction_min_count,
                        config.eviction_staleness_ticks,
                    ));
                    assert(stale_total(items@, i as int + 1, current_tick, *config) == total + share);
                    assert(self@.fine == held.fine.remove(items@[i as int].0@));
                    assert(held.fine.contains_key(items@[i as int].0@));
                    assert forall|k: Seq<u16>| #[trigger] self@.fine.contains_key(k) implies sunk.contains_key(
                        k,
                    ) && self@.fine[k] == sunk[k] by {
                        assert(held.fine.contains_key(k));
                    }
                    assert forall|j: int| 0 <= j < i + 1 implies (self@.fine.contains_key(
                        (#[trigger] items@[j]).0@,
                    ) <==> !is_stale(
                        items@[j].1,
                        current_tick,
                        config.eviction_min_count,
                        config.eviction_staleness_ticks,
                    )) by {
                        if j < i {
                            assert(items@[j].0@ != items@[i as int].0@);
                            assert(held.fine.contains_key(items@[j].0@) <==> !is_stale(
                                items@[j].1,
                                current_tick,
                                config.eviction_min_count,
                                config.eviction_staleness_ticks,
                            ));
                        }
                    }
                    assert forall|j: int| i + 1 <= j < items@.len() implies self@.fine.contains_key(
                        (#[trigger] items@[j]).0@,
                    ) by {
                        assert(items@[i as int].0@ != items@[j].0@);
                        assert(held.fine.contains_key(items@[j].0@));
                    }
                }
            } else {
                proof {
                    assert(!is_stale(
                        items@[i as int].1,
                        current_tick,
                        config.eviction_min_count,
                        config.eviction_staleness_ticks,
                    ));
                    assert(stale_total(items@, i as int + 1, current_tick, *config) == total);
                    assert forall|j: int| 0 <= j < i + 1 implies (self@.fine.contains_key(
                        (#[trigger] items@[j]).0@,
                    ) <==> !is_stale(
                        items@[j].1,
                        current_tick,
                        config.eviction_min_count,
                        config.eviction_staleness_ticks,
                    )) by {
                        if j < i {
                            assert(held.fine.contains_key(items@[j].0@) <==> !is_stale(
                                items@[j].1,
                                current_tick,
                                config.eviction_min_count,
                                config.eviction_staleness_ticks,
                            ));
                        }
                    }
                }
            }
            i = i + 1;
        }
        proof {
            let kept = Map::new(
                |k: Seq<u16>|
                    sunk.contains_key(k) && !is_stale(
                        sunk[k],
                        current_tick,
                        config.eviction_min_count,
                        config.eviction_staleness_ticks,
                    ),
                |k: Seq<u16>| sunk[k],
            );
            assert forall|k: Seq<u16>| kept.contains_key(k) implies self@.fine.contains_key(k) by {
                let j = choose|j: int| 0 <= j < items@.len() && (#[trigger] items@[j]).0@ == k;
                assert(sunk[items@[j].0@] == items@[j].1);
                assert(self@.fine.contains_key(items@[j].0@));
            }
            assert forall|k: Seq<u16>| self@.fine.contains_key(k) implies kept.contains_key(k) by {
                assert(sunk.contains_key(k));
                let j = choose|j: int| 0 <= j < items@.len() && (#[trigger] items@[j]).0@ == k;
                assert(sunk[items@[j].0@] == items@[j].1);
                assert(self@.fine.contains_key(items@[j].0@));
            }
            assert(self@.fine =~= kept);
            assert(lists_entries(items@, decayed(old(self)@.fine, elapsed_ticks)));
            assert(self@.accumulator == old(self)@.decay_credited(
                items@,
                elapsed_ticks,
                current_tick,
                *config,
            ));
        }
    }
}

/// The classes of a class store as values.
pub open spec fn views_of(entries: Map<u64, Tier1Class>) -> Map<u64, ClassView> {
    Map::new(|k: u64| entries.contains_key(k), |k: u64| entries[k]@)
}

/// Whether `victim` is a class that no other class was used less recently than.
pub open spec fn is_lru_class(classes: Map<u64, ClassView>, victim: u64) -> bool {
    &&& classes.contains_key(victim)
    &&& forall|k: u64| #[trigger]
        classes.contains_key(k) ==> classes[victim].accumulator.last_interaction_tick
            <= classes[k].accumulator.last_interaction_tick
}

/// Whether `after` is `before` with room for one more class: `before`
/// itself while it is below capacity, else `before` without one of its
/// least recently used classes.
pub open spec fn class_room_made(
    before: Map<u64, ClassView>,
    after: Map<u64, ClassView>,
    capacity: int,
) -> bool {
    if before.len() < capacity {
        after == before
    } else {
        exists|victim: u64| #[trigger] is_lru_class(before, victim) && after == before.remove(victim)
    }
}

/// Whether `after` is `before` with the class `t1k` in place: `before`
/// itself if the class is known, else `before` with room made and the
/// class `fresh` added.
pub open spec fn class_ensured(
    before: Map<u64, ClassView>,
    after: Map<u64, ClassView>,
    t1k: u64,
    fresh: ClassView,
    capacity: int,
) -> bool {
    if before.contains_key(t1k) {
        after == before
    } else {
        exists|mid: Map<u64, ClassView>| #[trigger]
            class_room_made(before, mid, capacity) && after == mid.insert(t1k, fresh)
    }
}

/// The trust that a tiered map holds for a context: that of its fine
/// entry, or else that of its class, or else zero.
pub open spec fn tiered_coherence(classes: Map<u64, ClassView>, t1k: u64, features: Seq<u16>) -> u32 {
    if classes.contains_key(t1k) {
        classes[t1k].coherence_for(features)
    } else {
        0
    }
}

/// The interaction count that a tiered map holds for a context.
pub open spec fn tiered_count(classes: Map<u64, ClassView>, t1k: u64, features: Seq<u16>) -> u32 {
    if classes.contains_key(t1k) {
        classes[t1k].count_for(features)
    } else {
        0
    }
}

/// Whether `keys` lists every class of `classes` exactly once, in any
/// order, each with the tick of its accumulator.
pub open spec fn lists_views(keys: Seq<(u64, u64)>, classes: Map<u64, ClassView>) -> bool {
    &&& keys.len() == classes.len()
    &&& forall|i: int|
        0 <= i < keys.len() ==> classes.contains_key((#[trigger] keys[i]).0)
            && classes[keys[i].0].accumulator.last_interaction_tick == keys[i].1
    &&& forall|i: int, j: int| 0 <= i < j < keys.len() ==> (#[trigger] keys[i]).0 != (#[trigger] keys[j]).0
    &&& forall|k: u64| #[trigger]
        classes.contains_key(k) ==> exists|i: int| 0 <= i < keys.len() && (#[trigger] keys[i]).0 == k
}

/// The number of fine entries of the first `n` of the listed classes.
pub open spec fn fine_total(keys: Seq<(u64, u64)>, classes: Map<u64, ClassView>, n: int) -> int
    decreases n,
{
    if n <= 0 {
        0
    } else {
        fine_total(keys, classes, n - 1) + classes[keys[n - 1].0].fine.len()
    }
}

/// A two-tier context map with at most `T1` coarse classes of at most
/// `T2` fine entries each. Neither capacity may exceed the 64 slots of the
/// maps that hold the tiers.
pub struct TieredContextMap<
    V: SensorVocabulary<N>,
    const N: usize,
    const T1: usize,
    const T2: usize,
> {
    classes: ClassStore,
    /// The configuration, which may be changed between calls.
    pub config: TieredContextConfig,
    personality_baseline: u32,
    vocabulary: PhantomData<V>,
}

impl<V: SensorVocabulary<N>, const N: usize, const T1: usize, const T2: usize> TieredContextMap<
    V,
    N,
    T1,
    T2,
> {
    /// The classes of the map, keyed by coarse key.
    pub closed spec fn view(&self) -> Map<u64, ClassView> {
        views_of(class_entries(self.classes))
    }

    /// The configuration of the map.
    pub closed spec fn settings(&self) -> TieredContextConfig {
        self.config
    }

    /// The baseline from which new accumulators start.
    pub closed spec fn baseline(&self) -> u32 {
        self.personality_baseline
    }

    /// Whether the capacities are within the slots of the maps.
    pub open spec fn capacities_ok() -> bool {
        1 <= T1 <= TIER_CAPACITY && 1 <= T2 <= TIER_CAPACITY
    }

    /// Whether the map is within its capacities.
    ///
    /// [`TieredContextMap::new`] establishes this and every method keeps it.
    pub closed spec fn wf(&self) -> bool {
        &&& Self::capacities_ok()
        &&& class_entries(self.classes).dom().finite()
        &&& class_entries(self.classes).len() <= T1
        &&& forall|k: u64| #[trigger]
            class_entries(self.classes).contains_key(k) ==> class_entries(self.classes)[k]@.wf(
                T2 as int,
            )
    }

    /// A well-formed map holds at most `T1` classes of at most `T2` fine
    /// entries each.
    pub proof fn lemma_wf_bounded(&self)
        requires
            self.wf(),
        ensures
            self@.dom().finite(),
            self@.len() <= T1,
            forall|k: u64| #[trigger] self@.contains_key(k) ==> self@[k].wf(T2 as int),
    {
        assert(self@.dom() =~= class_entries(self.classes).dom());
    }

    /// The accumulator that a new class or a new fine entry starts from.
    pub open spec fn fresh(&self) -> CoherenceAccumulator {
        CoherenceAccumulator {
            value: baseline_of(curiosity_of(self.baseline() as int)) as u32,
            interaction_count: 0,
            last_interaction_tick: 0,
        }
    }

    /// The class that a new coarse key starts from.
    pub open spec fn fresh_class(&self) -> ClassView {
        ClassView { accumulator: self.fresh(), tier2_active: false, fine: Map::empty() }
    }

    /// An empty map with the given configuration.
    pub fn new(config: TieredContextConfig) -> (map: Self)
        requires
            Self::capacities_ok(),
        ensures
            map.wf(),
            map@ == Map::<u64, ClassView>::empty(),
            map.settings() == config,
            map.baseline() == 0,
    {
        let map = TieredContextMap {
            classes: class_new(),
            config,
            personality_baseline: 0,
            vocabulary: PhantomData,
        };
        assert(map@ =~= Map::<u64, ClassView>::empty());
        map
    }

    /// Sets the baseline for new accumulators, limited to the unit interval.
    pub fn set_personality_baseline(&mut self, baseline: u32)
        ensures
            final(self).baseline() == clamp_unit(baseline as int),
            final(self)@ == old(self)@,
            final(self).settings() == old(self).settings(),
            final(self).wf() == old(self).wf(),
    {
        self.personality_baseline = if baseline > ONE {
            ONE
        } else {
            baseline
        };
    }

    /// The accumulator that a new class or a new fine entry starts from.
    fn fresh_accumulator(&self) -> (acc: CoherenceAccumulator)
        ensures
            acc == self.fresh(),
    {
        let curiosity: u32 = clamp_to_unit(self.personality_baseline as u64 * 20 / 3);
        CoherenceAccumulator::new_with_baseline(curiosity)
    }

    /// The trust accumulated for a context: that of its fine entry, or
    /// else that of its coarse class, or else zero.
    pub fn context_coherence(&self, key: &ContextKey<V, N>) -> (ctx: u32)
        ensures
            ctx == tiered_coherence(
                self@,
                tier1_key_of(key.features(), self.settings().tier1_feature_mask),
                key.features(),
            ),
    {
        let features: Vec<u16> = key.feature_vec();
        let t1k: u64 = compute_tier1_key(features.as_slice(), self.config.tier1_feature_mask);
        match class_get(&self.classes, t1k) {
            Some(cls) => cls.coherence_for(&features),
            None => 0,
        }
    }

    /// The interaction count for a context, zero if unseen.
    pub fn context_interaction_count(&self, key: &ContextKey<V, N>) -> (count: u32)
        ensures
            count == tiered_count(
                self@,
                tier1_key_of(key.features(), self.settings().tier1_feature_mask),
                key.features(),
            ),
    {
        let features: Vec<u16> = key.feature_vec();
        let t1k: u64 = compute_tier1_key(features.as_slice(), self.config.tier1_feature_mask);
        match class_get(&self.classes, t1k) {
            Some(cls) => cls.count_for(&features),
            None => 0,
        }
    }

    /// The effective trust in a context: what was learned, gated against
    /// what is sensed now.
    pub fn effective_coherence(&self, instant: u32, key: &ContextKey<V, N>) -> (eff: u32)
        ensures
            eff == gate_of(
                instant as int,
                tiered_coherence(
                    self@,
                    tier1_key_of(key.features(), self.settings().tier1_feature_mask),
                    key.features(),
                ) as int,
            ),
    {
        let ctx: u32 = self.context_coherence(key);
        if ctx < FAMILIAR_THRESHOLD {
            if instant < ctx {
                instant
            } else {
                ctx
            }
        } else {
            clamp_to_unit((3 * (instant as u64) + 7 * (ctx as u64)) / 10)
        }
    }

    /// The number of coarse classes.
    pub fn tier1_class_count(&self) -> (n: usize)
        requires
            self.wf(),
        ensures
            n == self@.len(),
            n <= T1,
    {
        assert(self@.dom() =~= class_entries(self.classes).dom());
        class_len(&self.classes)
    }

    /// Removes a least recently used class, if there is any class.
    fn evict_lru_tier1_class(&mut self)
        requires
            old(self).wf(),
            old(self)@.len() > 0,
        ensures
            exists|victim: u64| #[trigger]
                is_lru_class(old(self)@, victim) && final(self)@ == old(self)@.remove(victim),
            final(self).settings() == old(self).settings(),
            final(self).baseline() == old(self).baseline(),
            class_entries(final(self).classes).dom().finite(),
            class_entries(final(self).classes).len() == class_entries(old(self).classes).len() - 1,
            forall|k: u64| #[trigger]
                class_entries(final(self).classes).contains_key(k) ==> class_entries(
                    final(self).classes,
                )[k] == class_entries(old(self).classes)[k] && class_entries(
                    old(self).classes,
                ).contains_key(k),
    {
        let keys: Vec<(u64, u64)> = class_ticks(&self.classes);
        let ghost entries = class_entries(self.classes);
        assert(self@.dom() =~= entries.dom());
        assert(keys@.len() > 0);
        let mut best: usize = 0;
        let mut i: usize = 1;
        while i < keys.len()
            invariant
                best < i <= keys@.len(),
                forall|j: int| 0 <= j < i ==> keys@[best as int].1 <= (#[trigger] keys@[j]).1,
            decreases keys@.len() - i,
        {
            if keys[i].1 < keys[best].1 {
                best = i;
            }
            i = i + 1;
        }
        let ghost victim = keys@[best as int].0;
        assert(is_lru_class(old(self)@, victim)) by {
            assert(entries.contains_key(keys@[best as int].0));
            assert forall|k: u64| #[trigger] old(self)@.contains_key(k) implies old(
                self,
            )@[victim].accumulator.last_interaction_tick
                <= old(self)@[k].accumulator.last_interaction_tick by {
                let j = choose|j: int| 0 <= j < keys@.len() && (#[trigger] keys@[j]).0 == k;
                assert(entries[keys@[j].0].accumulator.last_interaction_tick == keys@[j].1);
            }
        }
        class_remove(&mut self.classes, keys[best].0);
        assert(self@ =~= old(self)@.remove(victim));
    }

    /// Puts the class `t1k` in place if the map does not know it, evicting
    /// a least recently used class first if the map is full.
    fn ensure_tier1_class(&mut self, t1k: Tier1Key)
        requires
            old(self).wf(),
        ensures
            final(self).wf(),
            class_ensured(old(self)@, final(self)@, t1k, old(self).fresh_class(), T1 as int),
            final(self)@.contains_key(t1k),
            final(self).settings() == old(self).settings(),
            final(self).baseline() == old(self).baseline(),
    {
        if class_get(&self.classes, t1k).is_some() {
            assert(self@.contains_key(t1k));
            return ;
        }
        assert(!old(self)@.contains_key(t1k));
        assert(old(self)@.dom() =~= class_entries(old(self).classes).dom());
        if class_len(&self.classes) >= T1 {
            self.evict_lru_tier1_class();
        }
        let ghost mid = self@;
        let ghost mid_entries = class_entries(self.classes);
        assert(class_room_made(old(self)@, mid, T1 as int));
        let fresh: CoherenceAccumulator = self.fresh_accumulator();
        let class: Tier1Class = Tier1Class::new(fresh);
        let stored: bool = class_insert(&mut self.classes, t1k, class);
        proof {
            assert(mid_entries.len() < T1);
            assert(stored);
            assert(self@ =~= mid.insert(t1k, old(self).fresh_class()));
            assert forall|k: u64| #[trigger]
                class_entries(self.classes).contains_key(k) implies class_entries(self.classes)[k]@.wf(
                T2 as int,
            ) by {
                if k != t1k {
                    assert(mid_entries.contains_key(k));
                    assert(class_entries(old(self).classes).contains_key(k));
                }
            }
        }
    }
}

/// What a tiered map tells of one class: its coarse key, its accumulator,
/// whether its fine tier is active, and how many fine entries it holds.
#[derive(Clone, Copy, Debug, PartialEq, Eq, Structural)]
pub struct ClassSummary {
    /// The coarse key of the class.
    pub key: Tier1Key,
    /// The coarse accumulator of the class.
    pub accumulator: CoherenceAccumulator,
    /// Whether the class keeps fine entries.
    pub tier2_active: bool,
    /// The number of fine entries of the class.
    pub tier2_len: usize,
}

impl ClassSummary {
    /// Whether this is the summary of the class `class` under `key`.
    pub open spec fn describes(self, key: u64, class: ClassView) -> bool {
        &&& self.key == key
        &&& self.accumulator == class.accumulator
        &&& self.tier2_active == class.tier2_active
        &&& self.tier2_len == class.fine.len()
    }
}

/// Whether `summaries` lists every class of `classes` exactly once, in any order.
pub open spec fn summarises_classes(summaries: Seq<ClassSummary>, classes: Map<u64, ClassView>) -> bool {
    &&& summaries.len() == classes.len()
    &&& forall|i: int|
        0 <= i < summaries.len() ==> classes.contains_key((#[trigger] summaries[i]).key)
            && summaries[i].describes(summaries[i].key, classes[summaries[i].key])
    &&& forall|i: int, j: int|
        0 <= i < j < summaries.len() ==> (#[trigger] summaries[i]).key != (#[trigger] summaries[j]).key
    &&& forall|k: u64| #[trigger]
        classes.contains_key(k) ==> exists|i: int|
            0 <= i < summaries.len() && (#[trigger] summaries[i]).key == k
}

impl<V: SensorVocabulary<N>, const N: usize, const T1: usize, const T2: usize> TieredContextMap<
    V,
    N,
    T1,
    T2,
> {
    /// Records a positive interaction with a context.
    ///
    /// The class of the context is put in place first if the map does not
    /// know it. The coarse accumulator of the class always takes the step;
    /// the fine entry of the context takes it too once the class is active.
    pub fn positive_interaction(
        &mut self,
        key: &ContextKey<V, N>,
        personality: &Personality,
        tick: u64,
        alone: bool,
    )
        requires
            old(self).wf(),
        ensures
            final(self).wf(),
            final(self).settings() == old(self).settings(),
            final(self).baseline() == old(self).baseline(),
            ({
                let t1k = tier1_key_of(key.features(), old(self).settings().tier1_feature_mask);
                exists|base: Map<u64, ClassView>| #[trigger]
                    class_ensured(old(self)@, base, t1k, old(self).fresh_class(), T1 as int)
                        && final(self)@ == base.insert(t1k, final(self)@[t1k])
                        && base[t1k].positive_step(
                        final(self)@[t1k],
                        key.features(),
                        old(self).fresh(),
                        personality.recovery_speed,
                        tick,
                        alone,
                        old(self).settings(),
                        T2 as int,
                    )
            }),
    {
        let features: Vec<u16> = key.feature_vec();
        let config: TieredContextConfig = self.config;
        let t1k: u64 = compute_tier1_key(features.as_slice(), config.tier1_feature_mask);
        let fresh: CoherenceAccumulator = self.fresh_accumulator();
        self.ensure_tier1_class(t1k);
        let ghost base = self@;
        let ghost base_entries = class_entries(self.classes);
        match class_get_mut(&mut self.classes, t1k) {
            Some(cls) => {
                cls.positive_interaction(
                    &features,
                    fresh,
                    personality.recovery_speed,
                    tick,
                    alone,
                    &config,
                    T2,
                );
            },
            None => {},
        }
        proof {
            assert(base_entries.contains_key(t1k));
            assert(self@ =~= base.insert(t1k, self@[t1k]));
            assert(class_entries(self.classes).dom() =~= base_entries.dom());
            assert forall|k: u64| #[trigger]
                class_entries(self.classes).contains_key(k) implies class_entries(self.classes)[k]@.wf(
                T2 as int,
            ) by {
                if k != t1k {
                    assert(base_entries.contains_key(k));
                }
            }
        }
    }

    /// Records a negative interaction with a context.
    ///
    /// The class of the context is put in place first if the map does not
    /// know it. The coarse accumulator of the class always takes the step;
    /// the fine entry of the context takes it too if there is one.
    pub fn negative_interaction(&mut self, key: &ContextKey<V, N>, personality: &Personality, tick: u64)
        requires
            old(self).wf(),
        ensures
            final(self).wf(),
            final(self).settings() == old(self).settings(),
            final(self).baseline() == old(self).baseline(),
            ({
                let t1k = tier1_key_of(key.features(), old(self).settings().tier1_feature_mask);
                exists|base: Map<u64, ClassView>| #[trigger]
                    class_ensured(old(self)@, base, t1k, old(self).fresh_class(), T1 as int)
                        && final(self)@ == base.insert(
                        t1k,
                        base[t1k].after_negative(
                            key.features(),
                            personality.startle_sensitivity,
                            tick,
                        ),
                    )
            }),
    {
        let features: Vec<u16> = key.feature_vec();
        let t1k: u64 = compute_tier1_key(features.as_slice(), self.config.tier1_feature_mask);
        self.ensure_tier1_class(t1k);
        let ghost base = self@;
        let ghost base_entries = class_entries(self.classes);
        match class_get_mut(&mut self.classes, t1k) {
            Some(cls) => {
                cls.negative_interaction(&features, personality.startle_sensitivity, tick);
            },
            None => {},
        }
        proof {
            assert(base_entries.contains_key(t1k));
            assert(self@ =~= base.insert(
                t1k,
                base[t1k].after_negative(key.features(), personality.startle_sensitivity, tick),
            ));
            assert(class_entries(self.classes).dom() =~= base_entries.dom());
            assert forall|k: u64| #[trigger]
                class_entries(self.classes).contains_key(k) implies class_entries(self.classes)[k]@.wf(
                T2 as int,
            ) by {
                assert(base_entries.contains_key(k));
                if k == t1k {
                    let before = base_entries[t1k]@;
                    let after = before.after_negative(
                        key.features(),
                        personality.startle_sensitivity,
                        tick,
                    );
                    assert(after.fine.dom() =~= before.fine.dom());
                }
            }
        }
    }

    /// Applies `elapsed_ticks` of disuse to every class: its accumulator
    /// and its fine entries decay, and its stale fine entries are evicted,
    /// each contributing its share to the class.
    pub fn decay_all(&mut self, elapsed_ticks: u64, current_tick: u64)
        requires
            old(self).wf(),
        ensures
            final(self).wf(),
            final(self).settings() == old(self).settings(),
            final(self).baseline() == old(self).baseline(),
            final(self)@.dom() == old(self)@.dom(),
            forall|k: u64| #[trigger]
                old(self)@.contains_key(k) ==> old(self)@[k].decay_step(
                    final(self)@[k],
                    elapsed_ticks,
                    current_tick,
                    old(self).settings(),
                ),
    {
        let keys: Vec<(u64, u64)> = class_ticks(&self.classes);
        let config: TieredContextConfig = self.config;
        let ghost before = class_entries(self.classes);
        let mut i: usize = 0;
        while i < keys.len()
            invariant
                i <= keys@.len(),
                lists_classes(keys@, before),
                before == class_entries(old(self).classes),
                old(self).wf(),
                config == old(self).settings(),
                self.settings() == old(self).settings(),
                self.baseline() == old(self).baseline(),
                class_entries(self.classes).dom() == before.dom(),
                forall|j: int|
                    0 <= j < i ==> before[(#[trigger] keys@[j]).0]@.decay_step(
                        class_entries(self.classes)[keys@[j].0]@,
                        elapsed_ticks,
                        current_tick,
                        config,
                    ) && class_entries(self.classes)[keys@[j].0]@.wf(T2 as int),
                forall|j: int|
                    i <= j < keys@.len() ==> class_entries(self.classes)[(#[trigger] keys@[j]).0]
                        == before[keys@[j].0],
            decreases keys@.len() - i,
        {
            let ghost held = class_entries(self.classes);
            match class_get_mut(&mut self.classes, keys[i].0) {
                Some(cls) => {
                    cls.decay(elapsed_ticks, current_tick, &config);
                },
                None => {},
            }
            proof {
                let k = keys@[i as int].0;
                assert(held.contains_key(k));
                assert(held[k] == before[k]);
                assert(before[k]@.wf(T2 as int));
                assert(class_entries(self.classes).dom() =~= before.dom());
                assert forall|j: int| 0 <= j < i + 1 implies before[(#[trigger] keys@[j]).0]@.decay_step(
                    class_entries(self.classes)[keys@[j].0]@,
                    elapsed_ticks,
                    current_tick,
                    config,
                ) && class_entries(self.classes)[keys@[j].0]@.wf(T2 as int) by {
                    if j < i {
                        assert(keys@[j].0 != keys@[i as int].0);
                        assert(class_entries(self.classes)[keys@[j].0] == held[keys@[j].0]);
                    }
                }
                assert forall|j: int| i + 1 <= j < keys@.len() implies class_entries(
                    self.classes,
                )[(#[trigger] keys@[j]).0] == before[keys@[j].0] by {
                    assert(keys@[i as int].0 != keys@[j].0);
                }
            }
            i = i + 1;
        }
        proof {
            assert(self@.dom() =~= old(self)@.dom());
            assert forall|k: u64| #[trigger] old(self)@.contains_key(k) implies old(self)@[k].decay_step(
                self@[k],
                elapsed_ticks,
                current_tick,
                old(self).settings(),
            ) && class_entries(self.classes)[k]@.wf(T2 as int) by {
                let j = choose|j: int| 0 <= j < keys@.len() && (#[trigger] keys@[j]).0 == k;
                assert(before[keys@[j].0]@.decay_step(
                    class_entries(self.classes)[keys@[j].0]@,
                    elapsed_ticks,
                    current_tick,
                    config,
                ));
            }
            assert forall|k: u64| #[trigger]
                class_entries(self.classes).contains_key(k) implies class_entries(self.classes)[k]@.wf(
                T2 as int,
            ) by {
                assert(old(self)@.contains_key(k));
            }
        }
    }

    /// Every class of the map, once each, in the order in which the
    /// underlying map lists them.
    pub fn class_summaries(&self) -> (summaries: Vec<ClassSummary>)
        ensures
            summarises_classes(summaries@, self@),
    {
        let keys: Vec<(u64, u64)> = class_ticks(&self.classes);
        let ghost entries = class_entries(self.classes);
        let mut summaries: Vec<ClassSummary> = Vec::new();
        let mut i: usize = 0;
        while i < keys.len()
            invariant
                i <= keys@.len(),
                lists_classes(keys@, entries),
                entries == class_entries(self.classes),
                summaries@.len() == i,
                forall|j: int|
                    0 <= j < i ==> (#[trigger] summaries@[j]).describes(
                        keys@[j].0,
                        entries[keys@[j].0]@,
                    ),
            decreases keys@.len() - i,
        {
            match class_get(&self.classes, keys[i].0) {
                Some(cls) => {
                    summaries.push(
                        ClassSummary {
                            key: keys[i].0,
                            accumulator: cls.accumulator,
                            tier2_active: cls.tier2_active,
                            tier2_len: cls.tier2_len(),
                        },
                    );
                },
                None => {
                    summaries.push(
                        ClassSummary {
                            key: keys[i].0,
                            accumulator: CoherenceAccumulator::new(),
                            tier2_active: false,
                            tier2_len: 0,
                        },
                    );
                },
            }
            i = i + 1;
        }
        proof {
            assert(self@.dom() =~= entries.dom());
            assert forall|k: u64| #[trigger] self@.contains_key(k) implies exists|i: int|
                0 <= i < summaries@.len() && (#[trigger] summaries@[i]).key == k by {
                let j = choose|j: int| 0 <= j < keys@.len() && (#[trigger] keys@[j]).0 == k;
                assert(summaries@[j].key == k);
            }
        }
        summaries
    }

    /// The number of fine entries across all classes.
    pub fn tier2_entry_count(&self) -> (n: usize)
        requires
            self.wf(),
        ensures
            n <= T1 * T2,
            exists|keys: Seq<(u64, u64)>| #[trigger]
                lists_views(keys, self@) && n == fine_total(keys, self@, keys.len() as int),
    {
        let keys: Vec<(u64, u64)> = class_ticks(&self.classes);
        let ghost entries = class_entries(self.classes);
        let mut n: usize = 0;
        let mut i: usize = 0;
        while i < keys.len()
            invariant
                i <= keys@.len() <= T1 <= 64,
                T2 <= 64,
                lists_classes(keys@, entries),
                entries == class_entries(self.classes),
                self.wf(),
                n == fine_total(keys@, self@, i as int),
                n <= i * T2,
            decreases keys@.len() - i,
        {
            let ghost k = keys@[i as int].0;
            assert(entries.contains_key(k));
            assert(entries[k]@.wf(T2 as int));
            let len: usize = match class_get(&self.classes, keys[i].0) {
                Some(cls) => cls.tier2_len(),
                None => 0,
            };
            assert(i * T2 + T2 == (i + 1) * T2) by (nonlinear_arith);
            assert((i + 1) * T2 <= 64 * 64) by (nonlinear_arith)
                requires
                    i + 1 <= 64,
                    T2 <= 64,
            ;
            n = n + len;
            i = i + 1;
        }
        assert(i * T2 <= T1 * T2) by (nonlinear_arith)
            requires
                i <= T1,
                0 <= T2,
        ;
        proof {
            assert(self@.dom() =~= entries.dom());
            assert forall|k: u64| #[trigger] self@.contains_key(k) implies exists|i: int|
                0 <= i < keys@.len() && (#[trigger] keys@[i]).0 == k by {
                assert(entries.contains_key(k));
            }
            assert(lists_views(keys@, self@));
        }
        n
    }
}

/// The coarse tier always accumulates: whatever a positive interaction
/// does to the fine entries of a class, the accumulator of the class takes
/// the step, loses no trust to an eviction, and the class is active exactly
/// if it was or has now reached the promotion threshold.
pub proof fn lemma_positive_reaches_class(
    before: ClassView,
    after: ClassView,
    features: Seq<u16>,
    fresh: CoherenceAccumulator,
    recovery_speed: u32,
    tick: u64,
    alone: bool,
    config: TieredContextConfig,
    capacity: int,
)
    requires
        before.positive_step(after, features, fresh, recovery_speed, tick, alone, config, capacity),
    ensures
        after.accumulator.interaction_count == before.accumulator.after_positive(
            recovery_speed,
            tick,
            alone,
        ).interaction_count,
        after.accumulator.last_interaction_tick == tick,
        after.accumulator.value >= before.accumulator.after_positive(
            recovery_speed,
            tick,
            alone,
        ).value,
        after.accumulator.wf(),
        after.tier2_active == (before.tier2_active || after.accumulator.interaction_count
            >= config.promotion_threshold),
        after.tier2_active ==> after.fine.contains_key(features),
{
    let base = before.grown(recovery_speed, tick, alone, config);
    if base.tier2_active && !base.fine.contains_key(features) && !(base.fine.len() < capacity) {
        let victim = choose|victim: Seq<u16>| #[trigger]
            base.is_weakest(victim) && after == base.without(
                victim,
                config.eviction_contribution_weight,
            ).with_fine(features, fresh.after_positive(recovery_speed, tick, alone));
        let share = contribution_of(
            base.fine[victim].value as int,
            config.eviction_contribution_weight as int,
        );
        assert(0 <= share) by (nonlinear_arith)
            requires
                share == (base.fine[victim].value as int) * (
                config.eviction_contribution_weight as int) / 1_000_000,
                0 <= base.fine[victim].value,
                0 <= config.eviction_contribution_weight,
        ;
    }
}

/// Decay never adds a fine entry and never changes a count: what is left
/// of the fine tier is what was there and is not stale, each entry decayed.
pub proof fn lemma_decay_keeps_history(
    before: ClassView,
    after: ClassView,
    elapsed_ticks: u64,
    current_tick: u64,
    config: TieredContextConfig,
)
    requires
        before.decay_step(after, elapsed_ticks, current_tick, config),
    ensures
        after.accumulator.interaction_count == before.accumulator.interaction_count,
        after.accumulator.last_interaction_tick == before.accumulator.last_interaction_tick,
        after.accumulator.wf(),
        forall|k: Seq<u16>| #[trigger]
            after.fine.contains_key(k) ==> before.fine.contains_key(k) && after.fine[k]
                == before.fine[k].after_decay(elapsed_ticks),
{
}

} // verus!
