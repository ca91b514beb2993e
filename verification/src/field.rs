//! The trust field: a bounded map from contexts to accumulators.

use vstd::prelude::*;
use core::marker::PhantomData;
use crate::accumulator::{baseline_of, CoherenceAccumulator};
use crate::phase::Personality;
use crate::store::{
    lists_entries, store_entries, store_get, store_get_mut, store_insert, store_items, store_len,
    store_new, store_remove, ContextStore,
};
use crate::units::{clamp_to_unit, clamp_unit};
use crate::vocabulary::{ContextKey, SensorVocabulary};

verus! {

/// The most contexts that a field tracks at once.
pub const MAX_CONTEXTS: usize = 64;

/// Below this trust a context counts as unfamiliar.
pub const FAMILIAR_THRESHOLD: u32 = 300_000;

/// The asymmetric gate. An unfamiliar context (`ctx < 0.3`) reads as the
/// smaller of the instant reading and its own trust; a familiar one reads as
/// `0.3 * instant + 0.7 * ctx`, limited to the unit interval.
pub open spec fn gate_of(instant: int, ctx: int) -> int {
    if ctx < FAMILIAR_THRESHOLD {
        if instant < ctx {
            instant
        } else {
            ctx
        }
    } else {
        clamp_unit((3 * instant + 7 * ctx) / 10)
    }
}

/// The curiosity that a stored baseline stands for: `baseline / 0.15`,
/// limited to the unit interval.
pub open spec fn curiosity_of(baseline: int) -> int {
    clamp_unit(baseline * 20 / 3)
}

/// The accumulator from which an agent of the given curiosity starts in a
/// context that it meets for the first time: no history, and a trust of
/// `0.15 * curiosity_drive`.
pub open spec fn cold_start(curiosity_drive: u32) -> CoherenceAccumulator {
    CoherenceAccumulator {
        value: baseline_of(curiosity_drive as int) as u32,
        interaction_count: 0,
        last_interaction_tick: 0,
    }
}

/// Whether `victim` is an entry of `entries` that no other entry is older than.
pub open spec fn is_oldest(entries: Map<Seq<u16>, CoherenceAccumulator>, victim: Seq<u16>) -> bool {
    &&& entries.contains_key(victim)
    &&& forall|k: Seq<u16>| #[trigger]
        entries.contains_key(k) ==> entries[victim].last_interaction_tick
            <= entries[k].last_interaction_tick
}

/// Whether `after` is `before` with room for one more entry: `before`
/// itself while it is below capacity, else `before` without one of its
/// oldest entries.
pub open spec fn room_made(
    before: Map<Seq<u16>, CoherenceAccumulator>,
    after: Map<Seq<u16>, CoherenceAccumulator>,
) -> bool {
    if before.len() < MAX_CONTEXTS {
        after == before
    } else {
        exists|victim: Seq<u16>| #[trigger] is_oldest(before, victim) && after == before.remove(victim)
    }
}

/// The trust field: a bounded map from contexts to accumulators.
///
/// A context is identified by its quantised feature vector. The field never
/// holds more than [`MAX_CONTEXTS`] entries: admitting a new context to a
/// full field first evicts an entry with the oldest interaction tick.
pub struct CoherenceField<V: SensorVocabulary<N>, const N: usize> {
    accumulators: ContextStore,
    personality_baseline: u32,
    fallback_coherence: Option<u32>,
    vocabulary: PhantomData<V>,
}

impl<V: SensorVocabulary<N>, const N: usize> CoherenceField<V, N> {
    /// The entries of the field, keyed by quantised feature vector.
    pub closed spec fn view(&self) -> Map<Seq<u16>, CoherenceAccumulator> {
        store_entries(self.accumulators)
    }

    /// The value returned for contexts that the field has never seen, if one is set.
    pub closed spec fn fallback(&self) -> Option<u32> {
        self.fallback_coherence
    }

    /// The field's own baseline, from which [`CoherenceField::get_or_create`]
    /// starts a context that it admits. An interaction starts a new
    /// context from the cold start of its personality instead.
    pub closed spec fn baseline(&self) -> u32 {
        self.personality_baseline
    }

    /// Whether the field is within its capacity.
    ///
    /// [`CoherenceField::new`] establishes this and every method keeps it.
    pub closed spec fn wf(&self) -> bool {
        &&& store_entries(self.accumulators).dom().finite()
        &&& store_entries(self.accumulators).len() <= MAX_CONTEXTS
    }

    /// A well-formed field holds finitely many contexts, at most [`MAX_CONTEXTS`].
    pub proof fn lemma_wf_bounded(&self)
        requires
            self.wf(),
        ensures
            self@.dom().finite(),
            self@.len() <= MAX_CONTEXTS,
    {
    }

    /// The accumulator at the field's own baseline, from which
    /// [`CoherenceField::get_or_create`] starts a context that it admits.
    pub open spec fn fresh(&self) -> CoherenceAccumulator {
        CoherenceAccumulator {
            value: baseline_of(curiosity_of(self.baseline() as int)) as u32,
            interaction_count: 0,
            last_interaction_tick: 0,
        }
    }

    /// The trust stored for a context, or else the fallback, or else zero.
    pub open spec fn coherence_of(&self, features: Seq<u16>) -> u32 {
        if self@.contains_key(features) {
            self@[features].value
        } else {
            match self.fallback() {
                Some(value) => value,
                None => 0,
            }
        }
    }

    /// The accumulator of a context as the field holds it, or `start` for
    /// a context not yet in the field.
    pub open spec fn entry_or(&self, features: Seq<u16>, start: CoherenceAccumulator) -> CoherenceAccumulator {
        if self@.contains_key(features) {
            self@[features]
        } else {
            start
        }
    }

    /// The accumulator of a context as the field holds it, or a fresh one
    /// at the field's own baseline for a context not yet in the field.
    pub open spec fn entry_or_fresh(&self, features: Seq<u16>) -> CoherenceAccumulator {
        self.entry_or(features, self.fresh())
    }

    /// The accumulator that an interaction with a context acts on: the
    /// stored one, or for a context not yet in the field one at the cold
    /// start of an agent of the given curiosity.
    pub open spec fn entry_or_cold(&self, features: Seq<u16>, curiosity_drive: u32) -> CoherenceAccumulator {
        self.entry_or(features, cold_start(curiosity_drive))
    }

    /// Whether `base` is what the field holds once the context `features`
    /// has a place in it: the entries as they are if the context is known,
    /// else the entries with room made.
    pub open spec fn makes_place(&self, features: Seq<u16>, base: Map<Seq<u16>, CoherenceAccumulator>) -> bool {
        if self@.contains_key(features) {
            base == self@
        } else {
            room_made(self@, base)
        }
    }

    /// An empty field with no fallback.
    pub fn new() -> (field: Self)
        ensures
            field@ == Map::<Seq<u16>, CoherenceAccumulator>::empty(),
            field.fallback() is None,
            field.baseline() == 0,
            field.wf(),
    {
        CoherenceField {
            accumulators: store_new(),
            personality_baseline: 0,
            fallback_coherence: None,
            vocabulary: PhantomData,
        }
    }

    /// The trust accumulated for a context: its stored value, or the
    /// fallback (zero without one) for a context never seen.
    pub fn context_coherence(&self, key: &ContextKey<V, N>) -> (ctx: u32)
        ensures
            ctx == self.coherence_of(key.features()),
    {
        let features: Vec<u16> = key.feature_vec();
        match store_get(&self.accumulators, &features) {
            Some(acc) => acc.value,
            None => match self.fallback_coherence {
                Some(value) => value,
                None => 0,
            },
        }
    }

    /// The number of positive interactions recorded for a context, zero if unseen.
    pub fn context_interaction_count(&self, key: &ContextKey<V, N>) -> (count: u32)
        ensures
            count == if self@.contains_key(key.features()) {
                self@[key.features()].interaction_count
            } else {
                0
            },
    {
        let features: Vec<u16> = key.feature_vec();
        match store_get(&self.accumulators, &features) {
            Some(acc) => acc.interaction_count,
            None => 0,
        }
    }

    /// The effective trust in a context: what was learned, gated against
    /// what is sensed now.
    pub fn effective_coherence(&self, instant: u32, key: &ContextKey<V, N>) -> (eff: u32)
        ensures
            eff == gate_of(instant as int, self.coherence_of(key.features()) as int),
            self.coherence_of(key.features()) < FAMILIAR_THRESHOLD ==> eff <= self.coherence_of(
                key.features(),
            ) && eff <= instant,
    {
        let ctx: u32 = self.context_coherence(key);
        if ctx < FAMILIAR_THRESHOLD {
            if instant < ctx {
                instant
            } else {
                ctx
            }
        } else {
            clamp_to_unit((3 * (instant as u64) + 7 * (ctx as u64)) / 10)
        }
    }

    /// The number of contexts in the field, never more than [`MAX_CONTEXTS`].
    pub fn context_count(&self) -> (n: usize)
        requires
            self.wf(),
        ensures
            n == self@.len(),
            n <= MAX_CONTEXTS,
    {
        store_len(&self.accumulators)
    }

    /// Sets or clears the value returned for contexts never seen.
    pub fn set_fallback(&mut self, value: Option<u32>)
        ensures
            final(self).fallback() == value,
            final(self)@ == old(self)@,
            final(self).baseline() == old(self).baseline(),
            final(self).wf() == old(self).wf(),
    {
        self.fallback_coherence = value;
    }

    /// The accumulator of a context, admitted first if the field does not
    /// know it: a new context starts from `start`, and if the field is
    /// full an entry with the oldest interaction tick makes room for it.
    fn entry_from(&mut self, key: &ContextKey<V, N>, start: CoherenceAccumulator) -> (acc: &mut CoherenceAccumulator)
        requires
            old(self).wf(),
        ensures
            final(self).wf(),
            *acc == old(self).entry_or(key.features(), start),
            exists|base: Map<Seq<u16>, CoherenceAccumulator>| #[trigger]
                old(self).makes_place(key.features(), base) && final(self)@ == base.insert(
                    key.features(),
                    *final(acc),
                ),
            final(self).fallback() == old(self).fallback(),
            final(self).baseline() == old(self).baseline(),
    {
        let features: Vec<u16> = key.feature_vec();
        let ghost before = self@;
        let ghost base = before;
        if store_get(&self.accumulators, &features).is_none() {
            if store_len(&self.accumulators) >= MAX_CONTEXTS {
                evict_oldest(&mut self.accumulators);
            }
            proof {
                base = store_entries(self.accumulators);
                assert(room_made(before, base));
            }
            store_insert(&mut self.accumulators, features.clone(), start);
        }
        let ghost held = store_entries(self.accumulators);
        assert(old(self).makes_place(key.features(), base));
        assert(held.contains_key(key.features()));
        assert(held =~= base.insert(key.features(), old(self).entry_or(key.features(), start)));
        let found = store_get_mut(&mut self.accumulators, &features);
        let acc: &mut CoherenceAccumulator = found.unwrap();
        proof {
            assert(held.insert(key.features(), *final(acc)) =~= base.insert(
                key.features(),
                *final(acc),
            ));
        }
        acc
    }

    /// The accumulator of a context, admitted first if the field does not
    /// know it: a new context starts from the field's own baseline, and if
    /// the field is full an entry with the oldest interaction tick makes
    /// room for it.
    ///
    /// What the caller writes through the returned borrow becomes the
    /// context's entry; no other entry is touched by the write.
    pub fn get_or_create(&mut self, key: &ContextKey<V, N>) -> (acc: &mut CoherenceAccumulator)
        requires
            old(self).wf(),
        ensures
            final(self).wf(),
            *acc == old(self).entry_or_fresh(key.features()),
            exists|base: Map<Seq<u16>, CoherenceAccumulator>| #[trigger]
                old(self).makes_place(key.features(), base) && final(self)@ == base.insert(
                    key.features(),
                    *final(acc),
                ),
            final(self).fallback() == old(self).fallback(),
            final(self).baseline() == old(self).baseline(),
    {
        let curiosity: u32 = if self.personality_baseline > 0 {
            clamp_to_unit(self.personality_baseline as u64 * 20 / 3)
        } else {
            0
        };
        let fresh: CoherenceAccumulator = CoherenceAccumulator::new_with_baseline(curiosity);
        self.entry_from(key, fresh)
    }

    /// Records a positive interaction with a context. A context that the
    /// field does not know is admitted first, at the cold start of the
    /// personality: a trust of `0.15 * curiosity_drive` and no history.
    ///
    /// The context's accumulator takes the step; every other entry that is
    /// still in the field afterwards is exactly as it was, and no entry
    /// leaves unless a new context had to be admitted to a full field.
    pub fn positive_interaction(
        &mut self,
        key: &ContextKey<V, N>,
        personality: &Personality,
        tick: u64,
        alone: bool,
    )
        requires
            old(self).wf(),
        ensures
            final(self).wf(),
            exists|base: Map<Seq<u16>, CoherenceAccumulator>| #[trigger]
                old(self).makes_place(key.features(), base) && final(self)@ == base.insert(
                    key.features(),
                    old(self).entry_or_cold(key.features(), personality.curiosity_drive).after_positive(
                        personality.recovery_speed,
                        tick,
                        alone,
                    ),
                ),
            isolated(old(self)@, final(self)@, key.features()),
            final(self).fallback() == old(self).fallback(),
            final(self).baseline() == old(self).baseline(),
    {
        let start: CoherenceAccumulator = CoherenceAccumulator::new_with_baseline(
            personality.curiosity_drive,
        );
        let acc: &mut CoherenceAccumulator = self.entry_from(key, start);
        acc.positive_interaction(personality.recovery_speed, tick, alone);
        proof {
            lemma_place_isolates(old(self)@, final(self)@, key.features());
        }
    }

    /// Records a negative interaction with a context. A context that the
    /// field does not know is admitted first, at the cold start of the
    /// personality: a trust of `0.15 * curiosity_drive` and no history.
    ///
    /// The context's accumulator takes the step; every other entry that is
    /// still in the field afterwards is exactly as it was, and no entry
    /// leaves unless a new context had to be admitted to a full field.
    pub fn negative_interaction(&mut self, key: &ContextKey<V, N>, personality: &Personality, tick: u64)
        requires
            old(self).wf(),
        ensures
            final(self).wf(),
            exists|base: Map<Seq<u16>, CoherenceAccumulator>| #[trigger]
                old(self).makes_place(key.features(), base) && final(self)@ == base.insert(
                    key.features(),
                    old(self).entry_or_cold(key.features(), personality.curiosity_drive).after_negative(
                        personality.startle_sensitivity,
                        tick,
                    ),
                ),
            isolated(old(self)@, final(self)@, key.features()),
            final(self).fallback() == old(self).fallback(),
            final(self).baseline() == old(self).baseline(),
    {
        let start: CoherenceAccumulator = CoherenceAccumulator::new_with_baseline(
            personality.curiosity_drive,
        );
        let acc: &mut CoherenceAccumulator = self.entry_from(key, start);
        acc.negative_interaction(personality.startle_sensitivity, tick);
        proof {
            lemma_place_isolates(old(self)@, final(self)@, key.features());
        }
    }

    /// Applies decay for `elapsed_ticks` of disuse to every accumulator.
    pub fn decay_all(&mut self, elapsed_ticks: u64)
        requires
            old(self).wf(),
        ensures
            final(self).wf(),
            final(self)@ == decayed(old(self)@, elapsed_ticks),
            final(self).fallback() == old(self).fallback(),
            final(self).baseline() == old(self).baseline(),
    {
        let items: Vec<(Vec<u16>, CoherenceAccumulator)> = store_items(&self.accumulators);
        let ghost before = self@;
        let mut i: usize = 0;
        while i < items.len()
            invariant
                i <= items.len(),
                lists_entries(items@, before),
                before.dom().finite(),
                self@.dom() == before.dom(),
                self.fallback() == old(self).fallback(),
                self.baseline() == old(self).baseline(),
                forall|j: int|
                    0 <= j < i ==> self@[(#[trigger] items@[j]).0@] == before[items@[j].0@].after_decay(
                        elapsed_ticks,
                    ),
                forall|j: int|
                    i <= j < items.len() ==> self@[(#[trigger] items@[j]).0@] == before[items@[j].0@],
            decreases items.len() - i,
        {
            let ghost held = self@;
            match store_get_mut(&mut self.accumulators, &items[i].0) {
                Some(acc) => {
                    acc.decay(elapsed_ticks);
                },
                None => {},
            }
            proof {
                let k = items@[i as int].0@;
                assert(held.contains_key(k));
                assert(self@ == held.insert(k, before[k].after_decay(elapsed_ticks)));
                assert(self@.dom() =~= before.dom());
                assert forall|j: int| 0 <= j < i + 1 implies self@[(#[trigger] items@[j]).0@]
                    == before[items@[j].0@].after_decay(elapsed_ticks) by {
                    if j < i {
                        assert(items@[j].0@ != items@[i as int].0@);
                    }
                }
                assert forall|j: int| i + 1 <= j < items.len() implies self@[(#[trigger] items@[j]).0@]
                    == before[items@[j].0@] by {
                    assert(items@[i as int].0@ != items@[j].0@);
                }
            }
            i = i + 1;
        }
        proof {
            assert forall|k: Seq<u16>| #[trigger] before.contains_key(k) implies self@[k]
                == before[k].after_decay(elapsed_ticks) by {
                let j = choose|j: int| 0 <= j < items@.len() && (#[trigger] items@[j]).0@ == k;
                assert(self@[items@[j].0@] == before[items@[j].0@].after_decay(elapsed_ticks));
            }
            assert(self@ =~= decayed(before, elapsed_ticks));
        }
    }

    /// Every entry of the field, once each, as the quantised feature vector
    /// of the context and a copy of its accumulator. The order is the one in
    /// which the underlying map walks its entries, and is not specified.
    pub fn iter(&self) -> (items: Vec<(Vec<u16>, CoherenceAccumulator)>)
        ensures
            lists_entries(items@, self@),
    {
        store_items(&self.accumulators)
    }

    /// Every context with its trust and its interaction count, the most
    /// interacted with first. Contexts with equal counts stand in the order
    /// in which the field lists them.
    pub fn all_entries(&self) -> (entries: Vec<(Vec<u16>, u32, u32)>)
        ensures
            summarises(entries@, self@),
            sorted_by_count(entries@),
    {
        let items: Vec<(Vec<u16>, CoherenceAccumulator)> = store_items(&self.accumulators);
        let ghost held = self@;
        let mut entries: Vec<(Vec<u16>, u32, u32)> = Vec::new();
        let mut i: usize = 0;
        while i < items.len()
            invariant
                i <= items@.len(),
                lists_entries(items@, held),
                sorted_summaries(entries@, items@, i as int),
            decreases items@.len() - i,
        {
            let count: u32 = items[i].1.interaction_count;
            let mut at: usize = 0;
            while at < entries.len() && entries[at].2 >= count
                invariant
                    at <= entries@.len(),
                    forall|p: int| 0 <= p < at ==> (#[trigger] entries@[p]).2 >= count,
                decreases entries@.len() - at,
            {
                at = at + 1;
            }
            let ghost before = entries@;
            let key: Vec<u16> = items[i].0.clone();
            let entry: (Vec<u16>, u32, u32) = (key, items[i].1.value, count);
            assert(summary_of(entry, items@[i as int]));
            entries.insert(at, entry);
            proof {
                lemma_insert_summary(before, at as int, entry, items@, i as int);
            }
            i = i + 1;
        }
        proof {
            lemma_summaries(entries@, items@, held);
        }
        entries
    }
}

impl<V: SensorVocabulary<N>, const N: usize> Default for CoherenceField<V, N> {
    fn default() -> (field: Self)
        ensures
            field@ == Map::<Seq<u16>, CoherenceAccumulator>::empty(),
            field.fallback() is None,
            field.baseline() == 0,
            field.wf(),
    {
        CoherenceField::new()
    }
}

/// Whether `entry` is the summary of `item`: its key, its value and its count.
pub open spec fn summary_of(entry: (Vec<u16>, u32, u32), item: (Vec<u16>, CoherenceAccumulator)) -> bool {
    &&& entry.0@ == item.0@
    &&& entry.1 == item.1.value
    &&& entry.2 == item.1.interaction_count
}

/// Whether some entry is the summary of `item`.
pub open spec fn has_summary(
    entries: Seq<(Vec<u16>, u32, u32)>,
    item: (Vec<u16>, CoherenceAccumulator),
) -> bool {
    exists|p: int| 0 <= p < entries.len() && #[trigger] summary_of(entries[p], item)
}

/// Whether `entry` is the summary of one of the first `upto` items.
pub open spec fn summarises_one(
    entry: (Vec<u16>, u32, u32),
    items: Seq<(Vec<u16>, CoherenceAccumulator)>,
    upto: int,
) -> bool {
    exists|j: int| 0 <= j < upto && #[trigger] summary_of(entry, items[j])
}

/// Whether `entries` lists every entry of `held` exactly once, as key, value and count.
pub open spec fn summarises(
    entries: Seq<(Vec<u16>, u32, u32)>,
    held: Map<Seq<u16>, CoherenceAccumulator>,
) -> bool {
    &&& entries.len() == held.len()
    &&& forall|p: int|
        0 <= p < entries.len() ==> held.contains_key((#[trigger] entries[p]).0@) && held[entries[p].0@].value
            == entries[p].1 && held[entries[p].0@].interaction_count == entries[p].2
    &&& forall|p: int, q: int|
        0 <= p < q < entries.len() ==> (#[trigger] entries[p]).0@ != (#[trigger] entries[q]).0@
    &&& forall|k: Seq<u16>| #[trigger]
        held.contains_key(k) ==> exists|p: int|
            0 <= p < entries.len() && (#[trigger] entries[p]).0@ == k
}

/// Whether the counts never rise along `entries`.
pub open spec fn sorted_by_count(entries: Seq<(Vec<u16>, u32, u32)>) -> bool {
    forall|p: int, q: int|
        0 <= p < q < entries.len() ==> (#[trigger] entries[p]).2 >= (#[trigger] entries[q]).2
}

/// Whether `entries` is a listing by falling count of the first `upto`
/// items: one summary for each of them and nothing else, no key twice.
pub open spec fn sorted_summaries(
    entries: Seq<(Vec<u16>, u32, u32)>,
    items: Seq<(Vec<u16>, CoherenceAccumulator)>,
    upto: int,
) -> bool {
    &&& entries.len() == upto
    &&& sorted_by_count(entries)
    &&& forall|p: int, q: int|
        0 <= p < q < upto ==> (#[trigger] entries[p]).0@ != (#[trigger] entries[q]).0@
    &&& forall|j: int| 0 <= j < upto ==> has_summary(entries, #[trigger] items[j])
    &&& forall|p: int| 0 <= p < upto ==> summarises_one(#[trigger] entries[p], items, upto)
}

/// Inserting the summary of the next item behind the entries of at least
/// its count, and before the first entry of a lower count, keeps the
/// listing sorted and complete.
proof fn lemma_insert_summary(
    before: Seq<(Vec<u16>, u32, u32)>,
    at: int,
    entry: (Vec<u16>, u32, u32),
    items: Seq<(Vec<u16>, CoherenceAccumulator)>,
    i: int,
)
    requires
        0 <= i < items.len(),
        sorted_summaries(before, items, i),
        forall|j: int, k: int|
            0 <= j < k < items.len() ==> (#[trigger] items[j]).0@ != (#[trigger] items[k]).0@,
        summary_of(entry, items[i]),
        0 <= at <= i,
        forall|p: int| 0 <= p < at ==> (#[trigger] before[p]).2 >= entry.2,
        at < i ==> before[at].2 < entry.2,
    ensures
        sorted_summaries(before.insert(at, entry), items, i + 1),
{
    lemma_insert_complete(before, at, entry, items, i);
    lemma_insert_sound(before, at, entry, items, i);
    lemma_insert_distinct(before, at, entry, items, i);
    lemma_insert_sorted(before, at, entry);
}

proof fn lemma_insert_complete(
    before: Seq<(Vec<u16>, u32, u32)>,
    at: int,
    entry: (Vec<u16>, u32, u32),
    items: Seq<(Vec<u16>, CoherenceAccumulator)>,
    i: int,
)
    requires
        0 <= i < items.len(),
        before.len() == i,
        0 <= at <= i,
        summary_of(entry, items[i]),
        forall|j: int| 0 <= j < i ==> has_summary(before, #[trigger] items[j]),
    ensures
        forall|j: int| 0 <= j < i + 1 ==> has_summary(before.insert(at, entry), #[trigger] items[j]),
{
    let after = before.insert(at, entry);
    assert forall|j: int| 0 <= j < i + 1 implies has_summary(after, #[trigger] items[j]) by {
        if j < i {
            assert(has_summary(before, items[j]));
            let p = choose|p: int| 0 <= p < before.len() && #[trigger] summary_of(before[p], items[j]);
            if p < at {
                assert(after[p] == before[p]);
                assert(summary_of(after[p], items[j]));
            } else {
                assert(after[p + 1] == before[p]);
                assert(summary_of(after[p + 1], items[j]));
            }
        } else {
            assert(after[at] == entry);
            assert(summary_of(after[at], items[j]));
        }
    }
}

proof fn lemma_insert_sound(
    before: Seq<(Vec<u16>, u32, u32)>,
    at: int,
    entry: (Vec<u16>, u32, u32),
    items: Seq<(Vec<u16>, CoherenceAccumulator)>,
    i: int,
)
    requires
        0 <= i < items.len(),
        before.len() == i,
        0 <= at <= i,
        summary_of(entry, items[i]),
        forall|p: int| 0 <= p < i ==> summarises_one(#[trigger] before[p], items, i),
    ensures
        forall|p: int|
            0 <= p < i + 1 ==> summarises_one(#[trigger] before.insert(at, entry)[p], items, i + 1),
{
    let after = before.insert(at, entry);
    assert forall|p: int| 0 <= p < i + 1 implies summarises_one(#[trigger] after[p], items, i + 1) by {
        if p < at {
            assert(after[p] == before[p]);
            assert(summarises_one(before[p], items, i));
            let j = choose|j: int| 0 <= j < i && #[trigger] summary_of(before[p], items[j]);
            assert(summary_of(after[p], items[j]));
        } else if p == at {
            assert(after[p] == entry);
            assert(summary_of(after[p], items[i]));
        } else {
            assert(after[p] == before[p - 1]);
            assert(summarises_one(before[p - 1], items, i));
            let j = choose|j: int| 0 <= j < i && #[trigger] summary_of(before[p - 1], items[j]);
            assert(summary_of(after[p], items[j]));
        }
    }
}

proof fn lemma_insert_distinct(
    before: Seq<(Vec<u16>, u32, u32)>,
    at: int,
    entry: (Vec<u16>, u32, u32),
    items: Seq<(Vec<u16>, CoherenceAccumulator)>,
    i: int,
)
    requires
        0 <= i < items.len(),
        before.len() == i,
        0 <= at <= i,
        summary_of(entry, items[i]),
        forall|j: int, k: int|
            0 <= j < k < items.len() ==> (#[trigger] items[j]).0@ != (#[trigger] items[k]).0@,
        forall|p: int| 0 <= p < i ==> summarises_one(#[trigger] before[p], items, i),
        forall|p: int, q: int|
            0 <= p < q < i ==> (#[trigger] before[p]).0@ != (#[trigger] before[q]).0@,
    ensures
        forall|p: int, q: int|
            0 <= p < q < i + 1 ==> (#[trigger] before.insert(at, entry)[p]).0@
                != (#[trigger] before.insert(at, entry)[q]).0@,
{
    let after = before.insert(at, entry);
    assert forall|p: int| 0 <= p < i implies (#[trigger] before[p]).0@ != entry.0@ by {
        assert(summarises_one(before[p], items, i));
        let j = choose|j: int| 0 <= j < i && #[trigger] summary_of(before[p], items[j]);
        assert(items[j].0@ != items[i].0@);
    }
    assert forall|p: int, q: int| 0 <= p < q < i + 1 implies (#[trigger] after[p]).0@
        != (#[trigger] after[q]).0@ by {
        if p < at && q < at {
            assert(after[p] == before[p] && after[q] == before[q]);
        } else if p < at && q == at {
            assert(after[p] == before[p] && after[q] == entry);
        } else if p < at {
            assert(after[p] == before[p] && after[q] == before[q - 1]);
        } else if p == at {
            assert(after[p] == entry && after[q] == before[q - 1]);
        } else {
            assert(after[p] == before[p - 1] && after[q] == before[q - 1]);
        }
    }
}

proof fn lemma_insert_sorted(
    before: Seq<(Vec<u16>, u32, u32)>,
    at: int,
    entry: (Vec<u16>, u32, u32),
)
    requires
        0 <= at <= before.len(),
        sorted_by_count(before),
        forall|p: int| 0 <= p < at ==> (#[trigger] before[p]).2 >= entry.2,
        at < before.len() ==> before[at].2 < entry.2,
    ensures
        sorted_by_count(before.insert(at, entry)),
{
    let after = before.insert(at, entry);
    assert forall|q: int| at <= q < before.len() implies (#[trigger] before[q]).2 < entry.2 by {
        if q > at {
            assert(before[at].2 >= before[q].2);
        }
    }
    assert forall|p: int, q: int| 0 <= p < q < after.len() implies (#[trigger] after[p]).2
        >= (#[trigger] after[q]).2 by {
        if p < at && q < at {
            assert(after[p] == before[p] && after[q] == before[q]);
        } else if p < at && q == at {
            assert(after[p] == before[p] && after[q] == entry);
        } else if p < at {
            assert(after[p] == before[p] && after[q] == before[q - 1]);
        } else if p == at {
            assert(after[p] == entry && after[q] == before[q - 1]);
        } else {
            assert(after[p] == before[p - 1] && after[q] == before[q - 1]);
        }
    }
}

/// Summaries that match the items of a field one for one list the field.
proof fn lemma_summaries(
    entries: Seq<(Vec<u16>, u32, u32)>,
    items: Seq<(Vec<u16>, CoherenceAccumulator)>,
    held: Map<Seq<u16>, CoherenceAccumulator>,
)
    requires
        lists_entries(items, held),
        sorted_summaries(entries, items, items.len() as int),
    ensures
        summarises(entries, held),
{
    let n = items.len() as int;
    assert forall|p: int| 0 <= p < n implies held.contains_key((#[trigger] entries[p]).0@)
        && held[entries[p].0@].value == entries[p].1 && held[entries[p].0@].interaction_count
        == entries[p].2 by {
        assert(summarises_one(entries[p], items, n));
        let j = choose|j: int| 0 <= j < n && #[trigger] summary_of(entries[p], items[j]);
        assert(summary_of(entries[p], items[j]));
        assert(held.contains_key(items[j].0@));
    }
    assert forall|k: Seq<u16>| #[trigger] held.contains_key(k) implies exists|p: int|
        0 <= p < entries.len() && (#[trigger] entries[p]).0@ == k by {
        let j = choose|j: int| 0 <= j < n && (#[trigger] items[j]).0@ == k;
        assert(has_summary(entries, items[j]));
        let p = choose|p: int| 0 <= p < n && #[trigger] summary_of(entries[p], items[j]);
        assert(entries[p].0@ == k);
    }
}

/// The entries of a field after `elapsed_ticks` of disuse: the same
/// contexts, each accumulator decayed.
pub open spec fn decayed(entries: Map<Seq<u16>, CoherenceAccumulator>, elapsed_ticks: u64) -> Map<
    Seq<u16>,
    CoherenceAccumulator,
> {
    Map::new(
        |k: Seq<u16>| entries.contains_key(k),
        |k: Seq<u16>| entries[k].after_decay(elapsed_ticks),
    )
}

/// Whether a change of the field kept to one context. Between `before` and
/// `after`, whatever happened to the context `touched`: every other
/// context still present is unchanged, none has appeared, and none has left
/// if `touched` was already known or the field had room.
pub open spec fn isolated(
    before: Map<Seq<u16>, CoherenceAccumulator>,
    after: Map<Seq<u16>, CoherenceAccumulator>,
    touched: Seq<u16>,
) -> bool {
    &&& forall|other: Seq<u16>|
        other != touched && #[trigger] after.contains_key(other) ==> before.contains_key(other)
            && after[other] == before[other]
    &&& before.contains_key(touched) || before.len() < MAX_CONTEXTS ==> forall|other: Seq<u16>|
        other != touched && #[trigger] before.contains_key(other) ==> after.contains_key(other)
}

/// Giving one context its place, and then writing its entry, isolates
/// every other context.
pub proof fn lemma_place_isolates(
    before: Map<Seq<u16>, CoherenceAccumulator>,
    after: Map<Seq<u16>, CoherenceAccumulator>,
    touched: Seq<u16>,
)
    requires
        exists|base: Map<Seq<u16>, CoherenceAccumulator>, acc: CoherenceAccumulator|
            (if before.contains_key(touched) {
                base == before
            } else {
                room_made(before, base)
            }) && after == #[trigger] base.insert(touched, acc),
    ensures
        isolated(before, after, touched),
{
}

/// Removes an entry with the oldest interaction tick, if there is any entry.
fn evict_oldest(store: &mut ContextStore)
    requires
        store_entries(*old(store)).dom().finite(),
    ensures
        store_entries(*old(store)).len() == 0 ==> store_entries(*final(store)) == store_entries(
            *old(store),
        ),
        store_entries(*old(store)).len() > 0 ==> exists|victim: Seq<u16>| #[trigger]
            is_oldest(store_entries(*old(store)), victim) && store_entries(*final(store))
                == store_entries(*old(store)).remove(victim),
{
    let items: Vec<(Vec<u16>, CoherenceAccumulator)> = store_items(store);
    let ghost entries = store_entries(*store);
    if items.len() == 0 {
        return ;
    }
    let mut best: usize = 0;
    let mut i: usize = 1;
    while i < items.len()
        invariant
            best < i <= items.len(),
            forall|j: int|
                0 <= j < i ==> items@[best as int].1.last_interaction_tick
                    <= (#[trigger] items@[j]).1.last_interaction_tick,
        decreases items.len() - i,
    {
        if items[i].1.last_interaction_tick < items[best].1.last_interaction_tick {
            best = i;
        }
        i = i + 1;
    }
    let ghost victim = items@[best as int].0@;
    assert(is_oldest(entries, victim)) by {
        assert(entries.contains_key(items@[best as int].0@));
        assert forall|k: Seq<u16>| #[trigger] entries.contains_key(k) implies entries[victim].last_interaction_tick
            <= entries[k].last_interaction_tick by {
            let j = choose|j: int| 0 <= j < items@.len() && (#[trigger] items@[j]).0@ == k;
            assert(entries[items@[j].0@] == items@[j].1);
        }
    }
    store_remove(store, &items[best].0);
}

} // verus!
