//! A portable snapshot of a trust field.
//!
//! A snapshot works at the level of hashes: of each context it keeps the
//! FNV-1a hash of its feature vector and the three numbers of its
//! accumulator. How a snapshot is written to bytes is not decided here.

use vstd::prelude::*;
use crate::accumulator::CoherenceAccumulator;
use crate::field::CoherenceField;
use crate::phase::Personality;
use crate::store::lists_entries;
use crate::vocabulary::{fnv1a, hash_features, SensorVocabulary};

verus! {

/// The four bytes `CCFS` that mark a snapshot.
pub const CCF_SEG_MAGIC: u32 = 0x4343_4653;

/// The version of the snapshot layout.
pub const CCF_SEG_VERSION: u16 = 1;

/// The personality modulators as a snapshot keeps them.
#[derive(Clone, Copy, Debug, PartialEq, Eq, Structural)]
pub struct PersonalityRecord {
    /// Drive to explore new contexts.
    pub curiosity_drive: u32,
    /// Sensitivity to aversive events.
    pub startle_sensitivity: u32,
    /// Speed of recovery.
    pub recovery_speed: u32,
}

impl PersonalityRecord {
    /// The record of a personality.
    pub open spec fn of(p: Personality) -> PersonalityRecord {
        PersonalityRecord {
            curiosity_drive: p.curiosity_drive,
            startle_sensitivity: p.startle_sensitivity,
            recovery_speed: p.recovery_speed,
        }
    }

    /// The personality of a record.
    pub open spec fn personality(self) -> Personality {
        Personality {
            curiosity_drive: self.curiosity_drive,
            startle_sensitivity: self.startle_sensitivity,
            recovery_speed: self.recovery_speed,
        }
    }

    /// Records a personality.
    pub fn from_personality(p: &Personality) -> (record: Self)
        ensures
            record == PersonalityRecord::of(*p),
    {
        PersonalityRecord {
            curiosity_drive: p.curiosity_drive,
            startle_sensitivity: p.startle_sensitivity,
            recovery_speed: p.recovery_speed,
        }
    }

    /// Restores the personality.
    pub fn to_personality(&self) -> (p: Personality)
        ensures
            p == self.personality(),
    {
        Personality {
            curiosity_drive: self.curiosity_drive,
            startle_sensitivity: self.startle_sensitivity,
            recovery_speed: self.recovery_speed,
        }
    }
}

impl<'a> From<&'a Personality> for PersonalityRecord {
    fn from(p: &'a Personality) -> (record: Self) {
        PersonalityRecord::from_personality(p)
    }
}

impl<'a> vstd::std_specs::convert::FromSpecImpl<&'a Personality> for PersonalityRecord {
    open spec fn obeys_from_spec() -> bool {
        true
    }

    open spec fn from_spec(p: &'a Personality) -> Self {
        PersonalityRecord::of(*p)
    }
}

impl<'a> From<&'a PersonalityRecord> for Personality {
    fn from(r: &'a PersonalityRecord) -> (p: Self) {
        r.to_personality()
    }
}

impl<'a> vstd::std_specs::convert::FromSpecImpl<&'a PersonalityRecord> for Personality {
    open spec fn obeys_from_spec() -> bool {
        true
    }

    open spec fn from_spec(r: &'a PersonalityRecord) -> Self {
        r.personality()
    }
}

/// One context as a snapshot keeps it.
#[derive(Clone, Copy, Debug, PartialEq, Eq, Structural)]
pub struct ContextRecord {
    /// FNV-1a hash of the context's feature vector.
    pub context_hash: u32,
    /// Accumulated trust.
    pub coherence_value: u32,
    /// Positive interactions recorded.
    pub interaction_count: u32,
    /// Tick of the most recent interaction.
    pub last_interaction_tick: u64,
}

impl ContextRecord {
    /// The record of an accumulator under a hash.
    pub open spec fn of(hash: u32, acc: CoherenceAccumulator) -> ContextRecord {
        ContextRecord {
            context_hash: hash,
            coherence_value: acc.value,
            interaction_count: acc.interaction_count,
            last_interaction_tick: acc.last_interaction_tick,
        }
    }

    /// Records an accumulator under a hash.
    pub fn from_entry(hash: u32, acc: &CoherenceAccumulator) -> (record: Self)
        ensures
            record == ContextRecord::of(hash, *acc),
    {
        ContextRecord {
            context_hash: hash,
            coherence_value: acc.value,
            interaction_count: acc.interaction_count,
            last_interaction_tick: acc.last_interaction_tick,
        }
    }
}

impl<'a> From<(u32, &'a CoherenceAccumulator)> for ContextRecord {
    fn from(entry: (u32, &'a CoherenceAccumulator)) -> (record: Self) {
        ContextRecord::from_entry(entry.0, entry.1)
    }
}

impl<'a> vstd::std_specs::convert::FromSpecImpl<(u32, &'a CoherenceAccumulator)> for ContextRecord {
    open spec fn obeys_from_spec() -> bool {
        true
    }

    open spec fn from_spec(entry: (u32, &'a CoherenceAccumulator)) -> Self {
        ContextRecord::of(entry.0, *entry.1)
    }
}

/// A snapshot of a field and a personality.
#[derive(Clone, Debug)]
pub struct CcfSegSnapshot {
    /// Layout version.
    pub version: u16,
    /// When the field was created, in seconds since the epoch; zero if unknown.
    pub created_at: i64,
    /// When the field was last interacted with, in seconds since the epoch.
    pub last_active_at: i64,
    /// Interactions recorded across all contexts since creation.
    pub total_interactions: u64,
    /// The personality at the time of the snapshot.
    pub personality: PersonalityRecord,
    /// One record for each context of the field.
    pub contexts: Vec<ContextRecord>,
}

/// Whether `records` holds, item for item, the record of each of `items`.
pub open spec fn records_of(
    records: Seq<ContextRecord>,
    items: Seq<(Vec<u16>, CoherenceAccumulator)>,
) -> bool {
    &&& records.len() == items.len()
    &&& forall|i: int|
        0 <= i < records.len() ==> #[trigger] records[i] == ContextRecord::of(
            fnv1a(items[i].0@),
            items[i].1,
        )
}

impl CcfSegSnapshot {
    /// Takes a snapshot of a field: one record for each of its contexts,
    /// in the order in which the field lists them, with the given
    /// personality and metadata.
    pub fn from_field<V: SensorVocabulary<N>, const N: usize>(
        field: &CoherenceField<V, N>,
        personality: &Personality,
        created_at: i64,
        last_active_at: i64,
        total_interactions: u64,
    ) -> (snapshot: Self)
        ensures
            snapshot.version == CCF_SEG_VERSION,
            snapshot.created_at == created_at,
            snapshot.last_active_at == last_active_at,
            snapshot.total_interactions == total_interactions,
            snapshot.personality == PersonalityRecord::of(*personality),
            snapshot.contexts@.len() == field@.len(),
            exists|items: Seq<(Vec<u16>, CoherenceAccumulator)>|
                lists_entries(items, field@) && #[trigger] records_of(snapshot.contexts@, items),
    {
        let items: Vec<(Vec<u16>, CoherenceAccumulator)> = field.iter();
        let mut contexts: Vec<ContextRecord> = Vec::new();
        let mut i: usize = 0;
        while i < items.len()
            invariant
                i <= items@.len(),
                contexts@.len() == i,
                forall|j: int|
                    0 <= j < i ==> #[trigger] contexts@[j] == ContextRecord::of(
                        fnv1a(items@[j].0@),
                        items@[j].1,
                    ),
            decreases items@.len() - i,
        {
            let hash: u32 = hash_features(items[i].0.as_slice());
            contexts.push(ContextRecord::from_entry(hash, &items[i].1));
            i = i + 1;
        }
        assert(records_of(contexts@, items@));
        CcfSegSnapshot {
            version: CCF_SEG_VERSION,
            created_at,
            last_active_at,
            total_interactions,
            personality: PersonalityRecord::from_personality(personality),
            contexts,
        }
    }

    /// The number of contexts in the snapshot.
    pub fn context_count(&self) -> (n: usize)
        ensures
            n == self.contexts@.len(),
    {
        self.contexts.len()
    }

    /// The first record with the given hash, if there is one.
    pub fn find_context(&self, hash: u32) -> (found: Option<&ContextRecord>)
        ensures
            match found {
                Some(record) => exists|i: int|
                    0 <= i < self.contexts@.len() && self.contexts@[i] == *record
                        && record.context_hash == hash && forall|j: int|
                        0 <= j < i ==> (#[trigger] self.contexts@[j]).context_hash != hash,
                None => forall|j: int|
                    0 <= j < self.contexts@.len() ==> (#[trigger] self.contexts@[j]).context_hash
                        != hash,
            },
    {
        let mut i: usize = 0;
        while i < self.contexts.len()
            invariant
                i <= self.contexts@.len(),
                forall|j: int| 0 <= j < i ==> (#[trigger] self.contexts@[j]).context_hash != hash,
            decreases self.contexts@.len() - i,
        {
            if self.contexts[i].context_hash == hash {
                return Some(&self.contexts[i]);
            }
            i = i + 1;
        }
        None
    }
}

} // verus!
