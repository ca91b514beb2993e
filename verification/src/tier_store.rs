//! The fixed-capacity maps behind the two-tier context map.
//!
//! Both tiers live in `heapless::FnvIndexMap`s of 64 slots. Nothing in
//! this file is proved: each function below makes one call into `heapless`,
//! and its contract says, over [`fine_entries`] or [`class_entries`], what
//! that call is documented to do. The order in which the maps list their
//! entries is left open.

use vstd::prelude::*;
use crate::accumulator::CoherenceAccumulator;
use crate::cardinality::Tier1Class;

verus! {

/// The number of slots of each map.
pub const TIER_CAPACITY: usize = 64;

/// A `heapless::FnvIndexMap` from quantised feature vectors to accumulators.
///
/// The map type names a hasher of a crate that this one does not depend on,
/// so it is held behind this opaque struct.
#[verifier::external_body]
pub struct FineStore {
    map: heapless::FnvIndexMap<Vec<u16>, CoherenceAccumulator, 64>,
}

/// A `heapless::FnvIndexMap` from coarse keys to classes.
#[verifier::external_body]
pub struct ClassStore {
    map: heapless::FnvIndexMap<u64, Tier1Class, 64>,
}

/// What a fine store holds.
pub uninterp spec fn fine_entries(store: FineStore) -> Map<Seq<u16>, CoherenceAccumulator>;

/// What a class store holds.
pub uninterp spec fn class_entries(store: ClassStore) -> Map<u64, Tier1Class>;

/// Whether `items` lists every entry of `entries` exactly once, in any order.
pub open spec fn lists_fine(
    items: Seq<(Vec<u16>, CoherenceAccumulator)>,
    entries: Map<Seq<u16>, CoherenceAccumulator>,
) -> bool {
    crate::store::lists_entries(items, entries)
}

/// Whether `keys` lists every key of `entries` exactly once, in any order,
/// each with the tick of its class's accumulator.
pub open spec fn lists_classes(keys: Seq<(u64, u64)>, entries: Map<u64, Tier1Class>) -> bool {
    &&& keys.len() == entries.len()
    &&& forall|i: int|
        0 <= i < keys.len() ==> entries.contains_key((#[trigger] keys[i]).0)
            && entries[keys[i].0].accumulator.last_interaction_tick == keys[i].1
    &&& forall|i: int, j: int| 0 <= i < j < keys.len() ==> (#[trigger] keys[i]).0 != (#[trigger] keys[j]).0
    &&& forall|k: u64| #[trigger]
        entries.contains_key(k) ==> exists|i: int| 0 <= i < keys.len() && (#[trigger] keys[i]).0 == k
}

/// `IndexMap::new`: a map with no entries.
#[verifier::external_body]
pub(crate) fn fine_new() -> (store: FineStore)
    ensures
        fine_entries(store) =~= Map::empty(),
        fine_entries(store).dom().finite(),
{
    FineStore { map: heapless::FnvIndexMap::new() }
}

/// `IndexMap::len`: the number of entries.
#[verifier::external_body]
pub(crate) fn fine_len(store: &FineStore) -> (n: usize)
    ensures
        n == fine_entries(*store).len(),
{
    store.map.len()
}

/// `IndexMap::get`: the accumulator stored under `key`, if there is one.
#[verifier::external_body]
pub(crate) fn fine_get<'a>(store: &'a FineStore, key: &Vec<u16>) -> (found: Option<
    &'a CoherenceAccumulator,
>)
    ensures
        found is Some == fine_entries(*store).contains_key(key@),
        found is Some ==> *found->0 == fine_entries(*store)[key@],
{
    store.map.get(key)
}

/// `IndexMap::get_mut`: a mutable borrow of the accumulator stored under
/// `key`, if there is one. Writing through the borrow replaces that entry
/// and no other; without an entry the map is unchanged.
#[verifier::external_body]
pub(crate) fn fine_get_mut<'a>(store: &'a mut FineStore, key: &Vec<u16>) -> (found: Option<
    &'a mut CoherenceAccumulator,
>)
    ensures
        found is Some == fine_entries(*old(store)).contains_key(key@),
        found is Some ==> *found->0 == fine_entries(*old(store))[key@],
        found is Some ==> fine_entries(*final(store)) == fine_entries(*old(store)).insert(
            key@,
            *final(found->0),
        ),
        found is None ==> fine_entries(*final(store)) == fine_entries(*old(store)),
{
    store.map.get_mut(key)
}

/// `IndexMap::insert`: stores `acc` under `key` and says whether it did.
/// A key that is present has its value replaced; a key that is new is
/// added if fewer than 64 entries are held, and refused otherwise, the map
/// being left as it was.
#[verifier::external_body]
pub(crate) fn fine_insert(store: &mut FineStore, key: Vec<u16>, acc: CoherenceAccumulator) -> (stored:
    bool)
    ensures
        stored == (fine_entries(*old(store)).contains_key(key@) || fine_entries(*old(store)).len()
            < TIER_CAPACITY),
        stored ==> fine_entries(*final(store)) == fine_entries(*old(store)).insert(key@, acc),
        !stored ==> fine_entries(*final(store)) == fine_entries(*old(store)),
{
    store.map.insert(key, acc).is_ok()
}

/// `IndexMap::remove`: removes the entry under `key`, if there is one, and
/// returns its accumulator.
#[verifier::external_body]
pub(crate) fn fine_remove(store: &mut FineStore, key: &Vec<u16>) -> (removed: Option<
    CoherenceAccumulator,
>)
    ensures
        fine_entries(*final(store)) == fine_entries(*old(store)).remove(key@),
        removed is Some == fine_entries(*old(store)).contains_key(key@),
        removed is Some ==> removed->0 == fine_entries(*old(store))[key@],
{
    store.map.remove(key)
}

/// `IndexMap::iter`, collected: every entry once, as a copy.
#[verifier::external_body]
pub(crate) fn fine_items(store: &FineStore) -> (items: Vec<(Vec<u16>, CoherenceAccumulator)>)
    ensures
        lists_fine(items@, fine_entries(*store)),
{
    store.map.iter().map(|(k, a)| (k.clone(), *a)).collect()
}

/// `IndexMap::new`: a map with no entries.
#[verifier::external_body]
pub(crate) fn class_new() -> (store: ClassStore)
    ensures
        class_entries(store) =~= Map::empty(),
        class_entries(store).dom().finite(),
{
    ClassStore { map: heapless::FnvIndexMap::new() }
}

/// `IndexMap::len`: the number of entries.
#[verifier::external_body]
pub(crate) fn class_len(store: &ClassStore) -> (n: usize)
    ensures
        n == class_entries(*store).len(),
{
    store.map.len()
}

/// `IndexMap::get`: the class stored under `key`, if there is one.
#[verifier::external_body]
pub(crate) fn class_get<'a>(store: &'a ClassStore, key: u64) -> (found: Option<&'a Tier1Class>)
    ensures
        found is Some == class_entries(*store).contains_key(key),
        found is Some ==> *found->0 == class_entries(*store)[key],
{
    store.map.get(&key)
}

/// `IndexMap::get_mut`: a mutable borrow of the class stored under `key`,
/// if there is one. Writing through the borrow replaces that entry and no
/// other; without an entry the map is unchanged.
#[verifier::external_body]
pub(crate) fn class_get_mut<'a>(store: &'a mut ClassStore, key: u64) -> (found: Option<
    &'a mut Tier1Class,
>)
    ensures
        found is Some == class_entries(*old(store)).contains_key(key),
        found is Some ==> *found->0 == class_entries(*old(store))[key],
        found is Some ==> class_entries(*final(store)) == class_entries(*old(store)).insert(
            key,
            *final(found->0),
        ),
        found is None ==> class_entries(*final(store)) == class_entries(*old(store)),
{
    store.map.get_mut(&key)
}

/// `IndexMap::insert`: stores `class` under `key` and says whether it did.
/// A key that is present has its value replaced; a key that is new is
/// added if fewer than 64 entries are held, and refused otherwise, the map
/// being left as it was.
#[verifier::external_body]
pub(crate) fn class_insert(store: &mut ClassStore, key: u64, class: Tier1Class) -> (stored: bool)
    ensures
        stored == (class_entries(*old(store)).contains_key(key) || class_entries(*old(store)).len()
            < TIER_CAPACITY),
        stored ==> class_entries(*final(store)) == class_entries(*old(store)).insert(key, class),
        !stored ==> class_entries(*final(store)) == class_entries(*old(store)),
{
    store.map.insert(key, class).is_ok()
}

/// `IndexMap::remove`: removes the entry under `key`, if there is one.
#[verifier::external_body]
pub(crate) fn class_remove(store: &mut ClassStore, key: u64) -> (removed: bool)
    ensures
        class_entries(*final(store)) == class_entries(*old(store)).remove(key),
        removed == class_entries(*old(store)).contains_key(key),
{
    store.map.remove(&key).is_some()
}

/// `IndexMap::iter`, collected: every key once, with the tick of the
/// accumulator of its class.
#[verifier::external_body]
pub(crate) fn class_ticks(store: &ClassStore) -> (keys: Vec<(u64, u64)>)
    ensures
        lists_classes(keys@, class_entries(*store)),
{
    store.map.iter().map(|(k, c)| (*k, c.accumulator.last_interaction_tick)).collect()
}

} // verus!
