//! The hash map behind the trust field.
//!
//! The accumulators of a field live in a `hashbrown::HashMap` keyed by the
//! quantised feature vector of their context. Nothing in this file is
//! proved: each function below makes one call into `hashbrown`, and its
//! contract says, over [`store_entries`], what that call is documented to
//! do. Everything that the field decides is proved against these contracts.

use vstd::prelude::*;
use crate::accumulator::CoherenceAccumulator;

verus! {

/// A `hashbrown::HashMap` from quantised feature vectors to accumulators.
///
/// The map type has an allocator parameter bounded by a trait that its crate
/// does not export, so it is held behind this opaque struct.
#[verifier::external_body]
pub struct ContextStore {
    map: hashbrown::HashMap<Vec<u16>, CoherenceAccumulator>,
}

/// The most entries that a store is asked to hold. The map grows on
/// demand; the limit keeps every insertion far from the sizes at which
/// growing fails.
pub const STORE_LIMIT: usize = 64;

/// What a store holds: the map from each key's contents to its accumulator.
pub uninterp spec fn store_entries(store: ContextStore) -> Map<Seq<u16>, CoherenceAccumulator>;

/// Whether `items` lists every entry of `entries` exactly once, in any order.
pub open spec fn lists_entries(
    items: Seq<(Vec<u16>, CoherenceAccumulator)>,
    entries: Map<Seq<u16>, CoherenceAccumulator>,
) -> bool {
    &&& items.len() == entries.len()
    &&& forall|i: int|
        0 <= i < items.len() ==> entries.contains_key((#[trigger] items[i]).0@) && entries[items[i].0@]
            == items[i].1
    &&& forall|i: int, j: int|
        0 <= i < j < items.len() ==> (#[trigger] items[i]).0@ != (#[trigger] items[j]).0@
    &&& forall|k: Seq<u16>| #[trigger]
        entries.contains_key(k) ==> exists|i: int| 0 <= i < items.len() && (#[trigger] items[i]).0@ == k
}

/// `HashMap::new`: a map with no entries.
#[verifier::external_body]
pub(crate) fn store_new() -> (store: ContextStore)
    ensures
        store_entries(store) =~= Map::empty(),
        store_entries(store).dom().finite(),
{
    ContextStore { map: hashbrown::HashMap::new() }
}

/// `HashMap::len`: the number of entries.
#[verifier::external_body]
pub(crate) fn store_len(store: &ContextStore) -> (n: usize)
    ensures
        n == store_entries(*store).len(),
{
    store.map.len()
}

/// `HashMap::get`: the accumulator stored under `key`, if there is one.
#[verifier::external_body]
pub(crate) fn store_get<'a>(store: &'a ContextStore, key: &Vec<u16>) -> (found: Option<
    &'a CoherenceAccumulator,
>)
    ensures
        found is Some == store_entries(*store).contains_key(key@),
        found is Some ==> *found->0 == store_entries(*store)[key@],
{
    store.map.get(key)
}

/// `HashMap::get_mut`: a mutable borrow of the accumulator stored under
/// `key`, if there is one. Writing through the borrow replaces that entry
/// and no other; without an entry the map is unchanged.
#[verifier::external_body]
pub(crate) fn store_get_mut<'a>(store: &'a mut ContextStore, key: &Vec<u16>) -> (found: Option<
    &'a mut CoherenceAccumulator,
>)
    ensures
        found is Some == store_entries(*old(store)).contains_key(key@),
        found is Some ==> *found->0 == store_entries(*old(store))[key@],
        found is Some ==> store_entries(*final(store)) == store_entries(*old(store)).insert(
            key@,
            *final(found->0),
        ),
        found is None ==> store_entries(*final(store)) == store_entries(*old(store)),
{
    store.map.get_mut(key)
}

/// `HashMap::insert`: stores `acc` under `key`, replacing what was there,
/// and returns what was there. Asked for only while the store is within
/// [`STORE_LIMIT`].
#[verifier::external_body]
pub(crate) fn store_insert(store: &mut ContextStore, key: Vec<u16>, acc: CoherenceAccumulator) -> (previous:
    Option<CoherenceAccumulator>)
    requires
        store_entries(*old(store)).len() <= STORE_LIMIT,
    ensures
        store_entries(*final(store)) == store_entries(*old(store)).insert(key@, acc),
        previous is Some == store_entries(*old(store)).contains_key(key@),
        previous is Some ==> previous->0 == store_entries(*old(store))[key@],
{
    store.map.insert(key, acc)
}

/// `HashMap::remove`: removes the entry under `key`, if there is one, and
/// returns its accumulator.
#[verifier::external_body]
pub(crate) fn store_remove(store: &mut ContextStore, key: &Vec<u16>) -> (removed: Option<
    CoherenceAccumulator,
>)
    ensures
        store_entries(*final(store)) == store_entries(*old(store)).remove(key@),
        removed is Some == store_entries(*old(store)).contains_key(key@),
        removed is Some ==> removed->0 == store_entries(*old(store))[key@],
{
    store.map.remove(key)
}

/// `HashMap::iter`, collected: every entry once, as a copy, in the order in
/// which the map happens to walk them. Nothing is said of that order.
#[verifier::external_body]
pub(crate) fn store_items(store: &ContextStore) -> (items: Vec<(Vec<u16>, CoherenceAccumulator)>)
    ensures
        lists_entries(items@, store_entries(*store)),
{
    store.map.iter().map(|(k, a)| (k.clone(), *a)).collect()
}

} // verus!
