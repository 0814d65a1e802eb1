//! The slot map that stores the read positions of the listeners of a queue.
//!
//! The map itself comes from the `slotmap` crate; everything in this file is
//! trusted: the contracts below are assumed, not proved.  They are
//! stated over `slot_entries`, a name for the key/value pairs that a map
//! currently holds.

use vstd::prelude::*;
use slotmap::{DefaultKey, SlotMap};

verus! {

/// The key type handed out by `slotmap` (an index and a version).
#[verifier::external_type_specification]
#[verifier::external_body]
pub struct ExDefaultKey(DefaultKey);

/// A `slotmap::SlotMap` from listener keys to read positions.  The map's key
/// parameter is bounded by the trait `slotmap::Key`, so the map is kept
/// opaque in a private field and reached only through the functions of this
/// file.
#[verifier::external_body]
pub struct ListenerSlots {
    map: SlotMap<DefaultKey, usize>,
}

/// What a slot map of read positions holds: each live key with its value.
pub uninterp spec fn slot_entries(m: ListenerSlots) -> Map<DefaultKey, usize>;

/// `SlotMap::new`: the new map holds nothing.
#[verifier::external_body]
pub(crate) fn slots_new() -> (fresh: ListenerSlots)
    ensures
        slot_entries(fresh).dom() == Set::<DefaultKey>::empty(),
{
    ListenerSlots { map: SlotMap::new() }
}

/// `SlotMap::len`: the number of live keys.
#[verifier::external_body]
pub(crate) fn slots_len(m: &ListenerSlots) -> (n: usize)
    ensures
        n == slot_entries(*m).dom().len(),
{
    m.map.len()
}

/// `SlotMap::is_empty`: true exactly when no key is live.
#[verifier::external_body]
pub(crate) fn slots_is_empty(m: &ListenerSlots) -> (b: bool)
    ensures
        b <==> slot_entries(*m).dom() == Set::<DefaultKey>::empty(),
{
    m.map.is_empty()
}

/// `SlotMap::insert`: stores `value` under a key that was not live before and
/// returns that key.  It panics only once the map holds about `u32::MAX`
/// values, which `requires` rules out.
#[verifier::external_body]
pub(crate) fn slots_insert(m: &mut ListenerSlots, value: usize) -> (k: DefaultKey)
    requires
        slot_entries(*old(m)).dom().len() + 2 < u32::MAX,
    ensures
        !slot_entries(*old(m)).dom().contains(k),
        slot_entries(*final(m)) == slot_entries(*old(m)).insert(k, value),
{
    m.map.insert(value)
}

/// `SlotMap::remove`: removes `key` if it is live and returns its value.
#[verifier::external_body]
pub(crate) fn slots_remove(m: &mut ListenerSlots, key: DefaultKey) -> (r: Option<usize>)
    ensures
        slot_entries(*old(m)).dom().contains(key) ==> r == Some(slot_entries(*old(m))[key]),
        !slot_entries(*old(m)).dom().contains(key) ==> r is None,
        slot_entries(*final(m)) == slot_entries(*old(m)).remove(key),
{
    m.map.remove(key)
}

/// `SlotMap::get`, with the value copied out.
#[verifier::external_body]
pub(crate) fn slots_get(m: &ListenerSlots, key: DefaultKey) -> (r: Option<usize>)
    ensures
        slot_entries(*m).dom().contains(key) ==> r == Some(slot_entries(*m)[key]),
        !slot_entries(*m).dom().contains(key) ==> r is None,
{
    m.map.get(key).copied()
}

/// `SlotMap::index_mut` followed by an assignment: overwrites the value of a
/// live key.  Indexing panics on a key that is not live, which `requires`
/// rules out.
#[verifier::external_body]
pub(crate) fn slots_set(m: &mut ListenerSlots, key: DefaultKey, value: usize)
    requires
        slot_entries(*old(m)).dom().contains(key),
    ensures
        slot_entries(*final(m)) == slot_entries(*old(m)).insert(key, value),
{
    m.map[key] = value;
}

/// `SlotMap::iter`, each pair copied out: every live key exactly once, with
/// its value, in an order that the contract leaves open.
#[verifier::external_body]
pub(crate) fn slots_entries(m: &ListenerSlots) -> (r: Vec<(DefaultKey, usize)>)
    ensures
        slot_entries(*m).dom() == r@.map_values(|p: (DefaultKey, usize)| p.0).to_set(),
        forall|i: int| 0 <= i < r@.len() ==> #[trigger] slot_entries(*m).dom().contains(r@[i].0)
            && slot_entries(*m)[r@[i].0] == r@[i].1,
        forall|i: int, j: int| 0 <= i < j < r@.len() ==> #[trigger] r@[i].0 != #[trigger] r@[j].0,
{
    m.map.iter().map(|(k, v)| (k, *v)).collect()
}

} // verus!
