//! The `linked_hash_map` crate's `LinkedHashMap`, as used for one layer of
//! command groups: command-group ids mapped to their flags, in the order in
//! which they were inserted or last refreshed.

use vstd::prelude::*;
use linked_hash_map::LinkedHashMap;

verus! {

/// The flags kept for a command group: whether it is drawn between a save
/// and a restore, and its maintenance state (`None` when it needs no
/// maintenance, `Some(true)` when it was pushed or maintained since the last
/// presentation, `Some(false)` when it was not).
pub type GroupFlags = (bool, Option<bool>);

/// `linked_hash_map::LinkedHashMap`, carried as an opaque value.
#[verifier::external_type_specification]
#[verifier::external_body]
#[verifier::reject_recursive_types(K)]
#[verifier::reject_recursive_types(V)]
#[verifier::reject_recursive_types(S)]
pub struct ExLinkedHashMap<K, V, S>(LinkedHashMap<K, V, S>);

/// The entries of a layer, from the least recently inserted or refreshed to
/// the most recently.
pub uninterp spec fn layer_entries(m: LinkedHashMap<u64, (bool, Option<bool>)>) -> Seq<(u64, (bool, Option<bool>))>;

/// Whether some entry of `s` has key `k`.
pub open spec fn has_key<V>(s: Seq<(u64, V)>, k: u64) -> bool {
    exists|i: int| 0 <= i < s.len() && s[i].0 == k
}

/// No two entries of `s` share a key.
pub open spec fn keys_distinct<V>(s: Seq<(u64, V)>) -> bool {
    forall|i: int, j: int| 0 <= i < j < s.len() ==> #[trigger] s[i].0 != #[trigger] s[j].0
}

/// The position of the entry with key `k` (meaningful where `has_key(s, k)`).
pub open spec fn key_index<V>(s: Seq<(u64, V)>, k: u64) -> int {
    choose|i: int| 0 <= i < s.len() && s[i].0 == k
}

/// The value of the entry with key `k` (meaningful where `has_key(s, k)`).
pub open spec fn value_of<V>(s: Seq<(u64, V)>, k: u64) -> V {
    s[key_index(s, k)].1
}

/// `s` without the entry of key `k`, if it has one.
pub open spec fn without_key<V>(s: Seq<(u64, V)>, k: u64) -> Seq<(u64, V)> {
    if has_key(s, k) {
        s.remove(key_index(s, k))
    } else {
        s
    }
}

/// In a sequence with distinct keys, the entry at `i` is the one of its key.
pub proof fn lemma_key_index<V>(s: Seq<(u64, V)>, i: int)
    requires
        keys_distinct(s),
        0 <= i < s.len(),
    ensures
        has_key(s, s[i].0),
        key_index(s, s[i].0) == i,
        value_of(s, s[i].0) == s[i].1,
{
    let k = s[i].0;
    assert(0 <= i < s.len() && s[i].0 == k);
    let j = key_index(s, k);
    if j != i {
        if j < i {
            assert(s[j].0 != s[i].0);
        } else {
            assert(s[i].0 != s[j].0);
        }
    }
}

/// `LinkedHashMap::new`: a map with no entry.
#[verifier::external_body]
pub(crate) fn layer_new() -> (m: LinkedHashMap<u64, (bool, Option<bool>)>)
    ensures
        layer_entries(m) == Seq::<(u64, (bool, Option<bool>))>::empty(),
{
    LinkedHashMap::new()
}

/// `LinkedHashMap::insert`: the value of an existing key is replaced and the
/// entry moves to the back; a new key is appended.  The old value, if any, is
/// returned.
#[verifier::external_body]
pub(crate) fn layer_insert(m: &mut LinkedHashMap<u64, (bool, Option<bool>)>, k: u64, v: (bool, Option<bool>)) -> (r: Option<(bool, Option<bool>)>)
    requires
        keys_distinct(layer_entries(*old(m))),
    ensures
        keys_distinct(layer_entries(*final(m))),
        layer_entries(*final(m)) == without_key(layer_entries(*old(m)), k).push((k, v)),
        r == (if has_key(layer_entries(*old(m)), k) {
            Some(value_of(layer_entries(*old(m)), k))
        } else {
            None
        }),
{
    m.insert(k, v)
}

/// `LinkedHashMap::get`: the value of key `k`, without moving it.
#[verifier::external_body]
pub(crate) fn layer_get(m: &LinkedHashMap<u64, (bool, Option<bool>)>, k: u64) -> (r: Option<(bool, Option<bool>)>)
    requires
        keys_distinct(layer_entries(*m)),
    ensures
        r == (if has_key(layer_entries(*m), k) {
            Some(value_of(layer_entries(*m), k))
        } else {
            None
        }),
{
    m.get(&k).copied()
}

/// `LinkedHashMap::get_refresh`: the value of key `k`, whose entry moves to
/// the back.
#[verifier::external_body]
pub(crate) fn layer_get_refresh(m: &mut LinkedHashMap<u64, (bool, Option<bool>)>, k: u64) -> (r: Option<(bool, Option<bool>)>)
    requires
        keys_distinct(layer_entries(*old(m))),
    ensures
        keys_distinct(layer_entries(*final(m))),
        has_key(layer_entries(*old(m)), k) ==> r == Some(value_of(layer_entries(*old(m)), k))
            && layer_entries(*final(m)) == without_key(layer_entries(*old(m)), k).push(
            (k, value_of(layer_entries(*old(m)), k)),
        ),
        !has_key(layer_entries(*old(m)), k) ==> r is None && layer_entries(*final(m)) == layer_entries(*old(m)),
{
    m.get_refresh(&k).copied()
}

/// `LinkedHashMap::remove`: the entry of key `k` leaves; its value is
/// returned.
#[verifier::external_body]
pub(crate) fn layer_remove(m: &mut LinkedHashMap<u64, (bool, Option<bool>)>, k: u64) -> (r: Option<(bool, Option<bool>)>)
    requires
        keys_distinct(layer_entries(*old(m))),
    ensures
        keys_distinct(layer_entries(*final(m))),
        layer_entries(*final(m)) == without_key(layer_entries(*old(m)), k),
        r == (if has_key(layer_entries(*old(m)), k) {
            Some(value_of(layer_entries(*old(m)), k))
        } else {
            None
        }),
{
    m.remove(&k)
}

/// `IndexMut` of `LinkedHashMap`: the value of the present key `k` is
/// replaced in place; the entry keeps its position.
#[verifier::external_body]
pub(crate) fn layer_set(m: &mut LinkedHashMap<u64, (bool, Option<bool>)>, k: u64, v: (bool, Option<bool>))
    requires
        keys_distinct(layer_entries(*old(m))),
        has_key(layer_entries(*old(m)), k),
    ensures
        keys_distinct(layer_entries(*final(m))),
        layer_entries(*final(m)) == layer_entries(*old(m)).update(key_index(layer_entries(*old(m)), k), (k, v)),
{
    m[&k] = v;
}

/// `LinkedHashMap::iter`, collected: the entries in order.
#[verifier::external_body]
pub(crate) fn layer_to_vec(m: &LinkedHashMap<u64, (bool, Option<bool>)>) -> (r: Vec<(u64, (bool, Option<bool>))>)
    ensures
        r@ == layer_entries(*m),
{
    m.iter().map(|(k, v)| (*k, *v)).collect()
}

} // verus!
