//! Insertion-ordered string maps (`indexmap::IndexMap<String, String>`)
//! and the sequence of entries that models them.

use indexmap::IndexMap;
use vstd::prelude::*;

verus! {

/// An entry of a shortcut map, by view: (name, command).
pub type Entry = (Seq<char>, Seq<char>);

/// `indexmap::IndexMap`, known to Verus as an opaque value; what it holds
/// is `map_entries`.
#[verifier::external_type_specification]
#[verifier::external_body]
#[verifier::reject_recursive_types(K)]
#[verifier::reject_recursive_types(V)]
#[verifier::reject_recursive_types(S)]
pub struct ExIndexMap<K, V, S>(IndexMap<K, V, S>);

/// The entries of an `IndexMap<String, String>`, in the map's order.
pub uninterp spec fn map_entries(m: IndexMap<String, String>) -> Seq<Entry>;

/// Whether no two entries share a key.
pub open spec fn keys_distinct(e: Seq<Entry>) -> bool {
    forall|i: int, j: int| 0 <= i < e.len() && 0 <= j < e.len() && i != j ==> e[i].0 != e[j].0
}

/// `IndexMap::new`: the new map has no entries.
#[verifier::external_body]
pub(crate) fn map_new() -> (m: IndexMap<String, String>)
    ensures
        map_entries(m) == Seq::<Entry>::empty(),
{
    IndexMap::new()
}

/// The entries of `m` whose key is not `k`, in order.
pub open spec fn remove_key(m: Seq<Entry>, k: Seq<char>) -> Seq<Entry>
    decreases m.len(),
{
    if m.len() == 0 {
        m
    } else if m.last().0 == k {
        remove_key(m.drop_last(), k)
    } else {
        remove_key(m.drop_last(), k).push(m.last())
    }
}

/// Whether some entry of `m` has key `k`.
pub open spec fn has_key(m: Seq<Entry>, k: Seq<char>) -> bool {
    exists|i: int| 0 <= i < m.len() && m[i].0 == k
}

/// The view of a list of owned string pairs.
pub open spec fn pairs_view(v: Seq<(String, String)>) -> Seq<Entry> {
    v.map_values(|p: (String, String)| (p.0@, p.1@))
}

/// `IndexMap::contains_key`: whether an entry has key `key`.
#[verifier::external_body]
pub(crate) fn map_contains_key(m: &IndexMap<String, String>, key: &String) -> (r: bool)
    ensures
        r == has_key(map_entries(*m), key@),
{
    m.contains_key(key)
}

/// `IndexMap::shift_remove`: removes the entry with key `key`, if any,
/// shifting the later entries so that their order is kept.
#[verifier::external_body]
pub(crate) fn map_shift_remove(m: &mut IndexMap<String, String>, key: &String)
    ensures
        map_entries(*final(m)) == remove_key(map_entries(*old(m)), key@),
        keys_distinct(map_entries(*old(m))),
        keys_distinct(map_entries(*final(m))),
{
    m.shift_remove(key);
}

/// `IndexMap::insert`: when no entry has key `key`, the pair is added last;
/// otherwise the entry with that key keeps its place and takes the new value.
#[verifier::external_body]
pub(crate) fn map_insert(m: &mut IndexMap<String, String>, key: String, value: String)
    ensures
        !has_key(map_entries(*old(m)), key@) ==> map_entries(*final(m)) == map_entries(
            *old(m),
        ).push((key@, value@)),
        has_key(map_entries(*old(m)), key@) ==> map_entries(*final(m)) == map_entries(
            *old(m),
        ).map_values(|e: Entry| if e.0 == key@ { (key@, value@) } else { e }),
        keys_distinct(map_entries(*old(m))),
        keys_distinct(map_entries(*final(m))),
{
    m.insert(key, value);
}

/// `IndexMap::iter`, each pair cloned: the entries in the map's order
/// (an `IndexMap` holds each key at most once).
#[verifier::external_body]
pub(crate) fn map_pairs(m: &IndexMap<String, String>) -> (r: Vec<(String, String)>)
    ensures
        pairs_view(r@) == map_entries(*m),
        keys_distinct(pairs_view(r@)),
{
    m.iter().map(|(k, v)| (k.clone(), v.clone())).collect()
}

} // verus!
