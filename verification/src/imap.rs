//! Trusted boundary around `indexmap::IndexMap`, the ordered map that backs
//! the main store.
//!
//! The map's contents are named by the uninterpreted function [`map_entries`]:
//! the sequence of (key, value model) pairs in the map's order, which indexmap
//! documents to be insertion order. Every function here is a thin wrapper
//! around one `IndexMap` method; its contract states, over `map_entries`, what
//! that method's documentation and source promise. Nothing else in the crate
//! touches the map directly.

use vstd::prelude::*;
use indexmap::IndexMap;
use std::collections::hash_map::RandomState;
use crate::cache_item::{CacheItem, CacheItemModel};

verus! {

#[verifier::external_type_specification]
#[verifier::external_body]
#[verifier::reject_recursive_types(K)]
#[verifier::reject_recursive_types(V)]
#[verifier::reject_recursive_types(S)]
pub struct ExIndexMap<K, V, S>(IndexMap<K, V, S>);

/// The (key, value model) pairs held by the map, in the map's order.
pub uninterp spec fn map_entries(m: IndexMap<String, CacheItem, RandomState>) -> Seq<(Seq<char>, CacheItemModel)>;

/// Whether some pair in `es` has key `k`.
pub open spec fn has_entry_key(es: Seq<(Seq<char>, CacheItemModel)>, k: Seq<char>) -> bool {
    exists|i: int| 0 <= i < es.len() && es[i].0 == k
}

/// Relies on IndexMap::with_capacity: a freshly allocated map is empty.
#[verifier::external_body]
pub(crate) fn im_new(capacity: usize) -> (r: IndexMap<String, CacheItem>)
    ensures
        map_entries(r) == Seq::<(Seq<char>, CacheItemModel)>::empty(),
{
    IndexMap::with_capacity(capacity)
}

/// Relies on IndexMap::len: the number of pairs in the map.
#[verifier::external_body]
pub(crate) fn im_len(m: &IndexMap<String, CacheItem>) -> (r: usize)
    ensures
        r == map_entries(*m).len(),
{
    m.len()
}

/// Relies on IndexMap::contains_key: whether some pair has the given key.
#[verifier::external_body]
pub(crate) fn im_contains(m: &IndexMap<String, CacheItem>, key: &str) -> (r: bool)
    ensures
        r == has_entry_key(map_entries(*m), key@),
{
    m.contains_key(key)
}

/// Relies on IndexMap::get: the value of the pair with the given key, if any.
#[verifier::external_body]
pub(crate) fn im_get_ref<'a>(m: &'a IndexMap<String, CacheItem>, key: &str) -> (r: Option<
    &'a CacheItem,
>)
    ensures
        r is Some <==> has_entry_key(map_entries(*m), key@),
        r matches Some(v) ==> exists|i: int|
            0 <= i < map_entries(*m).len() && map_entries(*m)[i].0 == key@ && v@ == map_entries(
                *m,
            )[i].1,
{
    m.get(key)
}

/// Relies on IndexMap::get, plus a clone of the found value.
#[verifier::external_body]
pub(crate) fn im_get_cloned(m: &IndexMap<String, CacheItem>, key: &str) -> (r: Option<CacheItem>)
    ensures
        r is Some <==> has_entry_key(map_entries(*m), key@),
        r matches Some(v) ==> exists|i: int|
            0 <= i < map_entries(*m).len() && map_entries(*m)[i].0 == key@ && v@ == map_entries(
                *m,
            )[i].1,
{
    m.get(key).cloned()
}

/// Relies on IndexMap::get_index: the pair at a position in the map's order.
#[verifier::external_body]
pub(crate) fn im_get_index_ref<'a>(m: &'a IndexMap<String, CacheItem>, index: usize) -> (r: Option<
    &'a CacheItem,
>)
    ensures
        r is Some <==> index < map_entries(*m).len(),
        r matches Some(v) ==> v@ == map_entries(*m)[index as int].1,
{
    m.get_index(index).map(|p| p.1)
}

/// Relies on IndexMap::get_index_of: the position of the pair with the given
/// key, if any.
#[verifier::external_body]
pub(crate) fn im_get_index_of(m: &IndexMap<String, CacheItem>, key: &str) -> (r: Option<usize>)
    ensures
        r is Some <==> has_entry_key(map_entries(*m), key@),
        r matches Some(i) ==> i < map_entries(*m).len() && map_entries(*m)[i as int].0 == key@,
{
    m.get_index_of(key)
}

/// Relies on IndexMap::insert: an existing key keeps its place in the order
/// and has its value replaced; a new key is appended last; the older value,
/// if any, is returned. The pair is inserted under the item's own key.
#[verifier::external_body]
pub(crate) fn im_insert(m: &mut IndexMap<String, CacheItem>, item: CacheItem) -> (r: Option<
    CacheItem,
>)
    ensures
        !has_entry_key(map_entries(*old(m)), item@.key) ==> map_entries(*final(m)) == map_entries(
            *old(m),
        ).push((item@.key, item@)) && r is None,
        has_entry_key(map_entries(*old(m)), item@.key) ==> (exists|i: int|
            0 <= i < map_entries(*old(m)).len() && map_entries(*old(m))[i].0 == item@.key
                && map_entries(*final(m)) == map_entries(*old(m)).update(i, (item@.key, item@)) && (
            r matches Some(prev) && prev@ == map_entries(*old(m))[i].1)),
{
    let key = item.key().to_string();
    m.insert(key, item)
}

/// Relies on IndexMap::shift_remove: the pair with the given key is removed
/// and the later pairs shift down, preserving their relative order; `None`
/// is returned if the key is absent.
#[verifier::external_body]
pub(crate) fn im_shift_remove(m: &mut IndexMap<String, CacheItem>, key: &str) -> (r: Option<
    CacheItem,
>)
    ensures
        !has_entry_key(map_entries(*old(m)), key@) ==> map_entries(*final(m)) == map_entries(
            *old(m),
        ) && r is None,
        has_entry_key(map_entries(*old(m)), key@) ==> (exists|i: int|
            0 <= i < map_entries(*old(m)).len() && map_entries(*old(m))[i].0 == key@ && map_entries(
                *final(m),
            ) == map_entries(*old(m)).remove(i) && (r matches Some(v) && v@ == map_entries(
                *old(m),
            )[i].1)),
{
    m.shift_remove(key)
}

/// Relies on IndexMap::values, which yields the values in the map's order,
/// plus a clone of each.
#[verifier::external_body]
pub(crate) fn im_values_cloned(m: &IndexMap<String, CacheItem>) -> (r: Vec<CacheItem>)
    ensures
        r@.len() == map_entries(*m).len(),
        forall|i: int| 0 <= i < r@.len() ==> r@[i]@ == map_entries(*m)[i].1,
{
    m.values().cloned().collect()
}

} // verus!
