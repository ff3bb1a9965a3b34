//! The insertion-ordered hash collections of the `indexmap` crate, with
//! byte strings for keys, values and items.
//!
//! The functions of this module are the only ones that call into
//! `indexmap`. Their contracts are taken from the documentation and the
//! source of that crate; they are believed, not proved.

use indexmap::{IndexMap, IndexSet};
use std::hash::RandomState;
use vstd::prelude::*;

verus! {

/// `indexmap::IndexMap`: a hash map that keeps its pairs in the order in
/// which their keys were first inserted. Nothing inside it is visible
/// here.
#[verifier::external_type_specification]
#[verifier::external_body]
#[verifier::reject_recursive_types(K)]
#[verifier::reject_recursive_types(V)]
#[verifier::reject_recursive_types(S)]
pub struct ExIndexMap<K, V, S>(IndexMap<K, V, S>);

/// `indexmap::IndexSet`: a hash set that keeps its items in the order in
/// which they were first inserted. Nothing inside it is visible here.
#[verifier::external_type_specification]
#[verifier::external_body]
#[verifier::reject_recursive_types(T)]
#[verifier::reject_recursive_types(S)]
pub struct ExIndexSet<T, S>(IndexSet<T, S>);

/// The key/value pairs that a map holds, in the map's order.
pub uninterp spec fn map_entries(m: IndexMap<Vec<u8>, Vec<u8>, RandomState>) -> Seq<
    (Seq<u8>, Seq<u8>),
>;

/// The items that a set holds, in the set's order.
pub uninterp spec fn set_items(s: IndexSet<Vec<u8>, RandomState>) -> Seq<Seq<u8>>;

/// True if one of the pairs has the key `key`.
pub open spec fn has_key(entries: Seq<(Seq<u8>, Seq<u8>)>, key: Seq<u8>) -> bool {
    exists|i: int| 0 <= i < entries.len() && (#[trigger] entries[i]).0 == key
}

/// The pairs after `key` was given the value `value`: a key that is
/// there keeps its place and gets the new value, a new key goes last.
pub open spec fn upsert(entries: Seq<(Seq<u8>, Seq<u8>)>, key: Seq<u8>, value: Seq<u8>) -> Seq<
    (Seq<u8>, Seq<u8>),
> {
    if has_key(entries, key) {
        Seq::new(
            entries.len(),
            |i: int|
                if entries[i].0 == key {
                    (key, value)
                } else {
                    entries[i]
                },
        )
    } else {
        entries.push((key, value))
    }
}

/// The items after `item` was added: an item that is there changes
/// nothing, a new item goes last.
pub open spec fn with_item(items: Seq<Seq<u8>>, item: Seq<u8>) -> Seq<Seq<u8>> {
    if items.contains(item) {
        items
    } else {
        items.push(item)
    }
}

/// `IndexMap::new`: a map without pairs.
#[verifier::external_body]
pub(crate) fn map_new() -> (m: IndexMap<Vec<u8>, Vec<u8>, RandomState>)
    ensures
        map_entries(m) == Seq::<(Seq<u8>, Seq<u8>)>::empty(),
{
    IndexMap::new()
}

/// `IndexMap::len`: the number of pairs.
#[verifier::external_body]
pub(crate) fn map_len(m: &IndexMap<Vec<u8>, Vec<u8>, RandomState>) -> (n: usize)
    ensures
        n == map_entries(*m).len(),
{
    m.len()
}

/// `IndexMap::insert`, without what it returns: if the key is in the map,
/// its pair keeps its place and gets the new value; if not, the pair goes
/// last.
#[verifier::external_body]
pub(crate) fn map_insert(
    m: &mut IndexMap<Vec<u8>, Vec<u8>, RandomState>,
    key: Vec<u8>,
    value: Vec<u8>,
)
    ensures
        map_entries(*final(m)) == upsert(map_entries(*old(m)), key@, value@),
{
    m.insert(key, value);
}

/// `IndexMap::get`: the value of the pair that has the key, if the key is
/// in the map.
#[verifier::external_body]
pub(crate) fn map_get<'a>(m: &'a IndexMap<Vec<u8>, Vec<u8>, RandomState>, key: &[u8]) -> (value:
    Option<&'a Vec<u8>>)
    ensures
        match value {
            Some(v) => map_entries(*m).contains((key@, v@)),
            None => !has_key(map_entries(*m), key@),
        },
{
    m.get(key)
}

/// `IndexMap::get_index`: the pair at the index, if the index is below
/// the number of pairs.
#[verifier::external_body]
pub(crate) fn map_get_index(m: &IndexMap<Vec<u8>, Vec<u8>, RandomState>, index: usize) -> (entry:
    Option<(&Vec<u8>, &Vec<u8>)>)
    ensures
        match entry {
            Some((k, v)) => index < map_entries(*m).len() && (k@, v@) == map_entries(
                *m,
            )[index as int],
            None => index >= map_entries(*m).len(),
        },
{
    m.get_index(index)
}

/// `IndexSet::new`: a set without items.
#[verifier::external_body]
pub(crate) fn set_new() -> (s: IndexSet<Vec<u8>, RandomState>)
    ensures
        set_items(s) == Seq::<Seq<u8>>::empty(),
{
    IndexSet::new()
}

/// `IndexSet::len`: the number of items.
#[verifier::external_body]
pub(crate) fn set_len(s: &IndexSet<Vec<u8>, RandomState>) -> (n: usize)
    ensures
        n == set_items(*s).len(),
{
    s.len()
}

/// `IndexSet::insert`, without what it returns: if the item is in the
/// set, nothing changes; if not, the item goes last.
#[verifier::external_body]
pub(crate) fn set_insert(s: &mut IndexSet<Vec<u8>, RandomState>, item: Vec<u8>)
    ensures
        set_items(*final(s)) == with_item(set_items(*old(s)), item@),
{
    s.insert(item);
}

/// `IndexSet::get_index`: the item at the index, if the index is below
/// the number of items.
#[verifier::external_body]
pub(crate) fn set_get_index(s: &IndexSet<Vec<u8>, RandomState>, index: usize) -> (item: Option<
    &Vec<u8>,
>)
    ensures
        match item {
            Some(t) => index < set_items(*s).len() && t@ == set_items(*s)[index as int],
            None => index >= set_items(*s).len(),
        },
{
    s.get_index(index)
}

} // verus!
