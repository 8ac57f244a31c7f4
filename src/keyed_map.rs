//! Insertion-ordered map from item keys to item handles, backed by
//! `indexmap::IndexMap`.
use vstd::prelude::*;

verus! {

/// Declares `indexmap::IndexMap`, an opaque type whose contents are named by
/// `entries_of`.
#[verifier::external_type_specification]
#[verifier::external_body]
#[verifier::reject_recursive_types(K)]
#[verifier::reject_recursive_types(V)]
#[verifier::reject_recursive_types(S)]
pub struct ExIndexMap<K, V, S>(indexmap::IndexMap<K, V, S>);

/// Ordered map from a key to an item handle.
pub type KeyedMap = indexmap::IndexMap<u64, u64>;

/// The entries of an `IndexMap`, in the map's order.
pub uninterp spec fn entries_of(m: KeyedMap) -> Seq<(u64, u64)>;

/// The keys of a sequence of entries, in order.
pub open spec fn keys_of(s: Seq<(u64, u64)>) -> Seq<u64> {
    s.map_values(|e: (u64, u64)| e.0)
}

/// No key occurs twice.
pub open spec fn unique_keys(s: Seq<(u64, u64)>) -> bool {
    forall|i: int, j: int| 0 <= i < j < s.len() ==> #[trigger] s[i].0 != #[trigger] s[j].0
}

/// Relies on `IndexMap::new`: the new map is empty.
#[verifier::external_body]
pub(crate) fn map_new() -> (r: KeyedMap)
    ensures
        entries_of(r) == Seq::<(u64, u64)>::empty(),
{
    indexmap::IndexMap::new()
}

/// Relies on `IndexMap::len`: the number of entries.
#[verifier::external_body]
pub(crate) fn map_len(m: &KeyedMap) -> (r: usize)
    ensures
        r == entries_of(*m).len(),
{
    m.len()
}

/// The entries after inserting `(k, v)`: an existing key keeps its place and
/// takes the new value, a new key goes last.
pub open spec fn inserted(s: Seq<(u64, u64)>, k: u64, v: u64) -> Seq<(u64, u64)> {
    if keys_of(s).contains(k) {
        s.update(keys_of(s).index_of(k), (k, v))
    } else {
        s.push((k, v))
    }
}

/// The entries after removing `k`, keeping the order of the others.
pub open spec fn shift_removed(s: Seq<(u64, u64)>, k: u64) -> Seq<(u64, u64)> {
    if keys_of(s).contains(k) {
        s.remove(keys_of(s).index_of(k))
    } else {
        s
    }
}

/// The value stored under `k`, if any.
pub open spec fn value_of(s: Seq<(u64, u64)>, k: u64) -> Option<u64> {
    if keys_of(s).contains(k) {
        Some(s[keys_of(s).index_of(k)].1)
    } else {
        None
    }
}

/// Relies on `IndexMap::insert`: an existing key keeps its place in the order
/// and takes the new value; a new key is appended last.
#[verifier::external_body]
pub(crate) fn map_insert(m: &mut KeyedMap, k: u64, v: u64)
    ensures
        entries_of(*final(m)) == inserted(entries_of(*old(m)), k, v),
{
    m.insert(k, v);
}

/// Relies on `IndexMap::shift_remove`: removes the entry of `k`, if any, and
/// shifts the following entries down, keeping their order.
#[verifier::external_body]
pub(crate) fn map_shift_remove(m: &mut KeyedMap, k: u64) -> (r: Option<u64>)
    ensures
        entries_of(*final(m)) == shift_removed(entries_of(*old(m)), k),
        r == value_of(entries_of(*old(m)), k),
{
    m.shift_remove(&k)
}

/// Relies on `IndexMap::get_index`: the entry at position `i`, if `i` is in
/// range.
#[verifier::external_body]
pub(crate) fn map_get_index(m: &KeyedMap, i: usize) -> (r: Option<(u64, u64)>)
    ensures
        i < entries_of(*m).len() ==> r == Some(entries_of(*m)[i as int]),
        i >= entries_of(*m).len() ==> r.is_none(),
{
    m.get_index(i).map(|(k, v)| (*k, *v))
}

/// Relies on `IndexMap::get`: the value stored under `k`, if any.
#[verifier::external_body]
pub(crate) fn map_get(m: &KeyedMap, k: u64) -> (r: Option<u64>)
    ensures
        r == value_of(entries_of(*m), k),
{
    m.get(&k).copied()
}

/// Relies on `IndexMap::contains_key`: whether `k` has an entry.
#[verifier::external_body]
pub(crate) fn map_contains_key(m: &KeyedMap, k: u64) -> (r: bool)
    ensures
        r == keys_of(entries_of(*m)).contains(k),
{
    m.contains_key(&k)
}

} // verus!
