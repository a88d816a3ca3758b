//! Hash sets and maps with the hasher of `rustc_hash`.

use rustc_hash::{FxHashMap, FxHashSet};
use vstd::prelude::*;

use crate::aggregation::segment_distinct::SegmentDistinctEntry;

verus! {

/// Declares the hasher of `rustc_hash`.
#[verifier::external_type_specification]
#[verifier::external_body]
pub struct ExFxBuildHasher(rustc_hash::FxBuildHasher);

/// Elements that are compared and hashed by their value: integers and pairs of them.
pub(crate) trait PlainValue: Eq + std::hash::Hash {

}

impl PlainValue for (u8, u64) {

}

impl PlainValue for u128 {

}

/// Calls `HashSet::insert` on a set with the hasher of `rustc_hash`: the value is in the set
/// afterwards, with everything that was in it before.
#[verifier::external_body]
pub(crate) fn fx_insert<T: PlainValue>(set: &mut FxHashSet<T>, value: T)
    ensures
        final(set)@ == old(set)@.insert(value),
{
    set.insert(value);
}

/// Calls `HashSet::extend` on a set with the hasher of `rustc_hash`: everything that was in one
/// of the two sets is in the set afterwards.
#[verifier::external_body]
pub(crate) fn fx_extend<T: PlainValue>(set: &mut FxHashSet<T>, other: FxHashSet<T>)
    ensures
        final(set)@ == old(set)@.union(other@),
{
    set.extend(other);
}

/// Calls `HashSet::len` on a set with the hasher of `rustc_hash`: the number of its elements.
#[verifier::external_body]
pub(crate) fn fx_len<T: PlainValue>(set: &FxHashSet<T>) -> (len: usize)
    ensures
        len == set@.len(),
{
    set.len()
}

/// Calls `HashSet::into_iter` on a set with the hasher of `rustc_hash`: each element once, in any
/// order.
#[verifier::external_body]
pub(crate) fn fx_values<T: PlainValue>(set: FxHashSet<T>) -> (values: Vec<T>)
    ensures
        values@.no_duplicates(),
        values@.to_set() == set@,
{
    set.into_iter().collect()
}

/// Calls `HashMap::insert` on a map with the hasher of `rustc_hash`: the value is under the key
/// afterwards, and the other keys keep theirs.
#[verifier::external_body]
pub(crate) fn fx_map_insert(
    map: &mut FxHashMap<u128, SegmentDistinctEntry>,
    key: u128,
    value: SegmentDistinctEntry,
)
    ensures
        final(map)@ == old(map)@.insert(key, value),
{
    map.insert(key, value);
}

/// Calls `HashMap::remove` on a map with the hasher of `rustc_hash`: hands out the value under
/// the key and forgets the key.
#[verifier::external_body]
pub(crate) fn fx_map_remove(
    map: &mut FxHashMap<u128, SegmentDistinctEntry>,
    key: u128,
) -> (removed: Option<SegmentDistinctEntry>)
    ensures
        final(map)@ == old(map)@.remove(key),
        match removed {
            Some(value) => old(map)@.contains_key(key) && old(map)@[key] == value,
            None => !old(map)@.contains_key(key),
        },
{
    map.remove(&key)
}

/// Calls `HashMap::get` on a map with the hasher of `rustc_hash`: the value under the key.
#[verifier::external_body]
pub(crate) fn fx_map_get<'a>(
    map: &'a FxHashMap<u128, SegmentDistinctEntry>,
    key: u128,
) -> (found: Option<&'a SegmentDistinctEntry>)
    ensures
        match found {
            Some(value) => map@.contains_key(key) && map@[key] == *value,
            None => !map@.contains_key(key),
        },
{
    map.get(&key)
}

/// Calls `HashMap::keys` on a map with the hasher of `rustc_hash`: each key once, in any order.
#[verifier::external_body]
pub(crate) fn fx_map_keys(map: &FxHashMap<u128, SegmentDistinctEntry>) -> (keys: Vec<u128>)
    ensures
        keys@.no_duplicates(),
        keys@.to_set() == map@.dom(),
{
    map.keys().copied().collect()
}

} // verus!
