//! The field-id remap at the end of a block.
//!
//! A block of the current format is laid out as
//!
//! ```text
//! [ compressed payload                                                     ]
//! [ remap entries, present only when trailer_byte_len > 4                  ]
//! [ u32 trailer_byte_len: little-endian, counts the whole trailer, itself  ]
//! [                       included, and is therefore at least 4            ]
//! ```
//!
//! and the remap entries, where present, as
//!
//! ```text
//! VInt num_pairs
//! (VInt encoded_field_id, VInt target_field_id) x num_pairs
//! ```
//!
//! The remap translates the field ids inside the payload to the field ids of the surrounding
//! schema when documents are read.

use std::collections::HashMap;

use vstd::bytes::{u32_from_le_bytes, u32_to_le_bytes};
use vstd::prelude::*;

use crate::error::StoreError;
use crate::sorting::sorted_distinct;
use crate::varint::{read_vint, write_vint};

verus! {

broadcast use vstd::std_specs::hash::group_hash_axioms;

/// The map that results from inserting `pairs` from left to right.
pub open spec fn map_of_pairs(pairs: Seq<(u32, u32)>) -> Map<u32, u32>
    decreases pairs.len(),
{
    if pairs.len() == 0 {
        Map::empty()
    } else {
        map_of_pairs(pairs.drop_last()).insert(pairs.last().0, pairs.last().1)
    }
}

/// The target of `encoded` under `map`: the identity where there is no entry.
pub open spec fn lookup_in(map: Map<u32, u32>, encoded: u32) -> u32 {
    if map.contains_key(encoded) {
        map[encoded]
    } else {
        encoded
    }
}

/// Every entry of `map` maps a field id to itself.
pub open spec fn is_identity_map(map: Map<u32, u32>) -> bool {
    forall|encoded: u32| #[trigger] map.contains_key(encoded) ==> map[encoded] == encoded
}

/// `pairs` lists each entry of `map` exactly once.
pub open spec fn lists_entries(pairs: Seq<(u32, u32)>, map: Map<u32, u32>) -> bool {
    &&& forall|i: int|
        0 <= i < pairs.len() ==> map.contains_key(#[trigger] pairs[i].0) && map[pairs[i].0]
            == pairs[i].1
    &&& forall|i: int, j: int|
        0 <= i < j < pairs.len() ==> (#[trigger] pairs[i]).0 != (#[trigger] pairs[j]).0
    &&& forall|encoded: u32| #[trigger]
        map.contains_key(encoded) ==> pairs.contains((encoded, map[encoded]))
}

/// The entries of `map` whose field id is below `end`, by increasing field id.
pub open spec fn entries_below(map: Map<u32, u32>, end: nat) -> Seq<(u32, u32)>
    decreases end,
{
    if end == 0 {
        Seq::empty()
    } else {
        let below = entries_below(map, (end - 1) as nat);
        let encoded = (end - 1) as u32;
        if map.contains_key(encoded) {
            below.push((encoded, map[encoded]))
        } else {
            below
        }
    }
}

/// The entries of `map` by increasing field id.
pub open spec fn sorted_entries(map: Map<u32, u32>) -> Seq<(u32, u32)> {
    entries_below(map, 0x1_0000_0000)
}

/// The encoding of a list of entries.
pub open spec fn entry_bytes(entries: Seq<(u32, u32)>) -> Seq<u8>
    decreases entries.len(),
{
    if entries.len() == 0 {
        Seq::empty()
    } else {
        crate::varint::vint_bytes(entries[0].0 as nat) + crate::varint::vint_bytes(
            entries[0].1 as nat,
        ) + entry_bytes(entries.skip(1))
    }
}

/// The trailer of a block with remap `map`, without its length.
pub open spec fn body_bytes(map: Map<u32, u32>) -> Seq<u8> {
    if map == Map::<u32, u32>::empty() {
        Seq::empty()
    } else {
        crate::varint::vint_bytes(sorted_entries(map).len()) + entry_bytes(sorted_entries(map))
    }
}

/// The trailer of a block with remap `map`.
pub open spec fn trailer_bytes(map: Map<u32, u32>) -> Seq<u8> {
    body_bytes(map) + vstd::bytes::spec_u32_to_le_bytes((body_bytes(map).len() + 4) as u32)
}

/// Whether the length of the trailer for `map` fits its four bytes.
pub open spec fn trailer_fits(map: Map<u32, u32>) -> bool {
    body_bytes(map).len() + 4 <= u32::MAX
}

/// What reading `count` entries off the front of `bytes` adds to `map`.
pub open spec fn entries_read(bytes: Seq<u8>, count: u64, map: Map<u32, u32>) -> Result<
    Map<u32, u32>,
    StoreError,
>
    decreases count,
{
    if count == 0 {
        Ok(map)
    } else {
        match crate::varint::vint_read(bytes) {
            Err(error) => Err(error),
            Ok((encoded, encoded_len)) => {
                let rest = bytes.skip(encoded_len as int);
                match crate::varint::vint_read(rest) {
                    Err(error) => Err(error),
                    Ok((target, target_len)) => entries_read(
                        rest.skip(target_len as int),
                        (count - 1) as u64,
                        map.insert(encoded as u32, target as u32),
                    ),
                }
            },
        }
    }
}

/// The remap that a trailer body of `body_len` bytes at the front of `bytes` encodes. Bytes
/// behind the announced entries do not matter.
pub open spec fn body_read(bytes: Seq<u8>, body_len: nat) -> Result<Map<u32, u32>, StoreError> {
    if body_len == 0 {
        Ok(Map::empty())
    } else {
        match crate::varint::vint_read(bytes) {
            Err(error) => Err(error),
            Ok((num_pairs, len)) => entries_read(bytes.skip(len as int), num_pairs, Map::empty()),
        }
    }
}

/// The remap in the trailer of `block`, and the length of the trailer.
pub open spec fn trailer_read(block: Seq<u8>) -> Result<(Map<u32, u32>, nat), StoreError> {
    if block.len() < 4 {
        Err(StoreError::BlockTooShort)
    } else {
        let len = vstd::bytes::spec_u32_from_le_bytes(block.skip(block.len() - 4)) as nat;
        if len < 4 || len > block.len() {
            Err(
                StoreError::InvalidTrailerLength {
                    trailer_byte_len: len as usize,
                    block_len: block.len() as usize,
                },
            )
        } else {
            match body_read(block.subrange(block.len() - len, block.len() - 4), (len - 4) as nat) {
                Ok(map) => Ok((map, len)),
                Err(error) => Err(error),
            }
        }
    }
}

/// `map` with `entries` inserted from left to right.
pub open spec fn insert_entries(map: Map<u32, u32>, entries: Seq<(u32, u32)>) -> Map<u32, u32>
    decreases entries.len(),
{
    if entries.len() == 0 {
        map
    } else {
        insert_entries(map.insert(entries[0].0, entries[0].1), entries.skip(1))
    }
}

/// The list of entries below `end` holds each of them once, by increasing field id.
pub proof fn lemma_entries_below(map: Map<u32, u32>, end: nat)
    requires
        end <= 0x1_0000_0000,
    ensures
        entries_below(map, end).len() <= end,
        forall|i: int|
            0 <= i < entries_below(map, end).len() ==> {
                let entry = #[trigger] entries_below(map, end)[i];
                entry.0 < end && map.contains_key(entry.0) && map[entry.0] == entry.1
            },
        forall|i: int, j: int|
            0 <= i < j < entries_below(map, end).len() ==> (#[trigger] entries_below(map, end)[i]).0
                < (#[trigger] entries_below(map, end)[j]).0,
        forall|encoded: u32| #[trigger]
            map.contains_key(encoded) && encoded < end ==> entries_below(map, end).contains(
                (encoded, map[encoded]),
            ),
    decreases end,
{
    if end > 0 {
        lemma_entries_below(map, (end - 1) as nat);
        let below = entries_below(map, (end - 1) as nat);
        let all = entries_below(map, end);
        assert forall|encoded: u32| #[trigger]
            map.contains_key(encoded) && encoded < end implies all.contains(
            (encoded, map[encoded]),
        ) by {
            if encoded == end - 1 {
                assert(all[all.len() - 1] == (encoded, map[encoded]));
            } else {
                assert(below.contains((encoded, map[encoded])));
                let i = choose|i: int| 0 <= i < below.len() && below[i] == (encoded, map[encoded]);
                assert(all[i] == (encoded, map[encoded]));
            }
        }
    }
}

/// One of `entries` is for field id `key`.
spec fn has_entry_for(entries: Seq<(u32, u32)>, key: u32) -> bool {
    exists|i: int| 0 <= i < entries.len() && (#[trigger] entries[i]).0 == key
}

/// Inserting entries with distinct field ids keeps each of them and everything else.
proof fn lemma_insert_entries(map: Map<u32, u32>, entries: Seq<(u32, u32)>)
    requires
        forall|i: int, j: int|
            0 <= i < j < entries.len() ==> (#[trigger] entries[i]).0 != (#[trigger] entries[j]).0,
    ensures
        forall|i: int|
            0 <= i < entries.len() ==> insert_entries(map, entries)[(#[trigger] entries[i]).0]
                == entries[i].1,
        forall|key: u32| #[trigger]
            insert_entries(map, entries).contains_key(key) <==> map.contains_key(key)
                || has_entry_for(entries, key),
        forall|key: u32|
            map.contains_key(key) && !has_entry_for(entries, key) ==> #[trigger] insert_entries(
                map,
                entries,
            )[key] == map[key],
    decreases entries.len(),
{
    if entries.len() > 0 {
        let rest = entries.skip(1);
        let first = map.insert(entries[0].0, entries[0].1);
        assert forall|i: int, j: int| 0 <= i < j < rest.len() implies (#[trigger] rest[i]).0 != (
        #[trigger] rest[j]).0 by {
            assert(entries[i + 1].0 != entries[j + 1].0);
        }
        lemma_insert_entries(first, rest);
        let all = insert_entries(map, entries);
        assert(all == insert_entries(first, rest));
        assert forall|key: u32| has_entry_for(entries, key) <==> key == entries[0].0
            || has_entry_for(rest, key) by {
            if has_entry_for(entries, key) {
                let i = choose|i: int| 0 <= i < entries.len() && (#[trigger] entries[i]).0 == key;
                if i > 0 {
                    assert(rest[i - 1].0 == key);
                }
            }
            if has_entry_for(rest, key) {
                let i = choose|i: int| 0 <= i < rest.len() && (#[trigger] rest[i]).0 == key;
                assert(entries[i + 1].0 == key);
            }
        }
        assert(!has_entry_for(rest, entries[0].0)) by {
            if has_entry_for(rest, entries[0].0) {
                let i = choose|i: int|
                    0 <= i < rest.len() && (#[trigger] rest[i]).0 == entries[0].0;
                assert(entries[i + 1].0 != entries[0].0);
            }
        }
        assert forall|i: int| 0 <= i < entries.len() implies all[(#[trigger] entries[i]).0]
            == entries[i].1 by {
            if i > 0 {
                assert(rest[i - 1] == entries[i]);
            }
        }
    }
}

/// Inserting the entries of a map into the empty map gives the map back.
proof fn lemma_insert_sorted_entries(map: Map<u32, u32>)
    ensures
        insert_entries(Map::empty(), sorted_entries(map)) == map,
{
    let entries = sorted_entries(map);
    let all = insert_entries(Map::empty(), entries);
    lemma_entries_below(map, 0x1_0000_0000);
    lemma_insert_entries(Map::empty(), entries);
    assert forall|key: u32| all.contains_key(key) <==> map.contains_key(key) by {
        if map.contains_key(key) {
            assert(entries.contains((key, map[key])));
            let i = choose|i: int| 0 <= i < entries.len() && entries[i] == (key, map[key]);
            assert(entries[i].0 == key);
        }
    }
    assert forall|key: u32| map.contains_key(key) implies all[key] == map[key] by {
        assert(entries.contains((key, map[key])));
        let i = choose|i: int| 0 <= i < entries.len() && entries[i] == (key, map[key]);
        assert(all[entries[i].0] == entries[i].1);
    }
    assert(all =~= map);
}

/// Entries are read back as they were written, whatever follows them.
proof fn lemma_entries_roundtrip(entries: Seq<(u32, u32)>, map: Map<u32, u32>, rest: Seq<u8>)
    requires
        entries.len() <= u64::MAX,
    ensures
        entries_read(entry_bytes(entries) + rest, entries.len() as u64, map) == Ok::<
            Map<u32, u32>,
            StoreError,
        >(insert_entries(map, entries)),
    decreases entries.len(),
{
    if entries.len() > 0 {
        let encoded = crate::varint::vint_bytes(entries[0].0 as nat);
        let target = crate::varint::vint_bytes(entries[0].1 as nat);
        let tail = entry_bytes(entries.skip(1)) + rest;
        let bytes = entry_bytes(entries) + rest;
        assert(bytes =~= encoded + (target + tail));
        crate::varint::lemma_vint_roundtrip(entries[0].0 as u64, target + tail);
        assert(bytes.skip(encoded.len() as int) =~= target + tail);
        crate::varint::lemma_vint_roundtrip(entries[0].1 as u64, tail);
        assert((target + tail).skip(target.len() as int) =~= tail);
        lemma_entries_roundtrip(
            entries.skip(1),
            map.insert(entries[0].0, entries[0].1),
            rest,
        );
        assert((entries[0].0 as u64) as u32 == entries[0].0);
        assert((entries[0].1 as u64) as u32 == entries[0].1);
    }
}

/// A body is read back as it was written.
proof fn lemma_body_roundtrip(map: Map<u32, u32>)
    ensures
        body_read(body_bytes(map), body_bytes(map).len()) == Ok::<Map<u32, u32>, StoreError>(map),
{
    let body = body_bytes(map);
    if map != Map::<u32, u32>::empty() {
        let entries = sorted_entries(map);
        lemma_entries_below(map, 0x1_0000_0000);
        let count = crate::varint::vint_bytes(entries.len());
        crate::varint::lemma_vint_roundtrip(entries.len() as u64, entry_bytes(entries));
        assert(body.skip(count.len() as int) =~= entry_bytes(entries) + Seq::<u8>::empty());
        lemma_entries_roundtrip(entries, Map::empty(), Seq::empty());
        lemma_insert_sorted_entries(map);
    }
}

proof fn lemma_insert_last(map: Map<u32, u32>, entries: Seq<(u32, u32)>)
    requires
        entries.len() > 0,
    ensures
        insert_entries(map, entries) == insert_entries(map, entries.drop_last()).insert(
            entries.last().0,
            entries.last().1,
        ),
    decreases entries.len(),
{
    reveal_with_fuel(insert_entries, 2);
    if entries.len() > 1 {
        let rest = entries.skip(1);
        lemma_insert_last(map.insert(entries[0].0, entries[0].1), rest);
        assert(rest.drop_last() =~= entries.drop_last().skip(1));
        assert(rest.last() == entries.last());
    } else {
        assert(entries.skip(1) =~= Seq::empty());
        assert(entries.drop_last() =~= Seq::empty());
    }
}

proof fn lemma_insert_into_nothing(pairs: Seq<(u32, u32)>)
    ensures
        insert_entries(Map::empty(), pairs) == map_of_pairs(pairs),
    decreases pairs.len(),
{
    if pairs.len() > 0 {
        lemma_insert_last(Map::empty(), pairs);
        lemma_insert_into_nothing(pairs.drop_last());
    }
}

/// A body may list its entries in any order, and some of them again: it is read as the remap that
/// is built from them, whatever follows. Each entry is its field and its target, one integer each,
/// behind the number of entries.
pub proof fn lemma_bodies_list_their_entries(pairs: Seq<(u32, u32)>, rest: Seq<u8>, body_len: nat)
    requires
        pairs.len() <= u64::MAX,
        body_len > 0,
    ensures
        body_read(crate::varint::vint_bytes(pairs.len()) + entry_bytes(pairs) + rest, body_len)
            == Ok::<Map<u32, u32>, StoreError>(map_of_pairs(pairs)),
        pairs.len() == 0 ==> entry_bytes(pairs) == Seq::<u8>::empty(),
        pairs.len() > 0 ==> entry_bytes(pairs) == crate::varint::vint_bytes(pairs[0].0 as nat)
            + crate::varint::vint_bytes(pairs[0].1 as nat) + entry_bytes(pairs.skip(1)),
{
    let count = crate::varint::vint_bytes(pairs.len());
    let bytes = count + entry_bytes(pairs) + rest;
    assert(bytes =~= count + (entry_bytes(pairs) + rest));
    crate::varint::lemma_vint_roundtrip(pairs.len() as u64, entry_bytes(pairs) + rest);
    assert(bytes.skip(count.len() as int) =~= entry_bytes(pairs) + rest);
    lemma_entries_roundtrip(pairs, Map::empty(), rest);
    lemma_insert_into_nothing(pairs);
}

/// What is written of a remap is the number of its entries and then these, by increasing field;
/// nothing if it has none.
pub proof fn lemma_bodies_are_written_in_order(map: Map<u32, u32>, entries: Seq<(u32, u32)>)
    requires
        forall|i: int, j: int|
            0 <= i < j < entries.len() ==> (#[trigger] entries[i]).0 < (#[trigger] entries[j]).0,
        map_of_pairs(entries) == map,
    ensures
        entries.len() == 0 ==> body_bytes(map) == Seq::<u8>::empty(),
        entries.len() > 0 ==> body_bytes(map) == crate::varint::vint_bytes(entries.len())
            + entry_bytes(entries),
        trailer_fits(map) <==> body_bytes(map).len() + 4 < 0x1_0000_0000,
{
    let sorted = sorted_entries(map);
    lemma_entries_below(map, 0x1_0000_0000);
    assert forall|i: int| 0 <= i < entries.len() implies map.contains_key((#[trigger] entries[i]).0)
        && map[entries[i].0] == entries[i].1 by {
        crate::store::doc_laws::lemma_last_pair_counts(entries, i);
    }
    assert forall|i: int| 0 <= i < entries.len() implies #[trigger] sorted.contains(entries[i]) by {
        assert(map.contains_key(entries[i].0) && entries[i].0 < 0x1_0000_0000nat);
    }
    assert forall|i: int| 0 <= i < sorted.len() implies #[trigger] entries.contains(sorted[i]) by {
        if !has_entry_for(entries, sorted[i].0) {
            crate::store::doc_laws::lemma_only_pairs_count(entries, sorted[i].0);
        }
        let k = choose|k: int| 0 <= k < entries.len() && (#[trigger] entries[k]).0 == sorted[i].0;
        assert(entries[k] == sorted[i]);
    }
    lemma_sorted_lists_agree(entries, sorted);
    if entries.len() == 0 {
        assert(map =~= Map::empty());
    } else {
        assert(map.contains_key(entries[0].0));
    }
}

/// Two lists by increasing field that hold the same entries are the same list.
proof fn lemma_sorted_lists_agree(left: Seq<(u32, u32)>, right: Seq<(u32, u32)>)
    requires
        forall|i: int, j: int|
            0 <= i < j < left.len() ==> (#[trigger] left[i]).0 < (#[trigger] left[j]).0,
        forall|i: int, j: int|
            0 <= i < j < right.len() ==> (#[trigger] right[i]).0 < (#[trigger] right[j]).0,
        forall|i: int| 0 <= i < left.len() ==> #[trigger] right.contains(left[i]),
        forall|i: int| 0 <= i < right.len() ==> #[trigger] left.contains(right[i]),
    ensures
        left == right,
    decreases left.len(),
{
    if left.len() == 0 {
        if right.len() > 0 {
            assert(left.contains(right[0]));
        }
        assert(left =~= right);
    } else {
        let last = left.len() - 1;
        assert(right.contains(left[last]));
        let k = choose|k: int| 0 <= k < right.len() && right[k] == left[last];
        let end = right.len() - 1;
        assert(left.contains(right[end]));
        let m = choose|m: int| 0 <= m < left.len() && left[m] == right[end];
        assert(k == end && m == last) by {
            if k < end {
                assert(right[k].0 < right[end].0);
                if m < last {
                    assert(left[m].0 < left[last].0);
                }
            } else if m < last {
                assert(left[m].0 < left[last].0);
            }
        }
        let shorter = left.drop_last();
        let other = right.drop_last();
        assert forall|i: int| 0 <= i < shorter.len() implies #[trigger] other.contains(shorter[i]) by {
            assert(right.contains(left[i]));
            let j = choose|j: int| 0 <= j < right.len() && right[j] == left[i];
            assert(left[i].0 < left[last].0);
            assert(other[j] == shorter[i]);
        }
        assert forall|i: int| 0 <= i < other.len() implies #[trigger] shorter.contains(other[i]) by {
            assert(left.contains(right[i]));
            let j = choose|j: int| 0 <= j < left.len() && left[j] == right[i];
            assert(right[i].0 < right[end].0);
            assert(shorter[j] == other[i]);
        }
        lemma_sorted_lists_agree(shorter, other);
        assert(left =~= shorter.push(left[last]));
        assert(right =~= other.push(right[end]));
    }
}

/// The entries of a remap are listed once each, and nothing else is.
pub proof fn lemma_listed_entries(pairs: Seq<(u32, u32)>, map: Map<u32, u32>)
    requires
        lists_entries(pairs, map),
    ensures
        pairs.no_duplicates(),
        forall|field: u32, target: u32| #[trigger]
            pairs.contains((field, target)) <==> map.dom().contains(field) && map[field] == target,
{
    assert forall|field: u32, target: u32| #[trigger]
        pairs.contains((field, target)) <==> map.dom().contains(field) && map[field]
            == target by {
        if pairs.contains((field, target)) {
            let i = choose|i: int| 0 <= i < pairs.len() && pairs[i] == (field, target);
            assert(map.contains_key(pairs[i].0));
        }
        if map.dom().contains(field) {
            assert(map.contains_key(field));
        }
    }
}

/// The trailer written behind any payload is read back: the same remap, and the length to cut
/// off to get to the payload.
pub proof fn lemma_trailer_roundtrip(payload: Seq<u8>, map: Map<u32, u32>)
    requires
        trailer_fits(map),
    ensures
        trailer_read(payload + trailer_bytes(map)) == Ok::<(Map<u32, u32>, nat), StoreError>(
            (map, trailer_bytes(map).len()),
        ),
{
    vstd::bytes::lemma_auto_spec_u32_to_from_le_bytes();
    let body = body_bytes(map);
    let length = vstd::bytes::spec_u32_to_le_bytes((body.len() + 4) as u32);
    let block = payload + trailer_bytes(map);
    assert(block.skip(block.len() - 4) =~= length);
    assert(block.subrange(block.len() - (body.len() + 4), block.len() - 4) =~= body);
    lemma_body_roundtrip(map);
}

/// The remap that first applies `inner` and then `outer`.
pub open spec fn composed_map(inner: Map<u32, u32>, outer: Map<u32, u32>) -> Map<u32, u32> {
    Map::new(
        |encoded: u32|
            inner.contains_key(encoded) || (outer.contains_key(encoded) && lookup_in(
                inner,
                encoded,
            ) == encoded),
        |encoded: u32| lookup_in(outer, lookup_in(inner, encoded)),
    )
}

/// Looking a field id up in a composed remap is looking it up in both, one after the other.
pub proof fn lemma_composed_lookup(inner: Map<u32, u32>, outer: Map<u32, u32>, encoded: u32)
    ensures
        lookup_in(composed_map(inner, outer), encoded) == lookup_in(
            outer,
            lookup_in(inner, encoded),
        ),
{
}

/// Pairs that all agree with `map` and cover it build exactly `map`, in whatever order they come
/// and however often they repeat.
pub proof fn lemma_map_of_consistent_pairs(pairs: Seq<(u32, u32)>, map: Map<u32, u32>)
    requires
        forall|i: int|
            0 <= i < pairs.len() ==> map.contains_key((#[trigger] pairs[i]).0) && map[pairs[i].0]
                == pairs[i].1,
        forall|key: u32|
            map.contains_key(key) ==> exists|i: int|
                0 <= i < pairs.len() && (#[trigger] pairs[i]).0 == key,
    ensures
        map_of_pairs(pairs) == map,
{
    lemma_map_of_agreeing_pairs(pairs, map);
    assert(map_of_pairs(pairs) =~= map);
}

proof fn lemma_map_of_agreeing_pairs(pairs: Seq<(u32, u32)>, map: Map<u32, u32>)
    requires
        forall|i: int|
            0 <= i < pairs.len() ==> map.contains_key((#[trigger] pairs[i]).0) && map[pairs[i].0]
                == pairs[i].1,
    ensures
        forall|key: u32| #[trigger]
            map_of_pairs(pairs).contains_key(key) <==> has_entry_for(pairs, key),
        forall|key: u32| #[trigger]
            map_of_pairs(pairs).contains_key(key) ==> map.contains_key(key)
                && map_of_pairs(pairs)[key] == map[key],
    decreases pairs.len(),
{
    if pairs.len() > 0 {
        let shorter = pairs.drop_last();
        assert forall|i: int| 0 <= i < shorter.len() implies map.contains_key(
            (#[trigger] shorter[i]).0,
        ) && map[shorter[i].0] == shorter[i].1 by {
            assert(shorter[i] == pairs[i]);
        }
        lemma_map_of_agreeing_pairs(shorter, map);
        assert(pairs.last() == pairs[pairs.len() - 1]);
        assert forall|key: u32| has_entry_for(pairs, key) <==> key == pairs.last().0
            || has_entry_for(shorter, key) by {
            if has_entry_for(pairs, key) {
                let i = choose|i: int| 0 <= i < pairs.len() && (#[trigger] pairs[i]).0 == key;
                if i < shorter.len() {
                    assert(shorter[i].0 == key);
                }
            }
            if has_entry_for(shorter, key) {
                let i = choose|i: int| 0 <= i < shorter.len() && (#[trigger] shorter[i]).0 == key;
                assert(pairs[i].0 == key);
            }
        }
        let built = map_of_pairs(pairs);
        assert(built == map_of_pairs(shorter).insert(pairs.last().0, pairs.last().1));
        assert forall|key: u32| #[trigger] built.contains_key(key) <==> has_entry_for(
            pairs,
            key,
        ) by {
            assert(map_of_pairs(shorter).contains_key(key) <==> has_entry_for(shorter, key));
        }
        assert forall|key: u32| #[trigger] built.contains_key(key) implies map.contains_key(key)
            && built[key] == map[key] by {
            assert(map_of_pairs(shorter).contains_key(key) ==> map.contains_key(key));
        }
    }
}

/// The sorted field ids of `map`, cut at `end`, give the entries below `end`.
proof fn lemma_keys_give_entries(map: Map<u32, u32>, keys: Seq<u64>, end: nat, count: int)
    requires
        end <= 0x1_0000_0000,
        crate::sorting::strictly_increasing(keys),
        forall|i: int|
            0 <= i < keys.len() ==> map.contains_key(#[trigger] keys[i] as u32) && keys[i]
                <= u32::MAX,
        forall|encoded: u32| #[trigger] map.contains_key(encoded) ==> keys.contains(encoded as u64),
        0 <= count <= keys.len(),
        forall|i: int| 0 <= i < count ==> keys[i] < end,
        forall|i: int| count <= i < keys.len() ==> keys[i] >= end,
    ensures
        entries_below(map, end).len() == count,
        forall|i: int|
            0 <= i < count ==> (#[trigger] entries_below(map, end)[i]) == (
                keys[i] as u32,
                map[keys[i] as u32],
            ),
    decreases end,
{
    if end == 0 {
        if count > 0 {
            assert(keys[0] < 0);
        }
    } else {
        let last = (end - 1) as u32;
        if map.contains_key(last) {
            assert(keys.contains(last as u64));
            let k = choose|k: int| 0 <= k < keys.len() && keys[k] == last as u64;
            assert(k < count);
            if k < count - 1 {
                assert(keys[k] < keys[count - 1]);
            }
            assert(k == count - 1);
            assert forall|i: int| 0 <= i < count - 1 implies keys[i] < end - 1 by {
                assert(keys[i] < keys[count - 1]);
            }
            lemma_keys_give_entries(map, keys, (end - 1) as nat, count - 1);
        } else {
            assert forall|i: int| 0 <= i < count implies keys[i] < end - 1 by {
                assert(map.contains_key(keys[i] as u32));
            }
            lemma_keys_give_entries(map, keys, (end - 1) as nat, count);
        }
    }
}

/// A field-id remap: which field of the surrounding schema a field id inside a block stands for.
///
/// A field id without an entry stands for itself, so the empty remap changes nothing.
#[derive(Debug, Default, Clone)]
pub struct BlockFieldRemap {
    map: HashMap<u32, u32>,
}

impl View for BlockFieldRemap {
    type V = Map<u32, u32>;

    closed spec fn view(&self) -> Map<u32, u32> {
        self.map@
    }
}

impl BlockFieldRemap {
    /// The empty remap.
    pub fn new() -> (remap: Self)
        ensures
            remap@ == Map::<u32, u32>::empty(),
    {
        BlockFieldRemap { map: HashMap::new() }
    }

    /// The remap with the given `(encoded, target)` entries; a later entry for the same field id
    /// replaces an earlier one.
    pub fn from_pairs(pairs: Vec<(u32, u32)>) -> (remap: Self)
        ensures
            remap@ == map_of_pairs(pairs@),
    {
        let mut map: HashMap<u32, u32> = HashMap::new();
        let mut next: usize = 0;
        while next < pairs.len()
            invariant
                next <= pairs@.len(),
                map@ == map_of_pairs(pairs@.take(next as int)),
            decreases pairs@.len() - next,
        {
            let (encoded, target): (u32, u32) = pairs[next];
            map.insert(encoded, target);
            proof {
                let longer = pairs@.take(next + 1);
                assert(longer.drop_last() =~= pairs@.take(next as int));
                assert(longer.last() == pairs@[next as int]);
            }
            next = next + 1;
        }
        assert(pairs@.take(pairs@.len() as int) =~= pairs@);
        BlockFieldRemap { map }
    }

    /// There is no entry.
    pub fn is_empty(&self) -> (empty: bool)
        ensures
            empty == (self@ == Map::<u32, u32>::empty()),
    {
        let empty: bool = self.map.is_empty();
        assert(self@.is_empty() ==> self@ =~= Map::<u32, u32>::empty());
        empty
    }

    /// The number of entries.
    pub fn len(&self) -> (len: usize)
        ensures
            len == self@.len(),
    {
        self.map.len()
    }

    /// The target of `encoded`; `encoded` itself when there is no entry.
    pub fn lookup(&self, encoded: u32) -> (target: u32)
        ensures
            target == lookup_in(self@, encoded),
            self@.contains_key(encoded) ==> target == self@[encoded],
            !self@.contains_key(encoded) ==> target == encoded,
    {
        match self.map.get(&encoded) {
            Some(target) => *target,
            None => encoded,
        }
    }

    /// The entries, in no particular order.
    pub fn pairs(&self) -> (pairs: Vec<(u32, u32)>)
        ensures
            lists_entries(pairs@, self@),
            pairs@.len() == self@.len(),
    {
        let ghost listed = vstd::std_specs::iter::IteratorSpec::remaining(
            &vstd::std_specs::hash::spec_hash_map_iter(&self.map),
        );
        let mut pairs: Vec<(u32, u32)> = Vec::new();
        for (encoded, target) in entries: self.map.iter()
            invariant
                entries.seq() == listed,
                pairs@.len() == entries.index(),
                forall|i: int|
                    0 <= i < pairs@.len() ==> pairs@[i].0 == *entries.seq()[i].0 && pairs@[i].1
                        == *entries.seq()[i].1,
        {
            pairs.push((*encoded, *target));
        }
        proof {
            assert(listed.len() == pairs@.len());
            assert(listed.no_duplicates());
            assert forall|i: int| 0 <= i < pairs@.len() implies self@.contains_key(
                #[trigger] pairs@[i].0,
            ) && self@[pairs@[i].0] == pairs@[i].1 by {
                assert(self.map@.contains_key(*listed[i].0));
            }
            assert forall|i: int, j: int| 0 <= i < j < pairs@.len() implies (
            #[trigger] pairs@[i]).0 != (#[trigger] pairs@[j]).0 by {
                if pairs@[i].0 == pairs@[j].0 {
                    assert(listed[i] == listed[j]);
                }
            }
            assert forall|encoded: u32| #[trigger] self@.contains_key(
                encoded,
            ) implies pairs@.contains((encoded, self@[encoded])) by {
                assert(listed.contains((&encoded, &self.map@[encoded])));
                let i = choose|i: int|
                    0 <= i < listed.len() && listed[i] == (&encoded, &self.map@[encoded]);
                assert(pairs@[i] == (encoded, self@[encoded]));
            }
        }
        pairs
    }

    /// Every entry maps a field id to itself, so the remap changes nothing although it may carry
    /// entries.
    pub fn is_identity(&self) -> (identity: bool)
        ensures
            identity == is_identity_map(self@),
            identity <==> forall|field: u32| #[trigger] lookup_in(self@, field) == field,
    {
        proof {
            crate::store::doc_laws::lemma_identity_renames_nothing(self@);
        }
        let pairs: Vec<(u32, u32)> = self.pairs();
        let mut next: usize = 0;
        while next < pairs.len()
            invariant
                next <= pairs@.len(),
                lists_entries(pairs@, self@),
                forall|i: int| 0 <= i < next ==> (#[trigger] pairs@[i]).0 == pairs@[i].1,
            decreases pairs@.len() - next,
        {
            let (encoded, target): (u32, u32) = pairs[next];
            if encoded != target {
                assert(self@.contains_key(pairs@[next as int].0));
                assert(lookup_in(self@, encoded) != encoded);
                return false;
            }
            next = next + 1;
        }
        proof {
            assert forall|encoded: u32| #[trigger] self@.contains_key(encoded) implies self@[encoded]
                == encoded by {
                assert(pairs@.contains((encoded, self@[encoded])));
            }
        }
        true
    }

    /// Appends the trailer without its length to `writer`: nothing for the empty remap, else the
    /// number of entries and the entries by increasing field id.
    pub fn serialize_body(&self, writer: &mut Vec<u8>)
        ensures
            final(writer)@ == old(writer)@ + body_bytes(self@),
    {
        if self.is_empty() {
            assert(writer@ =~= old(writer)@ + body_bytes(self@));
            return;
        }
        let pairs: Vec<(u32, u32)> = self.pairs();
        let mut keys: Vec<u64> = Vec::new();
        let mut next: usize = 0;
        while next < pairs.len()
            invariant
                next <= pairs@.len(),
                keys@.len() == next,
                forall|i: int| 0 <= i < next ==> #[trigger] keys@[i] == pairs@[i].0,
            decreases pairs@.len() - next,
        {
            keys.push(pairs[next].0 as u64);
            next = next + 1;
        }
        let ghost unsorted = keys@;
        let sorted: Vec<u64> = sorted_distinct(keys);
        let ghost entries = sorted_entries(self@);
        proof {
            assert forall|i: int| 0 <= i < sorted@.len() implies self@.contains_key(
                #[trigger] sorted@[i] as u32,
            ) && sorted@[i] <= u32::MAX by {
                assert(unsorted.to_set().contains(sorted@[i]));
                let k = choose|k: int| 0 <= k < unsorted.len() && unsorted[k] == sorted@[i];
                assert(pairs@[k].0 == unsorted[k]);
            }
            assert forall|encoded: u32| #[trigger] self@.contains_key(
                encoded,
            ) implies sorted@.contains(encoded as u64) by {
                assert(pairs@.contains((encoded, self@[encoded])));
                let k = choose|k: int| 0 <= k < pairs@.len() && pairs@[k] == (encoded, self@[encoded]);
                assert(unsorted[k] == encoded as u64);
                assert(unsorted.to_set().contains(encoded as u64));
                assert(sorted@.to_set().contains(encoded as u64));
            }
            lemma_keys_give_entries(self@, sorted@, 0x1_0000_0000, sorted@.len() as int);
            lemma_entries_below(self@, 0x1_0000_0000);
        }
        write_vint(sorted.len() as u64, writer);
        let ghost head = writer@;
        let mut next: usize = 0;
        assert(entries.skip(0) =~= entries);
        while next < sorted.len()
            invariant
                next <= sorted@.len(),
                entries.len() == sorted@.len(),
                forall|i: int|
                    0 <= i < sorted@.len() ==> #[trigger] sorted@[i] <= u32::MAX
                        && self@.contains_key(sorted@[i] as u32),
                forall|i: int|
                    0 <= i < sorted@.len() ==> (#[trigger] entries[i]) == (
                        sorted@[i] as u32,
                        self@[sorted@[i] as u32],
                    ),
                writer@ + entry_bytes(entries.skip(next as int)) == head + entry_bytes(entries),
            decreases sorted@.len() - next,
        {
            let encoded: u32 = sorted[next] as u32;
            let target: u32 = self.lookup(encoded);
            let ghost before = writer@;
            assert(entries[next as int] == (encoded, target));
            write_vint(encoded as u64, writer);
            write_vint(target as u64, writer);
            proof {
                let left = entries.skip(next as int);
                assert(left.skip(1) =~= entries.skip(next + 1));
                assert(writer@ + entry_bytes(entries.skip(next + 1)) =~= before + entry_bytes(
                    left,
                ));
            }
            next = next + 1;
        }
        assert(entry_bytes(entries.skip(next as int)) =~= Seq::<u8>::empty());
        assert(writer@ =~= old(writer)@ + body_bytes(self@));
    }

    /// Reads a trailer body of `body_len` bytes from the front of `reader`.
    pub fn deserialize_body(reader: &[u8], body_len: usize) -> (result: Result<Self, StoreError>)
        ensures
            match (result, body_read(reader@, body_len as nat)) {
                (Ok(remap), Ok(map)) => remap@ == map,
                (Err(error), Err(expected)) => error == expected,
                _ => false,
            },
    {
        if body_len == 0 {
            return Ok(BlockFieldRemap::new());
        }
        assert(reader@.skip(0) =~= reader@);
        let (num_pairs, start): (u64, usize) = match read_vint(reader, 0) {
            Ok(read) => read,
            Err(error) => {
                return Err(error);
            },
        };
        let mut map: HashMap<u32, u32> = HashMap::new();
        let mut position: usize = start;
        let mut remaining: u64 = num_pairs;
        while remaining > 0
            invariant
                position <= reader@.len(),
                entries_read(reader@.skip(position as int), remaining, map@) == body_read(
                    reader@,
                    body_len as nat,
                ),
            decreases remaining,
        {
            let ghost bytes = reader@.skip(position as int);
            let (encoded, after_encoded): (u64, usize) = match read_vint(reader, position) {
                Ok(read) => read,
                Err(error) => {
                    return Err(error);
                },
            };
            assert(bytes.skip(after_encoded - position) =~= reader@.skip(after_encoded as int));
            let (target, after_target): (u64, usize) = match read_vint(reader, after_encoded) {
                Ok(read) => read,
                Err(error) => {
                    return Err(error);
                },
            };
            assert(reader@.skip(after_encoded as int).skip(after_target - after_encoded)
                =~= reader@.skip(after_target as int));
            map.insert(#[verifier::truncate] (encoded as u32), #[verifier::truncate] (target as u32));
            position = after_target;
            remaining = remaining - 1;
        }
        Ok(BlockFieldRemap { map })
    }

    /// The remap that first applies `self` and then `outer`.
    pub fn compose(&self, outer: &BlockFieldRemap) -> (composed: BlockFieldRemap)
        ensures
            composed@ == composed_map(self@, outer@),
            forall|field: u32| #[trigger]
                lookup_in(composed@, field) == lookup_in(outer@, lookup_in(self@, field)),
    {
        proof {
            assert forall|field: u32| #[trigger]
                lookup_in(composed_map(self@, outer@), field) == lookup_in(
                    outer@,
                    lookup_in(self@, field),
                ) by {
                lemma_composed_lookup(self@, outer@, field);
            }
        }
        let mut composed_pairs: Vec<(u32, u32)> = Vec::new();
        let own: Vec<(u32, u32)> = self.pairs();
        let mut next: usize = 0;
        while next < own.len()
            invariant
                next <= own@.len(),
                lists_entries(own@, self@),
                composed_pairs@.len() == next,
                forall|i: int|
                    0 <= i < next ==> (#[trigger] composed_pairs@[i]) == (
                        own@[i].0,
                        lookup_in(outer@, own@[i].1),
                    ),
            decreases own@.len() - next,
        {
            let (encoded, source_id): (u32, u32) = own[next];
            composed_pairs.push((encoded, outer.lookup(source_id)));
            next = next + 1;
        }
        let ghost first = composed_pairs@;
        let others: Vec<(u32, u32)> = outer.pairs();
        let mut next: usize = 0;
        assert(composed_pairs@.take(first.len() as int) =~= first);
        while next < others.len()
            invariant
                next <= others@.len(),
                lists_entries(others@, outer@),
                composed_pairs@.len() >= first.len(),
                composed_pairs@.take(first.len() as int) == first,
                forall|k: int|
                    first.len() <= k < composed_pairs@.len() ==> {
                        let pair = #[trigger] composed_pairs@[k];
                        outer@.contains_key(pair.0) && outer@[pair.0] == pair.1 && lookup_in(
                            self@,
                            pair.0,
                        ) == pair.0
                    },
                forall|i: int|
                    0 <= i < next && lookup_in(self@, (#[trigger] others@[i]).0) == others@[i].0
                        ==> composed_pairs@.contains(others@[i]),
            decreases others@.len() - next,
        {
            let (encoded, target): (u32, u32) = others[next];
            let ghost before = composed_pairs@;
            if self.lookup(encoded) == encoded {
                composed_pairs.push((encoded, target));
                assert(composed_pairs@[before.len() as int] == others@[next as int]);
                assert(composed_pairs@.take(first.len() as int) =~= first);
                assert forall|i: int|
                    0 <= i < next && lookup_in(self@, (#[trigger] others@[i]).0)
                        == others@[i].0 implies composed_pairs@.contains(others@[i]) by {
                    let k = choose|k: int| 0 <= k < before.len() && before[k] == others@[i];
                    assert(composed_pairs@[k] == others@[i]);
                }
            }
            next = next + 1;
        }
        let ghost all = composed_pairs@;
        proof {
            let expected = composed_map(self@, outer@);
            assert forall|k: int| 0 <= k < all.len() implies expected.contains_key(
                (#[trigger] all[k]).0,
            ) && expected[all[k].0] == all[k].1 by {
                if k < first.len() {
                    assert(all[k] == all.take(first.len() as int)[k]);
                    assert(self@.contains_key(own@[k].0));
                }
            }
            assert forall|encoded: u32| expected.contains_key(encoded) implies exists|k: int|
                0 <= k < all.len() && (#[trigger] all[k]).0 == encoded by {
                if self@.contains_key(encoded) {
                    assert(own@.contains((encoded, self@[encoded])));
                    let k = choose|k: int| 0 <= k < own@.len() && own@[k] == (encoded, self@[encoded]);
                    assert(all.take(first.len() as int)[k] == first[k]);
                    assert(all[k].0 == encoded);
                } else {
                    assert(others@.contains((encoded, outer@[encoded])));
                    let i = choose|i: int|
                        0 <= i < others@.len() && others@[i] == (encoded, outer@[encoded]);
                    assert(all.contains(others@[i]));
                    let k = choose|k: int| 0 <= k < all.len() && all[k] == others@[i];
                    assert(all[k].0 == encoded);
                }
            }
            lemma_map_of_consistent_pairs(all, expected);
        }
        BlockFieldRemap::from_pairs(composed_pairs)
    }
}

/// Appends a complete trailer to `writer`. Nothing is appended when its length does not fit.
pub fn write_block_trailer(writer: &mut Vec<u8>, remap: &BlockFieldRemap) -> (result: Result<
    (),
    StoreError,
>)
    ensures
        trailer_fits(remap@) ==> result is Ok && final(writer)@ == old(writer)@ + trailer_bytes(
            remap@,
        ),
        !trailer_fits(remap@) ==> {
            &&& result == Err::<(), StoreError>(
                StoreError::TrailerTooLarge { body_len: body_bytes(remap@).len() as usize },
            )
            &&& final(writer)@ == old(writer)@
        },
{
    let mut body: Vec<u8> = Vec::new();
    remap.serialize_body(&mut body);
    assert(body@ =~= body_bytes(remap@));
    if body.len() > 0xFFFF_FFFB {
        return Err(StoreError::TrailerTooLarge { body_len: body.len() });
    }
    let trailer_byte_len: u32 = body.len() as u32 + 4;
    let mut length: Vec<u8> = u32_to_le_bytes(trailer_byte_len);
    writer.append(&mut body);
    writer.append(&mut length);
    assert(writer@ =~= old(writer)@ + trailer_bytes(remap@));
    Ok(())
}

/// Reads the trailer of `block`: the remap, and the length to subtract from the length of the
/// block to reach the end of the payload.
pub fn read_block_trailer(block: &[u8]) -> (result: Result<(BlockFieldRemap, usize), StoreError>)
    ensures
        match (result, trailer_read(block@)) {
            (Ok((remap, len)), Ok((map, expected_len))) => {
                &&& remap@ == map
                &&& len == expected_len
                &&& 4 <= len <= block@.len()
            },
            (Err(error), Err(expected)) => error == expected,
            _ => false,
        },
{
    if block.len() < 4 {
        return Err(StoreError::BlockTooShort);
    }
    let tail: &[u8] = vstd::slice::slice_subrange(block, block.len() - 4, block.len());
    assert(tail@ =~= block@.skip(block@.len() - 4));
    let trailer_byte_len: usize = u32_from_le_bytes(tail) as usize;
    if trailer_byte_len < 4 || trailer_byte_len > block.len() {
        return Err(
            StoreError::InvalidTrailerLength { trailer_byte_len, block_len: block.len() },
        );
    }
    let body_len: usize = trailer_byte_len - 4;
    let body_start: usize = block.len() - trailer_byte_len;
    let body: &[u8] = vstd::slice::slice_subrange(block, body_start, body_start + body_len);
    match BlockFieldRemap::deserialize_body(body, body_len) {
        Ok(remap) => Ok((remap, trailer_byte_len)),
        Err(error) => Err(error),
    }
}

} // verus!
