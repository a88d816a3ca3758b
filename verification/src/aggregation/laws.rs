//! What holds of distinct values, from the rows of a column to the count.

use vstd::prelude::*;

use crate::aggregation::collector::AggregationError;
use crate::aggregation::column::{Column, ColumnType};
use crate::aggregation::limits::AggregationLimits;
use crate::aggregation::segment_distinct::DistinctValues;

verus! {

/// A value is among those of `docs` exactly if it stands in the row of one of them.
pub proof fn lemma_value_stands_in_a_row(column: Column, docs: Seq<u32>, value: u64)
    ensures
        crate::aggregation::column::values_of(column, docs).contains(value) <==> exists|
            i: int,
            j: int,
        |
            0 <= i < docs.len() && 0 <= j < column.rows@[docs[i] as int]@.len()
                && #[trigger] column.rows@[docs[i] as int]@[j] == value,
    decreases docs.len(),
{
    let all = crate::aggregation::column::values_of(column, docs);
    if docs.len() > 0 {
        let rest = docs.drop_last();
        let before = crate::aggregation::column::values_of(column, rest);
        let row = column.rows@[docs.last() as int]@;
        lemma_value_stands_in_a_row(column, rest, value);
        if all.contains(value) {
            let k = choose|k: int| 0 <= k < all.len() && all[k] == value;
            if k < before.len() {
                assert(before[k] == value);
                assert(before.contains(value));
                let (i, j) = choose|i: int, j: int|
                    0 <= i < rest.len() && 0 <= j < column.rows@[rest[i] as int]@.len()
                        && #[trigger] column.rows@[rest[i] as int]@[j] == value;
                assert(docs[i] == rest[i]);
                assert(column.rows@[docs[i] as int]@[j] == value);
            } else {
                assert(docs[docs.len() - 1] == docs.last());
                assert(column.rows@[docs[docs.len() - 1] as int]@[k - before.len()] == value);
            }
        }
        if exists|i: int, j: int|
            0 <= i < docs.len() && 0 <= j < column.rows@[docs[i] as int]@.len()
                && #[trigger] column.rows@[docs[i] as int]@[j] == value {
            let (i, j) = choose|i: int, j: int|
                0 <= i < docs.len() && 0 <= j < column.rows@[docs[i] as int]@.len()
                    && #[trigger] column.rows@[docs[i] as int]@[j] == value;
            if i < rest.len() {
                assert(rest[i] == docs[i]);
                assert(column.rows@[rest[i] as int]@[j] == value);
                let k = choose|k: int| 0 <= k < before.len() && before[k] == value;
                assert(all[k] == value);
            } else {
                assert(all[before.len() + j] == value);
            }
        }
    }
}

/// In a column of numbers, dates or booleans, the collected values are exactly those that stand in
/// the rows of the documents, each under the type of the column. Their count is the number of
/// different ones.
pub proof fn lemma_every_number_is_counted_once(
    column: Column,
    column_type: ColumnType,
    docs: Seq<u32>,
)
    requires
        column_type != ColumnType::Str,
        column_type != ColumnType::IpAddr,
    ensures
        ({
            let found = crate::aggregation::collector::distinct(
                column,
                column_type,
                crate::aggregation::column::values_of(column, docs),
            );
            &&& forall|code: u8, value: u64| #[trigger]
                found.numeric.contains((code, value)) <==> code == column_type.spec_code()
                    && exists|i: int, j: int|
                    0 <= i < docs.len() && 0 <= j < column.rows@[docs[i] as int]@.len()
                        && #[trigger] column.rows@[docs[i] as int]@[j] == value
            &&& found.terms is None
            &&& found.ip == Set::<u128>::empty()
            &&& found.count() == Set::new(
                |value: u64|
                    exists|i: int, j: int|
                        0 <= i < docs.len() && 0 <= j < column.rows@[docs[i] as int]@.len()
                            && #[trigger] column.rows@[docs[i] as int]@[j] == value,
            ).len()
        }),
{
    let values = crate::aggregation::column::values_of(column, docs);
    let found = crate::aggregation::collector::distinct(column, column_type, values);
    let code = column_type.spec_code();
    assert forall|other: u8, value: u64| #[trigger] found.numeric.contains((other, value))
        <==> other == code && exists|i: int, j: int|
        0 <= i < docs.len() && 0 <= j < column.rows@[docs[i] as int]@.len()
            && #[trigger] column.rows@[docs[i] as int]@[j] == value by {
        lemma_value_stands_in_a_row(column, docs, value);
    }
    let seen = Set::new(
        |value: u64|
            exists|i: int, j: int|
                0 <= i < docs.len() && 0 <= j < column.rows@[docs[i] as int]@.len()
                    && #[trigger] column.rows@[docs[i] as int]@[j] == value,
    );
    assert(seen =~= values.to_set()) by {
        assert forall|value: u64| seen.contains(value) <==> values.to_set().contains(value) by {
            lemma_value_stands_in_a_row(column, docs, value);
        }
    }
    vstd::seq_lib::seq_to_set_is_finite(values);
    let salt = |value: u64| (code, value);
    assert forall|value: (u8, u64)| found.numeric.contains(value) implies exists|seen_value: u64|
        seen.contains(seen_value) && salt(seen_value) == value by {
        assert(found.numeric.contains((value.0, value.1)));
        assert(seen.contains(value.1) && salt(value.1) == value);
    }
    assert(seen.map(salt) =~= found.numeric);
    vstd::set_lib::lemma_map_size(seen, found.numeric, salt);
    assert(found.ip =~= Set::empty());
}

/// In a column of terms, the collected positions are exactly those that stand in the rows of the
/// documents, in a dictionary that ends behind the largest one. Their count is the number of
/// different ones.
pub proof fn lemma_every_term_is_counted_once(column: Column, docs: Seq<u32>)
    requires
        column.max_value < u64::MAX,
    ensures
        ({
            let found = crate::aggregation::collector::distinct(
                column,
                ColumnType::Str,
                crate::aggregation::column::values_of(column, docs),
            );
            &&& found.terms matches Some((capacity, ords)) && {
                &&& capacity == column.max_value + 1
                &&& forall|ord: u64| #[trigger]
                    ords.contains(ord) <==> exists|i: int, j: int|
                        0 <= i < docs.len() && 0 <= j < column.rows@[docs[i] as int]@.len()
                            && #[trigger] column.rows@[docs[i] as int]@[j] == ord
            }
            &&& found.numeric == Set::<(u8, u64)>::empty()
            &&& found.ip == Set::<u128>::empty()
            &&& found.count() == Set::new(
                |ord: u64|
                    exists|i: int, j: int|
                        0 <= i < docs.len() && 0 <= j < column.rows@[docs[i] as int]@.len()
                            && #[trigger] column.rows@[docs[i] as int]@[j] == ord,
            ).len()
        }),
{
    let values = crate::aggregation::column::values_of(column, docs);
    let found = crate::aggregation::collector::distinct(column, ColumnType::Str, values);
    let ords = (found.terms->0).1;
    let seen = Set::new(
        |ord: u64|
            exists|i: int, j: int|
                0 <= i < docs.len() && 0 <= j < column.rows@[docs[i] as int]@.len()
                    && #[trigger] column.rows@[docs[i] as int]@[j] == ord,
    );
    assert forall|ord: u64| #[trigger] ords.contains(ord) <==> seen.contains(ord) by {
        lemma_value_stands_in_a_row(column, docs, ord);
    }
    assert(seen =~= ords);
    assert(found.numeric =~= Set::empty());
    assert(found.ip =~= Set::empty());
}

/// In a column of addresses, the collected addresses are exactly those that the rows of the
/// documents stand for. Their count is the number of different ones.
pub proof fn lemma_every_address_is_counted_once(
    column: Column,
    addresses: Vec<u128>,
    docs: Seq<u32>,
)
    requires
        column.addresses == Some(addresses),
    ensures
        ({
            let found = crate::aggregation::collector::distinct(
                column,
                ColumnType::IpAddr,
                crate::aggregation::column::values_of(column, docs),
            );
            &&& forall|address: u128| #[trigger]
                found.ip.contains(address) <==> exists|i: int, j: int|
                    0 <= i < docs.len() && 0 <= j < column.rows@[docs[i] as int]@.len()
                        && addresses@[(#[trigger] column.rows@[docs[i] as int]@[j]) as int]
                        == address
            &&& found.terms is None
            &&& found.numeric == Set::<(u8, u64)>::empty()
            &&& found.count() == found.ip.len()
        }),
{
    let values = crate::aggregation::column::values_of(column, docs);
    let found = crate::aggregation::collector::distinct(column, ColumnType::IpAddr, values);
    assert forall|address: u128| #[trigger] found.ip.contains(address) <==> exists|i: int, j: int|
        0 <= i < docs.len() && 0 <= j < column.rows@[docs[i] as int]@.len() && addresses@[(
        #[trigger] column.rows@[docs[i] as int]@[j]) as int] == address by {
        if found.ip.contains(address) {
            let k = choose|k: int|
                0 <= k < values.len() && address == crate::aggregation::collector::address_of(
                    column,
                    #[trigger] values[k],
                );
            assert(values.contains(values[k]));
            lemma_value_stands_in_a_row(column, docs, values[k]);
            let (i, j) = choose|i: int, j: int|
                0 <= i < docs.len() && 0 <= j < column.rows@[docs[i] as int]@.len()
                    && #[trigger] column.rows@[docs[i] as int]@[j] == values[k];
            assert(addresses@[column.rows@[docs[i] as int]@[j] as int] == address);
        }
        if exists|i: int, j: int|
            0 <= i < docs.len() && 0 <= j < column.rows@[docs[i] as int]@.len() && addresses@[(
            #[trigger] column.rows@[docs[i] as int]@[j]) as int] == address {
            let (i, j) = choose|i: int, j: int|
                0 <= i < docs.len() && 0 <= j < column.rows@[docs[i] as int]@.len() && addresses@[(
                #[trigger] column.rows@[docs[i] as int]@[j]) as int] == address;
            let value = column.rows@[docs[i] as int]@[j];
            lemma_value_stands_in_a_row(column, docs, value);
            let k = choose|k: int| 0 <= k < values.len() && values[k] == value;
            assert(address == crate::aggregation::collector::address_of(column, values[k]));
        }
    }
    assert(found.numeric =~= Set::empty());
}

/// What is united holds exactly the values of both sides, and nothing is counted twice.
pub proof fn lemma_union_holds_both(left: DistinctValues, right: DistinctValues)
    ensures
        forall|value: (u8, u64)| #[trigger]
            left.union(right).numeric.contains(value) <==> left.numeric.contains(value)
                || right.numeric.contains(value),
        forall|address: u128| #[trigger]
            left.union(right).ip.contains(address) <==> left.ip.contains(address)
                || right.ip.contains(address),
        left.terms is None ==> left.union(right).terms == right.terms,
        right.terms is None ==> left.union(right).terms == left.terms,
        left.terms is Some && right.terms is Some ==> {
            &&& left.union(right).terms is Some
            &&& (left.union(right).terms->0).0 == (left.terms->0).0
            &&& forall|ord: u64| #[trigger]
                (left.union(right).terms->0).1.contains(ord) <==> (left.terms->0).1.contains(ord)
                    || (right.terms->0).1.contains(ord)
        },
        left.mergeable(right) <==> (left.terms is Some && right.terms is Some ==> (
        left.terms->0).0 == (right.terms->0).0),
{
}

/// The count is the number of values of each kind added up: nothing counts nothing, and one more
/// value counts one more.
pub proof fn lemma_each_value_counts_one(
    values: DistinctValues,
    number: (u8, u64),
    address: u128,
    ord: u64,
    capacity: u64,
)
    requires
        values.finite(),
    ensures
        DistinctValues::none().count() == 0,
        !values.numeric.contains(number) ==> (DistinctValues {
            numeric: values.numeric.insert(number),
            ..values
        }).count() == values.count() + 1,
        !values.ip.contains(address) ==> (DistinctValues {
            ip: values.ip.insert(address),
            ..values
        }).count() == values.count() + 1,
        values.terms is Some && !(values.terms->0).1.contains(ord) ==> (DistinctValues {
            terms: Some((capacity, (values.terms->0).1.insert(ord))),
            ..values
        }).count() == values.count() + 1,
        values.terms is None ==> (DistinctValues {
            terms: Some((capacity, Set::<u64>::empty())),
            ..values
        }).count() == values.count(),
{
}

/// Merging results keeps every segment of both. The values of a segment that only one of them has
/// are kept as they are; of one that both have, exactly the values of both are there.
pub proof fn lemma_merging_keeps_every_value(
    left: crate::aggregation::segment_distinct::ValuesBySegment,
    right: crate::aggregation::segment_distinct::ValuesBySegment,
    id: u128,
)
    ensures
        ({
            let both = crate::aggregation::segment_distinct::merged(left, right);
            &&& both.contains_key(id) <==> left.contains_key(id) || right.contains_key(id)
            &&& left.contains_key(id) && !right.contains_key(id) ==> both[id] == left[id]
            &&& right.contains_key(id) && !left.contains_key(id) ==> both[id] == right[id]
            &&& left.contains_key(id) && right.contains_key(id) ==> {
                &&& forall|value: (u8, u64)| #[trigger]
                    both[id].numeric.contains(value) <==> left[id].numeric.contains(value)
                        || right[id].numeric.contains(value)
                &&& forall|address: u128| #[trigger]
                    both[id].ip.contains(address) <==> left[id].ip.contains(address)
                        || right[id].ip.contains(address)
                &&& left[id].terms is Some && right[id].terms is Some ==> {
                    &&& both[id].terms is Some
                    &&& forall|ord: u64| #[trigger]
                        (both[id].terms->0).1.contains(ord) <==> (left[id].terms->0).1.contains(ord)
                            || (right[id].terms->0).1.contains(ord)
                }
                &&& left[id].terms is None ==> both[id].terms == right[id].terms
                &&& right[id].terms is None ==> both[id].terms == left[id].terms
            }
        }),
{
}

/// Results can be merged exactly if no segment is in both with dictionaries of different sizes.
pub proof fn lemma_mergeable_dictionaries(
    left: crate::aggregation::segment_distinct::ValuesBySegment,
    right: crate::aggregation::segment_distinct::ValuesBySegment,
)
    ensures
        crate::aggregation::segment_distinct::all_mergeable(left, right) <==> forall|id: u128|
            left.dom().contains(id) && #[trigger] right.dom().contains(id) && left[id].terms is Some
                && right[id].terms is Some ==> (left[id].terms->0).0 == (right[id].terms->0).0,
{
    if crate::aggregation::segment_distinct::all_mergeable(left, right) {
        assert forall|id: u128|
            left.dom().contains(id) && #[trigger] right.dom().contains(id) && left[id].terms is Some
                && right[id].terms is Some implies (left[id].terms->0).0 == (
        right[id].terms->0).0 by {
            assert(left.contains_key(id) && right.contains_key(id));
        }
    } else {
        let id = choose|id: u128| #[trigger]
            left.contains_key(id) && right.contains_key(id) && !left[id].mergeable(right[id]);
        assert(left.dom().contains(id) && right.dom().contains(id));
    }
}

/// The final count of no segments is zero, and of one segment the count of its values.
pub proof fn lemma_total_of_one_segment(id: u128, values: DistinctValues)
    ensures
        crate::aggregation::segment_distinct::total(Map::<u128, DistinctValues>::empty()) == 0,
        crate::aggregation::segment_distinct::total(
            Map::<u128, DistinctValues>::empty().insert(id, values),
        ) == values.count(),
{
    let one = Map::<u128, DistinctValues>::empty().insert(id, values);
    assert(Map::<u128, DistinctValues>::empty().dom() =~= Set::empty());
    assert(one.dom() =~= Set::empty().insert(id));
    crate::aggregation::segment_distinct::lemma_total_of_segment(one, id);
    assert(one.remove(id) =~= Map::empty());
}

/// Memory that is counted is added to what is in use, and the most that ever was in use is kept.
/// It is too much exactly if more is in use than the budget allows.
pub proof fn lemma_memory_adds_up(limits: AggregationLimits, one: u64, other: u64)
    ensures
        limits.memory_consumed + one <= u64::MAX ==> limits.after_adding(one).memory_consumed
            == limits.memory_consumed + one,
        limits.memory_consumed + one > u64::MAX ==> limits.after_adding(one).memory_consumed
            == u64::MAX,
        limits.after_adding(one).memory_limit == limits.memory_limit,
        limits.after_adding(one).peak_memory >= limits.peak_memory,
        limits.after_adding(one).peak_memory >= limits.after_adding(one).memory_consumed,
        limits.after_adding(one).peak_memory == limits.peak_memory
            || limits.after_adding(one).peak_memory == limits.after_adding(one).memory_consumed,
        one + other <= u64::MAX ==> limits.after_adding(one).after_adding(other)
            == limits.after_adding((one + other) as u64),
        limits.excess() is Some <==> limits.memory_consumed > limits.memory_limit,
        limits.excess() matches Some(error) ==> error.limit == limits.memory_limit && error.current
            == limits.memory_consumed,
{
}

/// The estimate starts at zero. Each number adds 24 bytes and each address 32. Terms take 16 bytes
/// each, but no more than a bitmap over the dictionary, with a page on top.
pub proof fn lemma_estimate_by_kind(
    values: DistinctValues,
    column_type: ColumnType,
    number: (u8, u64),
    address: u128,
)
    requires
        values.finite(),
        column_type != ColumnType::Str,
        values.terms is None,
    ensures
        crate::aggregation::collector::memory_estimate(DistinctValues::none(), column_type) == 0,
        column_type != ColumnType::IpAddr && !values.numeric.contains(number)
            ==> crate::aggregation::collector::memory_estimate(
            DistinctValues { numeric: values.numeric.insert(number), ..values },
            column_type,
        ) == crate::aggregation::collector::memory_estimate(values, column_type) + 24,
        column_type == ColumnType::IpAddr && !values.ip.contains(address)
            ==> crate::aggregation::collector::memory_estimate(
            DistinctValues { ip: values.ip.insert(address), ..values },
            column_type,
        ) == crate::aggregation::collector::memory_estimate(values, column_type) + 32,
        forall|capacity: u64, ords: Set<u64>| #[trigger]
            crate::aggregation::collector::memory_estimate(
                DistinctValues { terms: Some((capacity, ords)), ..values },
                ColumnType::Str,
            ) == vstd::math::min(16 * ords.len() as int, capacity as int / 8 + 4096),
{
}

/// Handing the values of a segment out succeeds or fails as a whole. After success exactly they
/// have been added to those of the segment under the name of the aggregation; other segments and
/// other names are as they were, and so they are after a failure. Memory is needed only for a
/// moment.
pub proof fn lemma_handing_out_adds_the_values(
    values: DistinctValues,
    name: Seq<char>,
    segment_id: u128,
    limits: AggregationLimits,
    results: crate::aggregation::results::ValuesByName,
    result: Result<(), AggregationError>,
    new_limits: AggregationLimits,
    new_results: crate::aggregation::results::ValuesByName,
)
    requires
        crate::aggregation::collector::handed_out(
            Some(values),
            name,
            segment_id,
            0,
            limits,
            results,
            result,
            new_limits,
            new_results,
        ),
    ensures
        new_limits.memory_consumed == limits.memory_consumed,
        new_limits.memory_limit == limits.memory_limit,
        result is Err ==> new_results == results,
        forall|other: Seq<char>|
            other != name ==> (#[trigger] new_results.contains_key(other) <==> results.contains_key(
                other,
            )) && (results.contains_key(other) ==> new_results[other] == results[other]),
        result is Ok ==> new_results.contains_key(name) && new_results[name].contains_key(segment_id),
        result is Ok && !results.contains_key(name) ==> new_results[name].dom() == Set::empty().insert(
            segment_id,
        ) && new_results[name][segment_id] == values,
        result is Ok && results.contains_key(name) ==> {
            &&& forall|id: u128|
                id != segment_id ==> (#[trigger] new_results[name].contains_key(id)
                    <==> results[name].contains_key(id)) && (results[name].contains_key(id)
                    ==> new_results[name][id] == results[name][id])
            &&& !results[name].contains_key(segment_id) ==> new_results[name][segment_id] == values
            &&& results[name].contains_key(segment_id) ==> {
                let held = results[name][segment_id];
                let new = new_results[name][segment_id];
                &&& forall|value: (u8, u64)| #[trigger]
                    new.numeric.contains(value) <==> held.numeric.contains(value)
                        || values.numeric.contains(value)
                &&& forall|address: u128| #[trigger]
                    new.ip.contains(address) <==> held.ip.contains(address) || values.ip.contains(
                        address,
                    )
                &&& held.terms is Some && values.terms is Some ==> {
                    &&& (held.terms->0).0 == (values.terms->0).0
                    &&& new.terms is Some
                    &&& forall|ord: u64| #[trigger]
                        (new.terms->0).1.contains(ord) <==> (held.terms->0).1.contains(ord) || (
                        values.terms->0).1.contains(ord)
                }
            }
        },
        values.terms is None ==> result is Ok && new_limits == limits,
        values.terms matches Some((capacity, _)) && limits.memory_consumed + capacity / 8 + 64
            > limits.memory_limit && limits.memory_limit < u64::MAX ==> result matches Err(AggregationError::MemoryExceeded(_)),
{
    let fruit = Map::<u128, DistinctValues>::empty().insert(segment_id, values);
    if result is Ok && results.contains_key(name) {
        assert(results[name].contains_key(segment_id) && fruit.contains_key(segment_id)
            ==> results[name][segment_id].mergeable(fruit[segment_id]));
    }
    if result is Ok && !results.contains_key(name) {
        assert(new_results[name].dom() =~= Set::empty().insert(segment_id));
    }
    if values.terms is None {
        if results.contains_key(name) {
            assert(crate::aggregation::segment_distinct::all_mergeable(results[name], fruit));
        }
    }
}

/// Only growth is counted: an estimate that is not above what was reported changes nothing, and
/// one that is above it is counted up to the estimate, and reported if the budget allows it.
pub proof fn lemma_only_growth_is_counted(
    estimate: nat,
    reported: u64,
    limits: AggregationLimits,
    result: Result<(), crate::aggregation::limits::MemoryExceeded>,
    new_reported: u64,
    new_limits: AggregationLimits,
)
    requires
        crate::aggregation::collector::growth_registered(
            estimate,
            reported,
            limits,
            result,
            new_reported,
            new_limits,
        ),
        limits.memory_consumed + estimate <= u64::MAX,
    ensures
        estimate <= reported ==> result is Ok && new_limits == limits && new_reported == reported,
        estimate > reported ==> new_limits.memory_consumed - limits.memory_consumed == estimate
            - reported,
        estimate > reported && result is Ok ==> new_reported == estimate,
        result is Err ==> new_reported == reported,
        estimate > reported ==> (result is Ok <==> limits.memory_consumed + (estimate - reported)
            <= limits.memory_limit),
{
}

/// An ordinal is in a bitmap exactly if its bit is set: word number `ord / 64`, counted from the
/// lowest bit.
pub proof fn lemma_bitmap_layout(words: Vec<u64>, ord: u64, bit: u64)
    requires
        ord / 64 < words@.len(),
        bit == ord % 64,
    ensures
        crate::aggregation::ord_set::OrdSetRepr::Dense(words).ords().contains(ord) <==> (
        words@[(ord / 64) as int] & (1u64 << bit)) != 0,
{
    let word = words@[(ord / 64) as int];
    assert(((word >> bit) & 1 == 1) <==> (word & (1u64 << bit)) != 0) by (bit_vector)
        requires
            bit < 64,
    ;
}

/// Which ordinals the two representations hold, and when they are in order: a list if it is
/// strictly increasing and below the capacity, a bitmap if it has one bit for each ordinal below
/// the capacity and no bit is set from there on.
pub proof fn lemma_representations(list: Vec<u64>, words: Vec<u64>, capacity: u64)
    ensures
        forall|ord: u64| #[trigger]
            crate::aggregation::ord_set::OrdSetRepr::Sparse(list).ords().contains(ord)
                <==> list@.contains(ord),
        forall|ord: u64| #[trigger]
            crate::aggregation::ord_set::OrdSetRepr::Dense(words).ords().contains(ord) ==> ord / 64
                < words@.len(),
        crate::aggregation::ord_set::OrdSetRepr::Sparse(list).flaw(capacity) is None <==> (forall|
            i: int,
            j: int,
        |
            0 <= i < j < list@.len() ==> list@[i] < list@[j]) && (forall|i: int|
            0 <= i < list@.len() ==> list@[i] < capacity),
        64 * words@.len() >= capacity && 64 * words@.len() < capacity + 64 && (forall|ord: u64|
            #[trigger] crate::aggregation::ord_set::OrdSetRepr::Dense(words).ords().contains(ord)
                ==> ord < capacity) ==> crate::aggregation::ord_set::OrdSetRepr::Dense(words).flaw(
            capacity,
        ) is None,
        crate::aggregation::ord_set::OrdSetRepr::Dense(words).flaw(capacity) is None ==> {
            &&& 64 * words@.len() >= capacity
            &&& 64 * words@.len() < capacity + 64
            &&& forall|ord: u64| #[trigger]
                crate::aggregation::ord_set::OrdSetRepr::Dense(words).ords().contains(ord) ==> ord
                    < capacity
        },
{
    let bitmap = crate::aggregation::ord_set::OrdSetRepr::Dense(words);
    if 64 * words@.len() >= capacity && 64 * words@.len() < capacity + 64 && (forall|ord: u64|
        #[trigger] bitmap.ords().contains(ord) ==> ord < capacity) {
        assert forall|ord: u64| crate::aggregation::ord_set::has_bit(words@, ord) implies ord
            < capacity by {
            assert(bitmap.ords().contains(ord));
        }
    }
    if crate::aggregation::ord_set::OrdSetRepr::Dense(words).flaw(capacity) is None {
        assert forall|ord: u64| #[trigger]
            crate::aggregation::ord_set::OrdSetRepr::Dense(words).ords().contains(
                ord,
            ) implies ord < capacity by {
            assert(crate::aggregation::ord_set::has_bit(words@, ord));
        }
    }
}

/// Values are handed out once, and only at the top level; otherwise nothing changes.
pub proof fn lemma_nothing_is_handed_out_otherwise(
    collected: Option<DistinctValues>,
    name: Seq<char>,
    segment_id: u128,
    bucket_id: u32,
    limits: AggregationLimits,
    results: crate::aggregation::results::ValuesByName,
    result: Result<(), AggregationError>,
    new_limits: AggregationLimits,
    new_results: crate::aggregation::results::ValuesByName,
)
    requires
        crate::aggregation::collector::handed_out(
            collected,
            name,
            segment_id,
            bucket_id,
            limits,
            results,
            result,
            new_limits,
            new_results,
        ),
        bucket_id != 0 || collected is None,
    ensures
        new_results == results,
        new_limits == limits,
        bucket_id != 0 ==> result == Err::<(), AggregationError>(
            AggregationError::UnexpectedBucket,
        ),
        bucket_id == 0 ==> result == Err::<(), AggregationError>(AggregationError::FinalizedTwice),
{
}

/// Documents are collected at the top level, until the values are handed out, and in a column of
/// addresses only with its table.
pub proof fn lemma_when_documents_are_collected(
    collector: crate::aggregation::collector::SegmentDistinctCollector,
    bucket_id: u32,
)
    ensures
        collector.collect_error(bucket_id) is None <==> bucket_id == 0 && collector.values() is Some
            && (collector.spec_req_data().column_type == ColumnType::IpAddr
            ==> collector.spec_req_data().accessor.addresses is Some),
        bucket_id != 0 ==> collector.collect_error(bucket_id) == Some(
            AggregationError::UnexpectedBucket,
        ),
        bucket_id == 0 && collector.values() is None ==> collector.collect_error(bucket_id) == Some(
            AggregationError::CollectedAfterFinalization,
        ),
        bucket_id == 0 && collector.values() is Some && collector.collect_error(bucket_id) is Some
            ==> collector.collect_error(bucket_id) == Some(AggregationError::TypeMismatch),
        collector.column() == collector.spec_req_data().accessor,
        collector.spec_column_type() == collector.spec_req_data().column_type,
{
}

/// A merge that is stopped has lost nothing: each segment is as it was, or has the values of both
/// sides.
pub proof fn lemma_stopped_merge_loses_nothing(
    left: crate::aggregation::segment_distinct::ValuesBySegment,
    right: crate::aggregation::segment_distinct::ValuesBySegment,
    error: crate::aggregation::ord_set::CapacityMismatch,
    after: crate::aggregation::segment_distinct::ValuesBySegment,
    id: u128,
)
    requires
        crate::aggregation::segment_distinct::merge_stopped(left, right, error, after),
    ensures
        error.left != error.right,
        left.contains_key(id) ==> after.contains_key(id),
        after.contains_key(id) ==> left.contains_key(id) || right.contains_key(id),
        left.contains_key(id) ==> after[id] == left[id] || (right.contains_key(id) && after[id]
            == left[id].union(right[id])),
        after.contains_key(id) && !left.contains_key(id) ==> after[id] == right[id],
{
    let done = choose|done: Set<u128>|
        after == crate::aggregation::segment_distinct::merged(
            left,
            #[trigger] right.restrict(done),
        ) && crate::aggregation::segment_distinct::all_mergeable(left, right.restrict(done));
    lemma_merging_keeps_every_value(left, right.restrict(done), id);
}

/// What is pushed under a name is merged with what is held there, and kept as it is if nothing is.
pub proof fn lemma_pushing_merges(
    results: crate::aggregation::results::ValuesByName,
    name: Seq<char>,
    fruit: crate::aggregation::segment_distinct::ValuesBySegment,
    id: u128,
)
    ensures
        ({
            let held = crate::aggregation::results::held_under(results, name);
            let new = crate::aggregation::results::pushed(held, fruit);
            &&& !results.contains_key(name) ==> held is None && new == fruit
            &&& results.contains_key(name) ==> {
                &&& held == Some(results[name])
                &&& new.contains_key(id) <==> results[name].contains_key(id) || fruit.contains_key(
                    id,
                )
                &&& results[name].contains_key(id) && !fruit.contains_key(id) ==> new[id]
                    == results[name][id]
                &&& !results[name].contains_key(id) && fruit.contains_key(id) ==> new[id]
                    == fruit[id]
                &&& results[name].contains_key(id) && fruit.contains_key(id) ==> new[id]
                    == results[name][id].union(fruit[id])
            }
        }),
{
}

/// A set of terms is kept as a bitmap once it has more than one in 32 of the terms of the
/// dictionary. A merged set is one also where one of both sides was.
pub proof fn lemma_when_terms_become_a_bitmap(
    entry: crate::aggregation::segment_distinct::SegmentDistinctEntry,
    values: DistinctValues,
    left: crate::aggregation::ord_set::AdaptiveOrdSet,
    right: crate::aggregation::ord_set::AdaptiveOrdSet,
    after: Option<crate::aggregation::ord_set::AdaptiveOrdSet>,
)
    ensures
        crate::aggregation::ord_set::FRUIT_PROMOTION_RATIO == 32,
        crate::aggregation::collector::is_collected_entry(entry, values) ==> {
            &&& entry@ == values
            &&& values.terms is Some <==> entry.spec_str_ords() is Some
            &&& values.terms matches Some((capacity, ords)) ==> (
            entry.spec_str_ords()->0.is_dense() <==> 32 * ords.len() > capacity)
        },
        crate::aggregation::segment_distinct::terms_merged(Some(left), Some(right), after) ==> (
        after matches Some(ords) && (ords.is_dense() <==> left.is_dense() || right.is_dense() || 32
            * ords@.len() > left.spec_capacity())),
        crate::aggregation::segment_distinct::terms_merged(Some(left), None, after) ==> after
            == Some(left),
        crate::aggregation::segment_distinct::terms_merged(None, Some(right), after) ==> after
            == Some(right),
        left.is_dense() <==> left.spec_repr() is Dense,
{
}

/// The parts of an entry list its values.
pub proof fn lemma_parts_list_the_values(
    parts: crate::aggregation::segment_distinct::SegmentDistinctParts,
)
    ensures
        forall|value: (u8, u64)| #[trigger]
            parts.values().numeric.contains(value) <==> parts.numeric@.contains(value),
        forall|address: u128| #[trigger]
            parts.values().ip.contains(address) <==> parts.ip@.contains(address),
        parts.str_ords is Some <==> parts.values().terms is Some,
        parts.str_ords matches Some(ords) ==> parts.values().terms == Some(
            (ords.capacity, ords.repr.ords()),
        ),
        parts.str_ords is None ==> parts.consistent(),
        parts.str_ords matches Some(ords) ==> (parts.consistent() <==> ords.repr.flaw(ords.capacity)
            is None),
{
}

/// The part of a result that is about memory is its error, if that is about memory.
pub proof fn lemma_memory_errors(error: AggregationError)
    ensures
        crate::aggregation::collector::memory_result(Ok(())) is Ok,
        error matches AggregationError::MemoryExceeded(exceeded)
            ==> crate::aggregation::collector::memory_result(Err(error)) == Err::<
            (),
            crate::aggregation::limits::MemoryExceeded,
        >(exceeded),
        error !is MemoryExceeded ==> crate::aggregation::collector::memory_result(Err(error)) is Ok,
{
}

/// Each type of column has a code of its own, and keeps it.
pub proof fn lemma_codes_of_types(column_type: ColumnType)
    ensures
        column_type == ColumnType::I64 <==> column_type.spec_code() == 0,
        column_type == ColumnType::U64 <==> column_type.spec_code() == 1,
        column_type == ColumnType::F64 <==> column_type.spec_code() == 2,
        column_type == ColumnType::Bytes <==> column_type.spec_code() == 3,
        column_type == ColumnType::Str <==> column_type.spec_code() == 4,
        column_type == ColumnType::Bool <==> column_type.spec_code() == 5,
        column_type == ColumnType::IpAddr <==> column_type.spec_code() == 6,
        column_type == ColumnType::DateTime <==> column_type.spec_code() == 7,
{
}

} // verus!
