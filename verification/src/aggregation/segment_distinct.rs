//! Exact distinct-value counts per segment.

use rustc_hash::{FxHashMap, FxHashSet};
use vstd::prelude::*;

use crate::aggregation::fx::{
    fx_extend, fx_insert, fx_len, fx_map_get, fx_map_insert, fx_map_keys, fx_map_remove, fx_values,
};
use crate::aggregation::ord_set::{
    AdaptiveOrdSet, AdaptiveOrdSetSerde, CapacityMismatch, OrdSetPartsError,
};

verus! {

/// The distinct values of one segment, by the kind of their column.
#[verifier::ext_equal]
pub struct DistinctValues {
    /// The number of terms of the dictionary and the terms that occur, by their position.
    pub terms: Option<(u64, Set<u64>)>,
    /// Numbers, dates and booleans, each with the code of its column type.
    pub numeric: Set<(u8, u64)>,
    /// Addresses.
    pub ip: Set<u128>,
}

impl DistinctValues {
    /// No values.
    pub open spec fn none() -> DistinctValues {
        DistinctValues { terms: None, numeric: Set::empty(), ip: Set::empty() }
    }

    /// There are finitely many values.
    pub open spec fn finite(self) -> bool {
        &&& self.terms matches Some((_, ords)) ==> ords.finite()
        &&& self.numeric.finite()
        &&& self.ip.finite()
    }

    /// The number of values. Values of different kinds are different.
    pub open spec fn count(self) -> nat {
        (match self.terms {
            Some((_, ords)) => ords.len(),
            None => 0,
        }) + self.numeric.len() + self.ip.len()
    }

    /// Both speak of the same dictionary.
    pub open spec fn mergeable(self, other: DistinctValues) -> bool {
        match (self.terms, other.terms) {
            (Some((left, _)), Some((right, _))) => left == right,
            _ => true,
        }
    }

    /// The values that are in one of both.
    pub open spec fn union(self, other: DistinctValues) -> DistinctValues {
        DistinctValues {
            terms: match (self.terms, other.terms) {
                (Some((capacity, left)), Some((_, right))) => Some((capacity, left.union(right))),
                (Some(left), None) => Some(left),
                (None, right) => right,
            },
            numeric: self.numeric.union(other.numeric),
            ip: self.ip.union(other.ip),
        }
    }
}

/// The distinct values of one segment as lists.
#[derive(Clone, Debug)]
pub struct SegmentDistinctParts {
    /// The terms, if there is a column of terms.
    pub str_ords: Option<AdaptiveOrdSetSerde>,
    /// Numbers, dates and booleans, each with the code of its column type.
    pub numeric: Vec<(u8, u64)>,
    /// Addresses.
    pub ip: Vec<u128>,
}

impl SegmentDistinctParts {
    /// The list of terms is in order.
    pub open spec fn consistent(self) -> bool {
        self.str_ords matches Some(ords) ==> ords.repr.flaw(ords.capacity) is None
    }

    /// The list of terms is that of `terms`, in the same representation.
    pub open spec fn has_terms(self, terms: Option<AdaptiveOrdSet>) -> bool {
        match (self.str_ords, terms) {
            (Some(ords), Some(set)) => ords.capacity == set.spec_capacity() && ords.repr
                == set.spec_repr(),
            (None, None) => true,
            _ => false,
        }
    }

    /// The listed values.
    pub open spec fn values(self) -> DistinctValues {
        DistinctValues {
            terms: match self.str_ords {
                Some(ords) => Some((ords.capacity, ords.repr.ords())),
                None => None,
            },
            numeric: self.numeric@.to_set(),
            ip: self.ip@.to_set(),
        }
    }
}

/// Which values are united first makes no difference.
pub(crate) proof fn lemma_union_is_associative(
    first: DistinctValues,
    second: DistinctValues,
    third: DistinctValues,
)
    ensures
        first.union(second).union(third) == first.union(second.union(third)),
{
    assert(first.union(second).union(third) =~= first.union(second.union(third)));
}

/// How a merged set of terms is kept: one that only one side has as it is, else as a bitmap if one
/// of both is one or there are enough terms for it.
pub open spec fn terms_merged(
    left: Option<AdaptiveOrdSet>,
    right: Option<AdaptiveOrdSet>,
    after: Option<AdaptiveOrdSet>,
) -> bool {
    match (left, right) {
        (Some(left), Some(right)) => {
            &&& after matches Some(ords)
            &&& ords.is_dense() <==> (left.is_dense() || right.is_dense() || ords@.len()
                * crate::aggregation::ord_set::FRUIT_PROMOTION_RATIO > left.spec_capacity())
        },
        (Some(left), None) => after == Some(left),
        (None, right) => after == right,
    }
}

/// Distinct values of one segment.
pub struct SegmentDistinctEntry {
    str_ords: Option<AdaptiveOrdSet>,
    numeric: FxHashSet<(u8, u64)>,
    ip: FxHashSet<u128>,
}

impl View for SegmentDistinctEntry {
    type V = DistinctValues;

    closed spec fn view(&self) -> DistinctValues {
        DistinctValues {
            terms: match self.str_ords {
                Some(ords) => Some((ords.spec_capacity(), ords@)),
                None => None,
            },
            numeric: self.numeric@,
            ip: self.ip@,
        }
    }
}

impl SegmentDistinctEntry {
    /// The set of terms is in order, and there are finitely many values.
    pub closed spec fn wf(self) -> bool {
        &&& self.str_ords matches Some(ords) ==> ords.wf()
        &&& self@.finite()
    }

    /// There are finitely many values, and terms are in the dictionary.
    pub proof fn lemma_wf(self)
        requires
            self.wf(),
        ensures
            self@.finite(),
            self@.terms matches Some((capacity, ords)) ==> forall|ord: u64| #[trigger]
                ords.contains(ord) ==> ord < capacity,
    {
        if let Some(ords) = self.str_ords {
            ords.lemma_wf_bounds();
        }
    }

    /// The set of terms, with its representation.
    pub closed spec fn spec_str_ords(self) -> Option<AdaptiveOrdSet> {
        self.str_ords
    }

    /// No values.
    pub fn new() -> (entry: SegmentDistinctEntry)
        ensures
            entry.wf(),
            entry@ == DistinctValues::none(),
            entry.spec_str_ords() is None,
    {
        SegmentDistinctEntry {
            str_ords: None,
            numeric: FxHashSet::default(),
            ip: FxHashSet::default(),
        }
    }

    /// The given values.
    pub(crate) fn from_sets(
        str_ords: Option<AdaptiveOrdSet>,
        numeric: FxHashSet<(u8, u64)>,
        ip: FxHashSet<u128>,
    ) -> (entry: SegmentDistinctEntry)
        requires
            str_ords matches Some(ords) ==> ords.wf() && ords@.finite(),
            numeric@.finite(),
            ip@.finite(),
        ensures
            entry.wf(),
            entry@ == (DistinctValues {
                terms: match str_ords {
                    Some(ords) => Some((ords.spec_capacity(), ords@)),
                    None => None,
                },
                numeric: numeric@,
                ip: ip@,
            }),
            entry.spec_str_ords() == str_ords,
    {
        SegmentDistinctEntry { str_ords, numeric, ip }
    }

    /// Takes the values apart.
    pub fn into_parts(self) -> (parts: SegmentDistinctParts)
        requires
            self.wf(),
        ensures
            parts.consistent(),
            parts.values() == self@,
            parts.has_terms(self.spec_str_ords()),
    {
        let ghost whole = self@;
        let str_ords: Option<AdaptiveOrdSetSerde> = match self.str_ords {
            Some(ords) => {
                proof {
                    ords.lemma_view();
                }
                Some(ords.into_parts())
            },
            None => None,
        };
        let parts = SegmentDistinctParts {
            str_ords,
            numeric: fx_values(self.numeric),
            ip: fx_values(self.ip),
        };
        assert(parts.values() =~= whole);
        parts
    }

    /// Puts values together, unless the parts are inconsistent.
    pub fn from_parts(parts: SegmentDistinctParts) -> (result: Result<
        SegmentDistinctEntry,
        OrdSetPartsError,
    >)
        requires
            parts.str_ords matches Some(ords)
                ==> crate::aggregation::ord_set::words_needed(ords.capacity) <= usize::MAX,
        ensures
            result is Ok <==> parts.consistent(),
            match result {
                Ok(entry) => {
                    &&& entry.wf()
                    &&& entry@ == parts.values()
                    &&& parts.has_terms(entry.spec_str_ords())
                },
                Err(error) => parts.str_ords matches Some(ords) && ords.repr.flaw(ords.capacity)
                    == Some(error),
            },
    {
        let mut numeric: FxHashSet<(u8, u64)> = FxHashSet::default();
        let mut next: usize = 0;
        assert(numeric@ =~= parts.numeric@.take(0).to_set());
        while next < parts.numeric.len()
            invariant
                next <= parts.numeric@.len(),
                numeric@.finite(),
                numeric@ == parts.numeric@.take(next as int).to_set(),
            decreases parts.numeric@.len() - next,
        {
            let value: (u8, u64) = parts.numeric[next];
            fx_insert(&mut numeric, value);
            proof {
                assert(parts.numeric@.take(next + 1) =~= parts.numeric@.take(next as int).push(
                    value,
                ));
                crate::sorting::lemma_push_to_set(parts.numeric@.take(next as int), value);
            }
            next = next + 1;
        }
        let mut ip: FxHashSet<u128> = FxHashSet::default();
        next = 0;
        assert(ip@ =~= parts.ip@.take(0).to_set());
        while next < parts.ip.len()
            invariant
                next <= parts.ip@.len(),
                ip@.finite(),
                ip@ == parts.ip@.take(next as int).to_set(),
            decreases parts.ip@.len() - next,
        {
            let value: u128 = parts.ip[next];
            fx_insert(&mut ip, value);
            proof {
                assert(parts.ip@.take(next + 1) =~= parts.ip@.take(next as int).push(value));
                crate::sorting::lemma_push_to_set(parts.ip@.take(next as int), value);
            }
            next = next + 1;
        }
        proof {
            assert(parts.numeric@.take(parts.numeric@.len() as int) =~= parts.numeric@);
            assert(parts.ip@.take(parts.ip@.len() as int) =~= parts.ip@);
        }
        let str_ords: Option<AdaptiveOrdSet> = match parts.str_ords {
            Some(ords) => match AdaptiveOrdSet::try_from(ords) {
                Ok(set) => {
                    proof {
                        set.lemma_wf_bounds();
                    }
                    Some(set)
                },
                Err(error) => {
                    return Err(error);
                },
            },
            None => None,
        };
        Ok(Self::from_sets(str_ords, numeric, ip))
    }

    /// Adds the values of `other`. Nothing changes if the two speak of different dictionaries. A
    /// set of terms that only one of both has is kept as it is.
    pub fn merge(&mut self, other: SegmentDistinctEntry) -> (result: Result<(), CapacityMismatch>)
        requires
            old(self).wf(),
            other.wf(),
        ensures
            final(self).wf(),
            result is Ok <==> old(self)@.mergeable(other@),
            result is Ok ==> {
                &&& final(self)@ == old(self)@.union(other@)
                &&& terms_merged(
                    old(self).spec_str_ords(),
                    other.spec_str_ords(),
                    final(self).spec_str_ords(),
                )
            },
            result matches Err(error) ==> {
                &&& *final(self) == *old(self)
                &&& old(self)@.terms matches Some((capacity, _)) && error.left == capacity
                &&& other@.terms matches Some((capacity, _)) && error.right == capacity
            },
    {
        let ghost before = self@;
        let SegmentDistinctEntry { str_ords, numeric, ip } = other;
        match (&mut self.str_ords, str_ords) {
            (Some(left), Some(right)) => {
                match left.merge(right) {
                    Ok(_) => {},
                    Err(error) => {
                        return Err(error);
                    },
                }
            },
            (None, Some(right)) => {
                self.str_ords = Some(right);
            },
            (_, None) => {},
        }
        fx_extend(&mut self.numeric, numeric);
        fx_extend(&mut self.ip, ip);
        Ok(())
    }

    /// The number of distinct values.
    pub fn count(&self) -> (count: u64)
        requires
            self.wf(),
            self@.count() <= u64::MAX,
        ensures
            self@.finite(),
            count == self@.count(),
    {
        let terms: u64 = match &self.str_ords {
            Some(ords) => ords.count(),
            None => 0,
        };
        let numeric: usize = fx_len(&self.numeric);
        let ip: usize = fx_len(&self.ip);
        terms + numeric as u64 + ip as u64
    }
}

/// The distinct values of several segments, by the id of the segment.
pub type ValuesBySegment = Map<u128, DistinctValues>;

/// Segments that are in both speak of the same dictionary.
pub open spec fn all_mergeable(left: ValuesBySegment, right: ValuesBySegment) -> bool {
    forall|id: u128| #[trigger]
        left.contains_key(id) && right.contains_key(id) ==> left[id].mergeable(right[id])
}

/// The segments of both; the values of a segment that is in both are united.
pub open spec fn merged(left: ValuesBySegment, right: ValuesBySegment) -> ValuesBySegment {
    Map::new(
        |id: u128| left.contains_key(id) || right.contains_key(id),
        |id: u128|
            if left.contains_key(id) && right.contains_key(id) {
                left[id].union(right[id])
            } else if left.contains_key(id) {
                left[id]
            } else {
                right[id]
            },
    )
}

/// `after` is the entry of a segment after `right` was merged into `left`: one that only one side
/// has is kept as it is.
pub open spec fn entry_merged(
    left: Map<u128, SegmentDistinctEntry>,
    right: Map<u128, SegmentDistinctEntry>,
    id: u128,
    after: SegmentDistinctEntry,
) -> bool {
    if left.contains_key(id) && right.contains_key(id) {
        terms_merged(
            left[id].spec_str_ords(),
            right[id].spec_str_ords(),
            after.spec_str_ords(),
        )
    } else if left.contains_key(id) {
        after == left[id]
    } else {
        right.contains_key(id) && after == right[id]
    }
}

/// Merging `right` into `left` was stopped by a segment that has two dictionaries: `after` has
/// some of the other segments merged.
pub open spec fn merge_stopped(
    left: ValuesBySegment,
    right: ValuesBySegment,
    error: CapacityMismatch,
    after: ValuesBySegment,
) -> bool {
    &&& exists|done: Set<u128>|
        after == merged(left, #[trigger] right.restrict(done)) && all_mergeable(
            left,
            right.restrict(done),
        )
    &&& exists|id: u128| #[trigger]
        left.contains_key(id) && right.contains_key(id) && {
            &&& left[id].terms matches Some((capacity, _)) && error.left == capacity
            &&& right[id].terms matches Some((capacity, _)) && error.right == capacity
            &&& error.left != error.right
        }
}

/// The sum over all segments of the number of their distinct values.
pub open spec fn total(values: ValuesBySegment) -> nat
    decreases values.dom().len(),
    when values.dom().finite()
{
    if values.dom().len() == 0 {
        0
    } else {
        let id = values.dom().choose();
        values[id].count() + total(values.remove(id))
    }
}

/// The total is the count of any one segment and the total of the others.
pub proof fn lemma_total_of_segment(values: ValuesBySegment, id: u128)
    requires
        values.dom().finite(),
        values.contains_key(id),
    ensures
        total(values) == values[id].count() + total(values.remove(id)),
    decreases values.dom().len(),
{
    let first = values.dom().choose();
    assert(values.dom().len() > 0) by {
        if values.dom().len() == 0 {
            assert(values.dom() =~= Set::empty());
        }
    }
    assert(values.dom().contains(first));
    if first != id {
        let without_first = values.remove(first);
        let without_id = values.remove(id);
        assert(without_first.dom() =~= values.dom().remove(first));
        assert(without_id.dom() =~= values.dom().remove(id));
        lemma_total_of_segment(without_first, id);
        lemma_total_of_segment(without_id, first);
        assert(without_first.remove(id) =~= without_id.remove(first));
    }
}

/// Merging the results of different segments adds their totals up: a value that occurs in
/// several segments counts once for each of them.
pub proof fn lemma_different_segments_add(left: ValuesBySegment, right: ValuesBySegment)
    requires
        left.dom().finite(),
        right.dom().finite(),
        left.dom().disjoint(right.dom()),
    ensures
        all_mergeable(left, right),
        total(merged(left, right)) == total(left) + total(right),
    decreases right.dom().len(),
{
    let all = merged(left, right);
    assert forall|id: u128| #[trigger]
        left.contains_key(id) && right.contains_key(id) implies left[id].mergeable(right[id]) by {
        assert(left.dom().contains(id) && right.dom().contains(id));
    }
    assert(all.dom() =~= left.dom().union(right.dom()));
    if right.dom().len() == 0 {
        assert(right.dom() =~= Set::empty());
        assert(all =~= left);
    } else {
        let id = right.dom().choose();
        let rest = right.remove(id);
        assert(right.dom().contains(id) && !left.dom().contains(id));
        assert(rest.dom() =~= right.dom().remove(id));
        assert(left.dom().disjoint(rest.dom()));
        lemma_different_segments_add(left, rest);
        lemma_total_of_segment(all, id);
        assert(all.remove(id) =~= merged(left, rest));
    }
}

/// The numbers, dates and booleans that occur in some segment.
pub open spec fn all_numeric(values: ValuesBySegment) -> Set<(u8, u64)> {
    Set::new(
        |value: (u8, u64)|
            exists|id: u128| #[trigger]
                values.contains_key(id) && values[id].numeric.contains(value),
    )
}

/// The addresses that occur in some segment.
pub open spec fn all_addresses(values: ValuesBySegment) -> Set<u128> {
    Set::new(
        |address: u128|
            exists|id: u128| #[trigger]
                values.contains_key(id) && values[id].ip.contains(address),
    )
}

/// The total is an upper bound for the number of values that are different over all segments.
/// (Terms are known by their position in the dictionary of their segment, and not compared.)
pub proof fn lemma_total_is_an_upper_bound(values: ValuesBySegment)
    requires
        values.dom().finite(),
        forall|id: u128| #[trigger] values.contains_key(id) ==> values[id].finite(),
    ensures
        all_numeric(values).finite(),
        all_addresses(values).finite(),
        all_numeric(values).len() + all_addresses(values).len() <= total(values),
    decreases values.dom().len(),
{
    if values.dom().len() == 0 {
        assert(values.dom() =~= Set::empty());
        assert(all_numeric(values) =~= Set::empty());
        assert(all_addresses(values) =~= Set::empty());
    } else {
        let id = values.dom().choose();
        let rest = values.remove(id);
        assert(values.contains_key(id));
        assert(rest.dom() =~= values.dom().remove(id));
        assert forall|other: u128| #[trigger] rest.contains_key(other) implies rest[other].finite() by {
            assert(values.contains_key(other));
        }
        lemma_total_is_an_upper_bound(rest);
        assert forall|value: (u8, u64)| #[trigger] all_numeric(values).contains(value)
            <==> values[id].numeric.union(all_numeric(rest)).contains(value) by {
            if all_numeric(values).contains(value) && !values[id].numeric.contains(value) {
                let other = choose|other: u128| #[trigger]
                    values.contains_key(other) && values[other].numeric.contains(value);
                assert(rest.contains_key(other) && rest[other].numeric.contains(value));
            }
            if all_numeric(rest).contains(value) {
                let other = choose|other: u128| #[trigger]
                    rest.contains_key(other) && rest[other].numeric.contains(value);
                assert(values.contains_key(other) && values[other].numeric.contains(value));
            }
        }
        assert forall|address: u128| #[trigger] all_addresses(values).contains(address)
            <==> values[id].ip.union(all_addresses(rest)).contains(address) by {
            if all_addresses(values).contains(address) && !values[id].ip.contains(address) {
                let other = choose|other: u128| #[trigger]
                    values.contains_key(other) && values[other].ip.contains(address);
                assert(rest.contains_key(other) && rest[other].ip.contains(address));
            }
            if all_addresses(rest).contains(address) {
                let other = choose|other: u128| #[trigger]
                    rest.contains_key(other) && rest[other].ip.contains(address);
                assert(values.contains_key(other) && values[other].ip.contains(address));
            }
        }
        assert(all_numeric(values) =~= values[id].numeric.union(all_numeric(rest)));
        assert(all_addresses(values) =~= values[id].ip.union(all_addresses(rest)));
        vstd::set_lib::lemma_len_union(values[id].numeric, all_numeric(rest));
        vstd::set_lib::lemma_len_union(values[id].ip, all_addresses(rest));
    }
}

/// Merging a result with one of the same values changes nothing.
pub proof fn lemma_merge_is_idempotent(values: ValuesBySegment)
    ensures
        all_mergeable(values, values),
        merged(values, values) == values,
{
    assert forall|id: u128| values.contains_key(id) implies #[trigger] merged(
        values,
        values,
    )[id] == values[id] by {
        assert(values[id].union(values[id]) =~= values[id]);
    }
    assert(merged(values, values) =~= values);
}

/// The order in which results are merged makes no difference.
pub proof fn lemma_merge_is_commutative(left: ValuesBySegment, right: ValuesBySegment)
    requires
        all_mergeable(left, right),
    ensures
        all_mergeable(right, left),
        merged(left, right) == merged(right, left),
{
    assert forall|id: u128| merged(left, right).contains_key(id) implies #[trigger] merged(
        left,
        right,
    )[id] == merged(right, left)[id] by {
        if left.contains_key(id) && right.contains_key(id) {
            assert(left[id].mergeable(right[id]));
            assert(left[id].union(right[id]) =~= right[id].union(left[id]));
        }
    }
    assert(merged(left, right) =~= merged(right, left));
}

/// Which results are merged first makes no difference.
pub proof fn lemma_merge_is_associative(
    first: ValuesBySegment,
    second: ValuesBySegment,
    third: ValuesBySegment,
)
    ensures
        merged(merged(first, second), third) == merged(first, merged(second, third)),
{
    let left = merged(merged(first, second), third);
    let right = merged(first, merged(second, third));
    assert forall|id: u128| left.contains_key(id) implies #[trigger] left[id] == right[id] by {
        if first.contains_key(id) && second.contains_key(id) && third.contains_key(id) {
            assert(first[id].union(second[id]).union(third[id]) =~= first[id].union(
                second[id].union(third[id]),
            ));
        }
    }
    assert(left =~= right);
}

/// The distinct values of several segments.
pub struct IntermediateSegmentDistinct {
    per_segment: FxHashMap<u128, SegmentDistinctEntry>,
}

impl View for IntermediateSegmentDistinct {
    type V = ValuesBySegment;

    closed spec fn view(&self) -> ValuesBySegment {
        Map::new(|id: u128| self.per_segment@.contains_key(id), |id: u128| self.per_segment@[id]@)
    }
}

impl IntermediateSegmentDistinct {
    /// The values of each segment are in order.
    pub closed spec fn wf(self) -> bool {
        forall|id: u128| #[trigger]
            self.per_segment@.contains_key(id) ==> self.per_segment@[id].wf()
    }

    /// The entries by the id of the segment, with the representation of their terms.
    pub closed spec fn entries(self) -> Map<u128, SegmentDistinctEntry> {
        self.per_segment@
    }

    /// There are finitely many values in each segment.
    pub proof fn lemma_wf(self)
        requires
            self.wf(),
        ensures
            forall|id: u128| #[trigger] self@.contains_key(id) ==> self@[id].finite(),
    {
        assert forall|id: u128| #[trigger] self@.contains_key(id) implies self@[id].finite() by {
            assert(self.per_segment@.contains_key(id));
        }
    }

    /// No segments.
    pub fn new() -> (intermediate: IntermediateSegmentDistinct)
        ensures
            intermediate.wf(),
            intermediate@ == ValuesBySegment::empty(),
            intermediate.entries() == Map::<u128, SegmentDistinctEntry>::empty(),
    {
        let per_segment: FxHashMap<u128, SegmentDistinctEntry> = FxHashMap::default();
        let intermediate = IntermediateSegmentDistinct { per_segment };
        assert(intermediate@ =~= ValuesBySegment::empty());
        intermediate
    }

    /// One segment.
    pub fn from_entry(segment_id: u128, entry: SegmentDistinctEntry) -> (intermediate: Self)
        requires
            entry.wf(),
        ensures
            intermediate.wf(),
            intermediate@ == ValuesBySegment::empty().insert(segment_id, entry@),
            intermediate.entries() == Map::<u128, SegmentDistinctEntry>::empty().insert(
                segment_id,
                entry,
            ),
    {
        let mut per_segment: FxHashMap<u128, SegmentDistinctEntry> = FxHashMap::default();
        let ghost added = entry;
        fx_map_insert(&mut per_segment, segment_id, entry);
        let intermediate = IntermediateSegmentDistinct { per_segment };
        assert(intermediate@ =~= ValuesBySegment::empty().insert(segment_id, added@));
        intermediate
    }

    /// Adds the values of `other`, segment by segment. After an error, some segments have been
    /// merged and the others are as they were.
    pub fn merge_fruits(&mut self, other: Self) -> (result: Result<(), CapacityMismatch>)
        requires
            old(self).wf(),
            other.wf(),
        ensures
            final(self).wf(),
            result is Ok <==> all_mergeable(old(self)@, other@),
            result is Ok ==> final(self)@ == merged(old(self)@, other@),
            result is Ok ==> forall|id: u128| #[trigger]
                final(self).entries().contains_key(id) ==> entry_merged(
                    old(self).entries(),
                    other.entries(),
                    id,
                    final(self).entries()[id],
                ),
            result matches Err(error) ==> merge_stopped(old(self)@, other@, error, final(self)@),
    {
        let ghost own = self@;
        let ghost own_entries = self.per_segment@;
        let ghost theirs = other@;
        let keys: Vec<u128> = fx_map_keys(&other.per_segment);
        let mut rest: FxHashMap<u128, SegmentDistinctEntry> = other.per_segment;
        let ghost start = rest@;
        let mut next: usize = 0;
        proof {
            let done = keys@.take(0).to_set();
            assert(merged(own, theirs.restrict(done)) =~= own);
        }
        let mut failed: Option<CapacityMismatch> = None;
        while next < keys.len() && failed.is_none()
            invariant
                next <= keys@.len(),
                self.wf(),
                failed matches Some(error) ==> exists|id: u128| #[trigger]
                    own.contains_key(id) && theirs.contains_key(id) && {
                        &&& own[id].terms matches Some((capacity, _)) && error.left == capacity
                        &&& theirs[id].terms matches Some((capacity, _)) && error.right == capacity
                        &&& error.left != error.right
                    },
                own == old(self)@,
                own_entries == old(self).per_segment@,
                forall|id: u128| #[trigger]
                    own_entries.contains_key(id) <==> own.contains_key(id),
                forall|id: u128| #[trigger]
                    self.per_segment@.contains_key(id) ==> (if own_entries.contains_key(id)
                        && !keys@.take(next as int).contains(id) {
                        self.per_segment@[id] == own_entries[id]
                    } else {
                        entry_merged(own_entries, start, id, self.per_segment@[id])
                    }),
                keys@.no_duplicates(),
                keys@.to_set() == start.dom(),
                forall|id: u128| #[trigger] start.contains_key(id) <==> theirs.contains_key(id),
                forall|id: u128| #[trigger]
                    start.contains_key(id) ==> theirs[id] == start[id]@ && start[id].wf(),
                failed is None ==> forall|id: u128| #[trigger]
                    rest@.contains_key(id) <==> start.contains_key(id) && !keys@.take(
                        next as int,
                    ).contains(id),
                forall|id: u128| #[trigger] rest@.contains_key(id) ==> rest@[id] == start[id],
                self@ == merged(own, theirs.restrict(keys@.take(next as int).to_set())),
                all_mergeable(own, theirs.restrict(keys@.take(next as int).to_set())),
            decreases (keys@.len() - next) + (if failed is None {
                1int
            } else {
                0int
            }),
        {
            let id: u128 = keys[next];
            let ghost done = keys@.take(next as int);
            let ghost before = self@;
            proof {
                assert(keys@.to_set().contains(id));
                assert(start.contains_key(id));
                assert(!done.contains(id)) by {
                    if done.contains(id) {
                        let k = choose|k: int| 0 <= k < done.len() && done[k] == id;
                        assert(keys@[k] == keys@[next as int]);
                    }
                }
                assert(rest@.contains_key(id));
                assert(self@.contains_key(id) <==> own.contains_key(id));
                assert(own.contains_key(id) ==> self@[id] == own[id]);
                let longer = keys@.take(next + 1);
                assert(longer =~= done.push(id));
                assert forall|other_id: u128| longer.to_set().contains(other_id) <==> (
                done.to_set().contains(other_id) || other_id == id) by {
                    if done.contains(other_id) {
                        let k = choose|k: int| 0 <= k < done.len() && done[k] == other_id;
                        assert(longer[k] == other_id);
                    }
                    assert(longer[next as int] == id);
                }
            }
            let ghost after_done = keys@.take(next + 1).to_set();
            match fx_map_remove(&mut rest, id) {
                Some(entry) => {
                    let ghost added = entry@;
                    match fx_map_remove(&mut self.per_segment, id) {
                        Some(mut held) => {
                            let ghost held_before = held@;
                            let outcome = held.merge(entry);
                            let ghost held_after = held@;
                            fx_map_insert(&mut self.per_segment, id, held);
                            if let Err(error) = outcome {
                                proof {
                                    assert(self@ =~= before);
                                    assert(own.contains_key(id) && theirs.contains_key(id));
                                    assert(!own[id].mergeable(theirs[id]));
                                }
                                failed = Some(error);
                            } else {
                                assert(self@ =~= before.insert(id, held_before.union(added)));
                            }
                        },
                        None => {
                            fx_map_insert(&mut self.per_segment, id, entry);
                            proof {
                                assert(self@ =~= before.insert(id, added));
                            }
                        },
                    }
                },
                None => {},
            }
            if failed.is_none() {
                assert(self@ =~= merged(own, theirs.restrict(after_done)));
                next = next + 1;
            }
        }
        if let Some(error) = failed {
            assert(!all_mergeable(own, theirs));
            return Err(error);
        }
        proof {
            assert(keys@.take(keys@.len() as int) =~= keys@);
            assert(theirs.restrict(keys@.to_set()) =~= theirs);
            assert forall|id: u128| #[trigger]
                self.per_segment@.contains_key(id) implies entry_merged(
                own_entries,
                start,
                id,
                self.per_segment@[id],
            ) by {
                if start.contains_key(id) {
                    assert(keys@.to_set().contains(id));
                }
            }
        }
        Ok(())
    }

    /// Takes the values apart, segment by segment, in any order.
    pub fn into_parts(self) -> (parts: Vec<(u128, SegmentDistinctParts)>)
        requires
            self.wf(),
        ensures
            forall|i: int|
                0 <= i < parts@.len() ==> self@.contains_key((#[trigger] parts@[i]).0)
                    && parts@[i].1.consistent() && parts@[i].1.values() == self@[parts@[i].0]
                    && parts@[i].1.has_terms(self.entries()[parts@[i].0].spec_str_ords()),
            forall|i: int, j: int|
                0 <= i < j < parts@.len() ==> (#[trigger] parts@[i]).0 != (#[trigger] parts@[j]).0,
            forall|id: u128| #[trigger]
                self@.contains_key(id) ==> exists|i: int|
                    0 <= i < parts@.len() && (#[trigger] parts@[i]).0 == id,
    {
        let ghost whole = self@;
        let keys: Vec<u128> = fx_map_keys(&self.per_segment);
        let mut rest: FxHashMap<u128, SegmentDistinctEntry> = self.per_segment;
        let ghost start = rest@;
        let mut parts: Vec<(u128, SegmentDistinctParts)> = Vec::new();
        let mut next: usize = 0;
        while next < keys.len()
            invariant
                next <= keys@.len(),
                parts@.len() == next,
                keys@.no_duplicates(),
                keys@.to_set() == start.dom(),
                forall|id: u128| #[trigger] start.contains_key(id) <==> whole.contains_key(id),
                forall|id: u128| #[trigger]
                    start.contains_key(id) ==> whole[id] == start[id]@ && start[id].wf(),
                forall|i: int| next <= i < keys@.len() ==> rest@.contains_key(#[trigger] keys@[i]),
                forall|id: u128| #[trigger]
                    rest@.contains_key(id) ==> start.contains_key(id) && rest@[id] == start[id],
                forall|i: int| 0 <= i < next ==> (#[trigger] parts@[i]).0 == keys@[i],
                forall|i: int|
                    0 <= i < next ==> whole.contains_key((#[trigger] parts@[i]).0)
                        && parts@[i].1.consistent() && parts@[i].1.values() == whole[parts@[i].0]
                        && parts@[i].1.has_terms(start[parts@[i].0].spec_str_ords()),
            decreases keys@.len() - next,
        {
            let id: u128 = keys[next];
            assert(rest@.contains_key(keys@[next as int]));
            if let Some(entry) = fx_map_remove(&mut rest, id) {
                parts.push((id, entry.into_parts()));
            }
            next = next + 1;
        }
        proof {
            assert forall|id: u128| #[trigger] whole.contains_key(id) implies exists|i: int|
                0 <= i < parts@.len() && (#[trigger] parts@[i]).0 == id by {
                assert(keys@.to_set().contains(id));
                let k = choose|k: int| 0 <= k < keys@.len() && keys@[k] == id;
                assert(parts@[k].0 == id);
            }
        }
        parts
    }

    /// The sum over all segments of the number of their distinct values.
    pub fn finalize(&self) -> (value: u64)
        requires
            self.wf(),
            total(self@) <= u64::MAX,
        ensures
            self@.dom().finite(),
            value == total(self@),
    {
        let keys: Vec<u128> = fx_map_keys(&self.per_segment);
        let mut value: u64 = 0;
        let mut next: usize = 0;
        let ghost mut rest = self@;
        proof {
            assert(self@.dom() =~= self.per_segment@.dom());
            vstd::seq_lib::seq_to_set_is_finite(keys@);
        }
        while next < keys.len()
            invariant
                next <= keys@.len(),
                self.wf(),
                keys@.no_duplicates(),
                keys@.to_set() == self.per_segment@.dom(),
                self@.dom().finite(),
                rest.dom().finite(),
                forall|id: u128| #[trigger]
                    rest.contains_key(id) <==> self@.contains_key(id) && !keys@.take(
                        next as int,
                    ).contains(id),
                forall|id: u128| #[trigger] rest.contains_key(id) ==> rest[id] == self@[id],
                value + total(rest) == total(self@),
                total(self@) <= u64::MAX,
            decreases keys@.len() - next,
        {
            let id: u128 = keys[next];
            let ghost done = keys@.take(next as int);
            proof {
                assert(keys@.to_set().contains(id));
                assert(self.per_segment@.contains_key(id));
                assert(self@.contains_key(id));
                assert(!done.contains(id)) by {
                    if done.contains(id) {
                        let k = choose|k: int| 0 <= k < done.len() && done[k] == id;
                        assert(keys@[k] == keys@[next as int]);
                    }
                }
                assert(rest.contains_key(id));
                lemma_total_of_segment(rest, id);
            }
            if let Some(entry) = fx_map_get(&self.per_segment, id) {
                value = value + entry.count();
            }
            proof {
                let longer = keys@.take(next + 1);
                assert(longer =~= done.push(id));
                assert forall|other_id: u128| longer.contains(other_id) <==> (done.contains(
                    other_id,
                ) || other_id == id) by {
                    if done.contains(other_id) {
                        let k = choose|k: int| 0 <= k < done.len() && done[k] == other_id;
                        assert(longer[k] == other_id);
                    }
                    assert(longer[next as int] == id);
                }
                assert(rest.remove(id).dom() =~= rest.dom().remove(id));
                rest = rest.remove(id);
            }
            next = next + 1;
        }
        proof {
            assert(keys@.take(keys@.len() as int) =~= keys@);
            assert(rest.dom() =~= Set::empty()) by {
                assert forall|id: u128| !rest.dom().contains(id) by {
                    if rest.contains_key(id) {
                        assert(self.per_segment@.contains_key(id));
                        assert(keys@.to_set().contains(id));
                    }
                }
            }
        }
        value
    }
}

} // verus!
