//! The results of a search, by the names of the aggregations.

use vstd::prelude::*;

use crate::aggregation::ord_set::CapacityMismatch;
use crate::aggregation::segment_distinct::{IntermediateSegmentDistinct, SegmentDistinctEntry};

verus! {

/// The distinct values of several segments, by the name of the aggregation that asked for them.
pub type ValuesByName = Map<Seq<char>, crate::aggregation::segment_distinct::ValuesBySegment>;

/// What pushing `fruit` makes of the values under a name that were there before.
pub open spec fn pushed(
    held: Option<crate::aggregation::segment_distinct::ValuesBySegment>,
    fruit: crate::aggregation::segment_distinct::ValuesBySegment,
) -> crate::aggregation::segment_distinct::ValuesBySegment {
    match held {
        Some(values) => crate::aggregation::segment_distinct::merged(values, fruit),
        None => fruit,
    }
}

/// The values under a name.
pub open spec fn held_under(results: ValuesByName, name: Seq<char>) -> Option<
    crate::aggregation::segment_distinct::ValuesBySegment,
> {
    if results.contains_key(name) {
        Some(results[name])
    } else {
        None
    }
}

/// `after` are the entries under a name after those of `fruit` were merged into `held`.
pub open spec fn entries_pushed(
    held: Map<u128, SegmentDistinctEntry>,
    fruit: Map<u128, SegmentDistinctEntry>,
    after: Map<u128, SegmentDistinctEntry>,
) -> bool {
    forall|id: u128| #[trigger]
        after.contains_key(id) ==> crate::aggregation::segment_distinct::entry_merged(
            held,
            fruit,
            id,
            after[id],
        )
}

/// The results of several aggregations, each under its name.
pub struct IntermediateAggregationResults {
    entries: Vec<(String, IntermediateSegmentDistinct)>,
}

spec fn is_at(
    entries: Seq<(String, IntermediateSegmentDistinct)>,
    name: Seq<char>,
    index: int,
) -> bool {
    0 <= index < entries.len() && entries[index].0@ == name
}

impl View for IntermediateAggregationResults {
    type V = ValuesByName;

    closed spec fn view(&self) -> ValuesByName {
        Map::new(
            |name: Seq<char>| exists|i: int| is_at(self.entries@, name, i),
            |name: Seq<char>| self.entries@[choose|i: int| is_at(self.entries@, name, i)].1@,
        )
    }
}

impl IntermediateAggregationResults {
    /// No name occurs twice, and the values under each are in order.
    pub closed spec fn wf(self) -> bool {
        &&& forall|i: int| 0 <= i < self.entries@.len() ==> (#[trigger] self.entries@[i]).1.wf()
        &&& forall|i: int, j: int|
            0 <= i < j < self.entries@.len() ==> (#[trigger] self.entries@[i]).0@ != (
            #[trigger] self.entries@[j]).0@
    }

    /// The entries under a name, with the representation of their terms.
    pub closed spec fn entries_under(self, name: Seq<char>) -> Map<u128, SegmentDistinctEntry> {
        self.entries@[choose|i: int| is_at(self.entries@, name, i)].1.entries()
    }

    proof fn lemma_at(self, name: Seq<char>, index: int)
        requires
            self.wf(),
            is_at(self.entries@, name, index),
        ensures
            self@.contains_key(name),
            self@[name] == self.entries@[index].1@,
            self.entries_under(name) == self.entries@[index].1.entries(),
    {
        let found = choose|i: int| is_at(self.entries@, name, i);
        assert(is_at(self.entries@, name, found));
        if found < index {
            assert(self.entries@[found].0@ != self.entries@[index].0@);
        } else if index < found {
            assert(self.entries@[index].0@ != self.entries@[found].0@);
        }
    }

    /// There are finitely many values in each segment under each name.
    pub proof fn lemma_wf(self)
        requires
            self.wf(),
        ensures
            forall|name: Seq<char>, id: u128|
                self@.contains_key(name) && #[trigger] self@[name].contains_key(id)
                    ==> self@[name][id].finite(),
    {
        assert forall|name: Seq<char>, id: u128|
            self@.contains_key(name) && #[trigger] self@[name].contains_key(
                id,
            ) implies self@[name][id].finite() by {
            let index = choose|i: int| is_at(self.entries@, name, i);
            self.lemma_at(name, index);
            self.entries@[index].1.lemma_wf();
        }
    }

    /// No results.
    pub fn new() -> (results: IntermediateAggregationResults)
        ensures
            results.wf(),
            results@ == ValuesByName::empty(),
    {
        let results = IntermediateAggregationResults { entries: Vec::new() };
        assert(results@ =~= ValuesByName::empty());
        results
    }

    fn position(&self, name: &str) -> (position: Option<usize>)
        requires
            self.wf(),
        ensures
            match position {
                Some(index) => is_at(self.entries@, name@, index as int),
                None => !self@.contains_key(name@),
            },
    {
        let key: String = name.to_owned();
        let mut next: usize = 0;
        while next < self.entries.len()
            invariant
                key@ == name@,
                next <= self.entries@.len(),
                forall|i: int| 0 <= i < next ==> (#[trigger] self.entries@[i]).0@ != name@,
            decreases self.entries@.len() - next,
        {
            if self.entries[next].0.eq(&key) {
                return Some(next);
            }
            next = next + 1;
        }
        None
    }

    /// Hands out what is held under `name`, and forgets the name.
    pub fn remove(&mut self, name: &str) -> (removed: Option<IntermediateSegmentDistinct>)
        requires
            old(self).wf(),
        ensures
            final(self).wf(),
            final(self)@ == old(self)@.remove(name@),
            match removed {
                Some(values) => {
                    &&& values.wf()
                    &&& held_under(old(self)@, name@) == Some(values@)
                    &&& values.entries() == old(self).entries_under(name@)
                },
                None => !old(self)@.contains_key(name@),
            },
            forall|other: Seq<char>| #[trigger]
                final(self)@.contains_key(other) ==> final(self).entries_under(other)
                    == old(self).entries_under(other),
    {
        let index: usize = match self.position(name) {
            Some(index) => index,
            None => {
                assert(self@ =~= self@.remove(name@));
                return None;
            },
        };
        let ghost before = *self;
        let (_, values): (String, IntermediateSegmentDistinct) = self.entries.remove(index);
        proof {
            before.lemma_at(name@, index as int);
            assert forall|other: Seq<char>| #[trigger] self@.contains_key(other) <==> before@.remove(
                name@,
            ).contains_key(other) by {
                lemma_without(before, *self, index as int, other);
            }
            assert forall|other: Seq<char>| #[trigger] self@.contains_key(other) implies self@[other]
                == before@[other] && self.entries_under(other) == before.entries_under(other) by {
                lemma_without(before, *self, index as int, other);
            }
            assert(self@ =~= before@.remove(name@));
        }
        Some(values)
    }

    /// Adds the values of `fruit` to what is held under `name`. After an error, some segments have
    /// been merged and the others are as they were.
    pub fn push(&mut self, name: String, fruit: IntermediateSegmentDistinct) -> (result: Result<
        (),
        CapacityMismatch,
    >)
        requires
            old(self).wf(),
            fruit.wf(),
        ensures
            final(self).wf(),
            result is Ok <==> (held_under(old(self)@, name@) matches Some(values)
                ==> crate::aggregation::segment_distinct::all_mergeable(values, fruit@)),
            match result {
                Ok(_) => {
                    &&& final(self)@ == old(self)@.insert(
                        name@,
                        pushed(held_under(old(self)@, name@), fruit@),
                    )
                    &&& entries_pushed(
                        if old(self)@.contains_key(name@) {
                            old(self).entries_under(name@)
                        } else {
                            Map::empty()
                        },
                        fruit.entries(),
                        final(self).entries_under(name@),
                    )
                },
                Err(error) => crate::aggregation::segment_distinct::merge_stopped(
                    old(self)@[name@],
                    fruit@,
                    error,
                    final(self)@[name@],
                ) && final(self)@ == old(self)@.insert(name@, final(self)@[name@]),
            },
            forall|other: Seq<char>|
                other != name@ && #[trigger] final(self)@.contains_key(other)
                    ==> final(self).entries_under(other) == old(self).entries_under(other),
    {
        let ghost before = *self;
        let ghost key = name@;
        match self.remove(name.as_str()) {
            None => {
                let ghost middle = *self;
                self.entries.push((name, fruit));
                proof {
                    assert(self.entries@.drop_last() =~= middle.entries@);
                    lemma_pushed(middle, *self);
                    assert(self@ =~= before@.insert(key, fruit@));
                }
                Ok(())
            },
            Some(mut values) => {
                let result: Result<(), CapacityMismatch> = values.merge_fruits(fruit);
                let ghost middle = *self;
                let ghost merged = values@;
                self.entries.push((name, values));
                proof {
                    assert(self.entries@.drop_last() =~= middle.entries@);
                    lemma_pushed(middle, *self);
                    assert(self@ =~= before@.insert(key, merged));
                }
                result
            },
        }
    }
}

/// The other names keep their values when an entry is taken out.
proof fn lemma_without(
    before: IntermediateAggregationResults,
    after: IntermediateAggregationResults,
    index: int,
    name: Seq<char>,
)
    requires
        before.wf(),
        0 <= index < before.entries@.len(),
        after.entries@ == before.entries@.remove(index),
    ensures
        after.wf(),
        after@.contains_key(name) <==> before@.contains_key(name) && name
            != before.entries@[index].0@,
        after@.contains_key(name) ==> after@[name] == before@[name] && after.entries_under(name)
            == before.entries_under(name),
{
    let removed = before.entries@[index];
    assert forall|i: int| 0 <= i < after.entries@.len() implies (#[trigger] after.entries@[i])
        == before.entries@[if i < index { i } else { i + 1 }] by {}
    if before@.contains_key(name) && name != removed.0@ {
        let i = choose|i: int| is_at(before.entries@, name, i);
        assert(is_at(after.entries@, name, if i < index { i } else { i - 1 }));
    }
    if after@.contains_key(name) {
        let i = choose|i: int| is_at(after.entries@, name, i);
        after.lemma_at(name, i);
        before.lemma_at(name, if i < index { i } else { i + 1 });
    }
}

/// An entry under a new name adds that name.
proof fn lemma_pushed(before: IntermediateAggregationResults, after: IntermediateAggregationResults)
    requires
        before.wf(),
        after.entries@.len() == before.entries@.len() + 1,
        after.entries@.drop_last() == before.entries@,
        !before@.contains_key(after.entries@.last().0@),
        after.entries@.last().1.wf(),
    ensures
        after.wf(),
        after@ == before@.insert(after.entries@.last().0@, after.entries@.last().1@),
        after.entries_under(after.entries@.last().0@) == after.entries@.last().1.entries(),
        forall|other: Seq<char>| #[trigger]
            before@.contains_key(other) ==> after.entries_under(other) == before.entries_under(
                other,
            ),
{
    let last = before.entries@.len() as int;
    let name = after.entries@[last].0@;
    assert forall|i: int| 0 <= i < last implies (#[trigger] after.entries@[i])
        == before.entries@[i] && after.entries@[i].0@ != name by {
        assert(after.entries@.drop_last()[i] == before.entries@[i]);
        if before.entries@[i].0@ == name {
            assert(is_at(before.entries@, name, i));
        }
    }
    assert forall|other: Seq<char>| #[trigger] after@.contains_key(other) <==> before@.insert(
        name,
        after.entries@[last].1@,
    ).contains_key(other) by {
        if after@.contains_key(other) && other != name {
            let i = choose|i: int| is_at(after.entries@, other, i);
            assert(is_at(before.entries@, other, i));
        }
        if before@.contains_key(other) {
            let i = choose|i: int| is_at(before.entries@, other, i);
            assert(is_at(after.entries@, other, i));
        }
        assert(is_at(after.entries@, name, last));
    }
    assert forall|other: Seq<char>| #[trigger] after@.contains_key(other) implies after@[other]
        == before@.insert(name, after.entries@[last].1@)[other] by {
        let i = choose|i: int| is_at(after.entries@, other, i);
        after.lemma_at(other, i);
        if i < last {
            before.lemma_at(other, i);
        }
    }
    assert(is_at(after.entries@, name, last));
    after.lemma_at(name, last);
    assert forall|other: Seq<char>| #[trigger] before@.contains_key(other) implies after.entries_under(
        other,
    ) == before.entries_under(other) by {
        let i = choose|i: int| is_at(before.entries@, other, i);
        assert(is_at(after.entries@, other, i));
        before.lemma_at(other, i);
        after.lemma_at(other, i);
    }
    assert(after@ =~= before@.insert(name, after.entries@[last].1@));
}

} // verus!
