//! Parts of a segment, by ranges of documents.

use vstd::prelude::*;

use crate::aggregation::collector::{
    AggregationError, SegmentDistinctAggReqData, SegmentDistinctCollector,
};
use crate::aggregation::limits::AggregationLimits;
use crate::aggregation::results::IntermediateAggregationResults;
use crate::store::alive::AliveBitSet;

verus! {

/// The number of documents that are handed to a collector at once.
pub const COLLECT_BLOCK_BUFFER_LEN: usize = 64;

/// Why a part of a segment was not collected.
#[derive(Clone, Copy, Debug, PartialEq, Eq, Structural)]
pub enum PartitionError {
    /// Scores are not computed for parts of a segment.
    ScoringNotSupported,
    /// The caller gave up.
    Cancelled,
    /// The collector failed.
    Aggregation(AggregationError),
}

impl PartitionError {
    /// What went wrong, in words.
    pub open spec fn spec_message(self) -> Seq<char> {
        match self {
            PartitionError::ScoringNotSupported => {
                "collect_segment_partition does not support scoring collectors"@
            },
            PartitionError::Cancelled => "collection cancelled"@,
            PartitionError::Aggregation(error) => error.spec_message(),
        }
    }

    /// What went wrong, in words.
    pub fn message(&self) -> (message: &'static str)
        ensures
            message@ == self.spec_message(),
    {
        match self {
            PartitionError::ScoringNotSupported => {
                "collect_segment_partition does not support scoring collectors"
            },
            PartitionError::Cancelled => "collection cancelled",
            PartitionError::Aggregation(error) => error.message(),
        }
    }
}

/// `doc` is in the range and alive.
pub open spec fn is_selected(doc: u32, alive: Option<Seq<bool>>, start: u32, end: u32) -> bool {
    start <= doc < end && (alive matches Some(bits) ==> bits[doc as int])
}

/// The documents of `matching` that are in the range and alive.
pub open spec fn selected(
    matching: Seq<u32>,
    alive: Option<Seq<bool>>,
    start: u32,
    end: u32,
) -> Seq<u32>
    decreases matching.len(),
{
    if matching.len() == 0 {
        Seq::empty()
    } else {
        let rest = selected(matching.drop_last(), alive, start, end);
        if is_selected(matching.last(), alive, start, end) {
            rest.push(matching.last())
        } else {
            rest
        }
    }
}

/// The documents of two ranges that follow each other are those of the whole range, in the same
/// order.
pub proof fn lemma_ranges_join(
    matching: Seq<u32>,
    alive: Option<Seq<bool>>,
    start: u32,
    middle: u32,
    end: u32,
)
    requires
        start <= middle <= end,
        forall|i: int, j: int|
            0 <= i < j < matching.len() ==> #[trigger] matching[i] <= #[trigger] matching[j],
    ensures
        selected(matching, alive, start, middle) + selected(matching, alive, middle, end)
            == selected(matching, alive, start, end),
    decreases matching.len(),
{
    if matching.len() > 0 {
        let rest = matching.drop_last();
        lemma_ranges_join(rest, alive, start, middle, end);
        let last = matching.last();
        if last < middle {
            lemma_none_from(rest, alive, middle, end);
        }
        assert(selected(matching, alive, start, middle) + selected(matching, alive, middle, end)
            =~= selected(matching, alive, start, end));
    } else {
        assert(selected(matching, alive, start, middle) + selected(matching, alive, middle, end)
            =~= selected(matching, alive, start, end));
    }
}

/// Nothing is selected from a range behind all documents.
proof fn lemma_none_from(matching: Seq<u32>, alive: Option<Seq<bool>>, start: u32, end: u32)
    requires
        forall|i: int| 0 <= i < matching.len() ==> #[trigger] matching[i] < start,
    ensures
        selected(matching, alive, start, end) == Seq::<u32>::empty(),
    decreases matching.len(),
{
    if matching.len() > 0 {
        assert(matching[matching.len() - 1] < start);
        lemma_none_from(matching.drop_last(), alive, start, end);
    }
}

/// The documents of a part are exactly those that match, lie in the range and are alive, in their
/// order and each as often as it matches. Without a bit set all documents are alive.
pub proof fn lemma_part_takes_its_documents(
    matching: Seq<u32>,
    alive_bitset: Option<&AliveBitSet>,
    start: u32,
    end: u32,
)
    ensures
        selected(matching, crate::store::reader::alive_view(alive_bitset), start, end)
            == matching.filter(
            |doc: u32|
                start <= doc && doc < end && (alive_bitset matches Some(bits)
                    ==> bits@[doc as int]),
        ),
    decreases matching.len(),
{
    reveal(Seq::filter);
    if matching.len() > 0 {
        lemma_part_takes_its_documents(matching.drop_last(), alive_bitset, start, end);
    }
}

/// A document is among those of a part exactly if it matches, lies in the range and is alive.
proof fn lemma_selected_contains(
    matching: Seq<u32>,
    alive_bitset: Option<&AliveBitSet>,
    start: u32,
    end: u32,
    doc: u32,
)
    ensures
        selected(matching, crate::store::reader::alive_view(alive_bitset), start, end).contains(doc)
            <==> matching.contains(doc) && start <= doc < end && (alive_bitset matches Some(bits)
            ==> bits@[doc as int]),
    decreases matching.len(),
{
    if matching.len() > 0 {
        let alive = crate::store::reader::alive_view(alive_bitset);
        let rest = matching.drop_last();
        let last = matching.last();
        let fewer = selected(rest, alive, start, end);
        let all = selected(matching, alive, start, end);
        lemma_selected_contains(rest, alive_bitset, start, end, doc);
        if rest.contains(doc) {
            let i = choose|i: int| 0 <= i < rest.len() && rest[i] == doc;
            assert(matching[i] == doc);
        }
        assert(matching[matching.len() - 1] == last);
        if matching.contains(doc) && doc != last {
            let i = choose|i: int| 0 <= i < matching.len() && matching[i] == doc;
            assert(rest[i] == doc);
        }
        if fewer.contains(doc) {
            let i = choose|i: int| 0 <= i < fewer.len() && fewer[i] == doc;
            assert(all[i] == doc);
        }
        if is_selected(last, alive, start, end) {
            assert(all[fewer.len() as int] == last);
            if all.contains(doc) && doc != last {
                let i = choose|i: int| 0 <= i < all.len() && all[i] == doc;
                assert(fewer[i] == doc);
            }
        }
    }
}

/// The count of a segment is the number of different values in the rows of the documents that
/// match, are below `max_doc` and are alive.
pub proof fn lemma_segment_counts_its_values(
    data: SegmentDistinctAggReqData,
    matching: Seq<u32>,
    alive_bitset: Option<&AliveBitSet>,
    max_doc: u32,
)
    requires
        data.column_type != crate::aggregation::column::ColumnType::IpAddr,
        data.accessor.max_value < u64::MAX,
    ensures
        segment_values(
            data,
            matching,
            crate::store::reader::alive_view(alive_bitset),
            0,
            max_doc,
        ).count() == Set::new(
            |value: u64|
                exists|i: int, j: int|
                    0 <= i < matching.len() && matching[i] < max_doc && (
                    alive_bitset matches Some(bits) ==> bits@[matching[i] as int]) && 0 <= j
                        < data.accessor.rows@[matching[i] as int]@.len()
                        && #[trigger] data.accessor.rows@[matching[i] as int]@[j] == value,
        ).len(),
{
    let docs = selected(matching, crate::store::reader::alive_view(alive_bitset), 0, max_doc);
    let column = data.accessor;
    let from_docs = Set::new(
        |value: u64|
            exists|i: int, j: int|
                0 <= i < docs.len() && 0 <= j < column.rows@[docs[i] as int]@.len()
                    && #[trigger] column.rows@[docs[i] as int]@[j] == value,
    );
    let expected = Set::new(
        |value: u64|
            exists|i: int, j: int|
                0 <= i < matching.len() && matching[i] < max_doc && (
                alive_bitset matches Some(bits) ==> bits@[matching[i] as int]) && 0 <= j
                    < data.accessor.rows@[matching[i] as int]@.len()
                    && #[trigger] data.accessor.rows@[matching[i] as int]@[j] == value,
    );
    assert forall|value: u64| from_docs.contains(value) <==> expected.contains(value) by {
        if from_docs.contains(value) {
            let (i, j) = choose|i: int, j: int|
                0 <= i < docs.len() && 0 <= j < column.rows@[docs[i] as int]@.len()
                    && #[trigger] column.rows@[docs[i] as int]@[j] == value;
            lemma_selected_contains(matching, alive_bitset, 0, max_doc, docs[i]);
            assert(docs.contains(docs[i]));
            let k = choose|k: int| 0 <= k < matching.len() && matching[k] == docs[i];
            assert(data.accessor.rows@[matching[k] as int]@[j] == value);
        }
        if expected.contains(value) {
            let (i, j) = choose|i: int, j: int|
                0 <= i < matching.len() && matching[i] < max_doc && (
                alive_bitset matches Some(bits) ==> bits@[matching[i] as int]) && 0 <= j
                    < data.accessor.rows@[matching[i] as int]@.len()
                    && #[trigger] data.accessor.rows@[matching[i] as int]@[j] == value;
            lemma_selected_contains(matching, alive_bitset, 0, max_doc, matching[i]);
            assert(matching.contains(matching[i]));
            let k = choose|k: int| 0 <= k < docs.len() && docs[k] == matching[i];
            assert(column.rows@[docs[k] as int]@[j] == value);
        }
    }
    assert(from_docs =~= expected);
    if data.column_type == crate::aggregation::column::ColumnType::Str {
        crate::aggregation::laws::lemma_every_term_is_counted_once(column, docs);
    } else {
        crate::aggregation::laws::lemma_every_number_is_counted_once(
            column,
            data.column_type,
            docs,
        );
    }
}

/// The count of a column of addresses is the number of different addresses of the documents that
/// match, are below `max_doc` and are alive.
pub proof fn lemma_segment_counts_its_addresses(
    data: SegmentDistinctAggReqData,
    addresses: Vec<u128>,
    matching: Seq<u32>,
    alive_bitset: Option<&AliveBitSet>,
    max_doc: u32,
)
    requires
        data.column_type == crate::aggregation::column::ColumnType::IpAddr,
        data.accessor.addresses == Some(addresses),
    ensures
        segment_values(
            data,
            matching,
            crate::store::reader::alive_view(alive_bitset),
            0,
            max_doc,
        ).count() == Set::new(
            |address: u128|
                exists|i: int, j: int|
                    0 <= i < matching.len() && matching[i] < max_doc && (
                    alive_bitset matches Some(bits) ==> bits@[matching[i] as int]) && 0 <= j
                        < data.accessor.rows@[matching[i] as int]@.len() && addresses@[(
                    #[trigger] data.accessor.rows@[matching[i] as int]@[j]) as int] == address,
        ).len(),
{
    let docs = selected(matching, crate::store::reader::alive_view(alive_bitset), 0, max_doc);
    let column = data.accessor;
    crate::aggregation::laws::lemma_every_address_is_counted_once(column, addresses, docs);
    let found = segment_values(
        data,
        matching,
        crate::store::reader::alive_view(alive_bitset),
        0,
        max_doc,
    );
    let expected = Set::new(
        |address: u128|
            exists|i: int, j: int|
                0 <= i < matching.len() && matching[i] < max_doc && (
                alive_bitset matches Some(bits) ==> bits@[matching[i] as int]) && 0 <= j
                    < data.accessor.rows@[matching[i] as int]@.len() && addresses@[(
                #[trigger] data.accessor.rows@[matching[i] as int]@[j]) as int] == address,
    );
    assert forall|address: u128| found.ip.contains(address) <==> expected.contains(address) by {
        if found.ip.contains(address) {
            let (i, j) = choose|i: int, j: int|
                0 <= i < docs.len() && 0 <= j < column.rows@[docs[i] as int]@.len() && addresses@[(
                #[trigger] column.rows@[docs[i] as int]@[j]) as int] == address;
            lemma_selected_contains(matching, alive_bitset, 0, max_doc, docs[i]);
            assert(docs.contains(docs[i]));
            let k = choose|k: int| 0 <= k < matching.len() && matching[k] == docs[i];
            assert(addresses@[data.accessor.rows@[matching[k] as int]@[j] as int] == address);
        }
        if expected.contains(address) {
            let (i, j) = choose|i: int, j: int|
                0 <= i < matching.len() && matching[i] < max_doc && (
                alive_bitset matches Some(bits) ==> bits@[matching[i] as int]) && 0 <= j
                    < data.accessor.rows@[matching[i] as int]@.len() && addresses@[(
                #[trigger] data.accessor.rows@[matching[i] as int]@[j]) as int] == address;
            lemma_selected_contains(matching, alive_bitset, 0, max_doc, matching[i]);
            assert(matching.contains(matching[i]));
            let k = choose|k: int| 0 <= k < docs.len() && docs[k] == matching[i];
            assert(addresses@[column.rows@[docs[k] as int]@[j] as int] == address);
        }
    }
    assert(found.ip =~= expected);
}

/// The size of the parts when `max_doc` documents are cut into `partitions`.
pub open spec fn chunk_len(max_doc: u32, partitions: u32) -> nat {
    let rounded_up = (max_doc as nat + partitions as nat - 1) as nat / partitions as nat;
    if rounded_up == 0 {
        1
    } else {
        rounded_up
    }
}

/// Cuts the documents below `max_doc` into at most `partitions` ranges that follow each other.
pub fn partition_ranges(max_doc: u32, partitions: u32) -> (ranges: Vec<(u32, u32)>)
    requires
        partitions > 0,
    ensures
        ranges@.len() <= partitions,
        are_adjacent(ranges@),
        forall|i: int|
            0 <= i < ranges@.len() ==> ((#[trigger] ranges@[i]).1 - ranges@[i].0 - 1) * partitions
                < max_doc,
        max_doc == 0 ==> ranges@.len() == 0,
        max_doc > 0 ==> ranges@.len() > 0 && ranges@[0].0 == 0 && ranges@.last().1 == max_doc,
        forall|i: int| 0 <= i < ranges@.len() ==> (#[trigger] ranges@[i]).0 < ranges@[i].1,
        forall|i: int|
            0 <= i < ranges@.len() ==> (#[trigger] ranges@[i]).1 - ranges@[i].0 <= chunk_len(
                max_doc,
                partitions,
            ) && ranges@[i].0 == i * chunk_len(max_doc, partitions),
{
    let rounded_up: u64 = (max_doc as u64 + partitions as u64 - 1) / partitions as u64;
    let chunk: u64 = if rounded_up == 0 {
        1
    } else {
        rounded_up
    };
    let ghost expected = chunk_len(max_doc, partitions);
    let mut ranges: Vec<(u32, u32)> = Vec::new();
    let mut start: u64 = 0;
    let mut index: u32 = 0;
    proof {
        assert(chunk as int * partitions as int >= max_doc as int) by (nonlinear_arith)
            requires
                partitions > 0,
                rounded_up as int == (max_doc as int + partitions as int - 1) / (
                partitions as int),
                chunk >= rounded_up,
        ;
        assert(chunk <= u32::MAX + 1) by (nonlinear_arith)
            requires
                partitions > 0,
                max_doc <= u32::MAX,
                rounded_up as int == (max_doc as int + partitions as int - 1) / (
                partitions as int),
                chunk == (if rounded_up == 0 {
                    1
                } else {
                    rounded_up
                }),
        ;
    }
    while index < partitions && start < max_doc as u64
        invariant
            index <= partitions,
            chunk == expected,
            expected == chunk_len(max_doc, partitions),
            1 <= chunk <= u32::MAX + 1,
            chunk * partitions >= max_doc,
            ranges@.len() == index,
            index == 0 ==> start == 0,
            index > 0 ==> ranges@[0].0 == 0,
            start == index * chunk || start == max_doc,
            start <= max_doc,
            index > 0 ==> ranges@.last().1 == start,
            forall|i: int| 0 <= i < ranges@.len() ==> (#[trigger] ranges@[i]).0 < ranges@[i].1,
            forall|i: int, j: int|
                0 <= i < ranges@.len() && j == i + 1 && j < ranges@.len() ==> (
                #[trigger] ranges@[i]).1 == (#[trigger] ranges@[j]).0,
            forall|i: int|
                0 <= i < ranges@.len() ==> (#[trigger] ranges@[i]).1 - ranges@[i].0 <= chunk
                    && ranges@[i].0 == i * chunk,
        decreases partitions - index,
    {
        let next: u64 = start + chunk;
        let end: u64 = if next < max_doc as u64 {
            next
        } else {
            max_doc as u64
        };
        proof {
            assert((index + 1) * chunk == index * chunk + chunk) by (nonlinear_arith);
        }
        ranges.push((start as u32, end as u32));
        start = end;
        index = index + 1;
    }
    proof {
        if start < max_doc {
            assert(index == partitions);
            assert(index * chunk == chunk * partitions) by (nonlinear_arith)
                requires
                    index == partitions,
            ;
        }
        assert forall|i: int| 0 <= i < ranges@.len() implies ((#[trigger] ranges@[i]).1
            - ranges@[i].0 - 1) * partitions < max_doc by {
            let size = ranges@[i].1 - ranges@[i].0;
            assert((size - 1) * partitions < max_doc) by (nonlinear_arith)
                requires
                    size <= chunk,
                    max_doc > 0,
                    partitions > 0,
                    rounded_up as int == (max_doc as int + partitions as int - 1) / (
                    partitions as int),
                    chunk == (if rounded_up == 0 {
                        1
                    } else {
                        rounded_up
                    }),
            ;
        }
    }
    ranges
}

/// The documents of one part of a segment, handed out block by block.
pub struct PartitionDrive {
    docs: Vec<u32>,
    position: usize,
}

impl PartitionDrive {
    /// The documents that have not been handed out yet.
    pub closed spec fn rest(self) -> Seq<u32> {
        self.docs@.skip(self.position as int)
    }

    /// The position is one of the documents or behind them.
    pub closed spec fn wf(self) -> bool {
        self.position <= self.docs@.len()
    }

    /// The documents of `matching` that are alive and not below `start` nor from `end` on. A
    /// collector that needs scores is turned away.
    pub fn new(
        matching: &[u32],
        alive_bitset: Option<&AliveBitSet>,
        start: u32,
        end: u32,
        requires_scoring: bool,
    ) -> (result: Result<PartitionDrive, PartitionError>)
        requires
            alive_bitset matches Some(alive) ==> forall|i: int|
                0 <= i < matching@.len() ==> #[trigger] matching@[i] < alive@.len(),
        ensures
            match result {
                Ok(drive) => {
                    &&& !requires_scoring
                    &&& drive.wf()
                    &&& drive.rest() == selected(
                        matching@,
                        crate::store::reader::alive_view(alive_bitset),
                        start,
                        end,
                    )
                },
                Err(error) => requires_scoring && error == PartitionError::ScoringNotSupported,
            },
    {
        if requires_scoring {
            return Err(PartitionError::ScoringNotSupported);
        }
        let ghost alive = crate::store::reader::alive_view(alive_bitset);
        let mut docs: Vec<u32> = Vec::new();
        let mut next: usize = 0;
        while next < matching.len()
            invariant
                next <= matching@.len(),
                alive == crate::store::reader::alive_view(alive_bitset),
                alive_bitset matches Some(bits) ==> forall|i: int|
                    0 <= i < matching@.len() ==> #[trigger] matching@[i] < bits@.len(),
                docs@ == selected(matching@.take(next as int), alive, start, end),
            decreases matching@.len() - next,
        {
            let doc: u32 = matching[next];
            assert(matching@.take(next + 1).drop_last() =~= matching@.take(next as int));
            assert(matching@[next as int] == doc);
            let is_alive: bool = match alive_bitset {
                Some(bits) => bits.is_alive(doc),
                None => true,
            };
            if start <= doc && doc < end && is_alive {
                docs.push(doc);
            }
            next = next + 1;
        }
        assert(matching@.take(matching@.len() as int) =~= matching@);
        let drive = PartitionDrive { docs, position: 0 };
        assert(drive.rest() =~= drive.docs@);
        Ok(drive)
    }

    /// The next block of documents, `None` after the last one. With `cancelled`, nothing more is
    /// handed out.
    pub fn next_block(&mut self, cancelled: bool) -> (result: Result<
        Option<Vec<u32>>,
        PartitionError,
    >)
        requires
            old(self).wf(),
        ensures
            final(self).wf(),
            match result {
                Err(error) => {
                    &&& cancelled
                    &&& error == PartitionError::Cancelled
                    &&& final(self).rest() == old(self).rest()
                },
                Ok(None) => {
                    &&& !cancelled
                    &&& old(self).rest().len() == 0
                    &&& final(self).rest() == old(self).rest()
                },
                Ok(Some(block)) => {
                    &&& !cancelled
                    &&& 0 < block@.len() <= COLLECT_BLOCK_BUFFER_LEN
                    &&& block@.len() < COLLECT_BLOCK_BUFFER_LEN ==> final(self).rest().len() == 0
                    &&& block@ + final(self).rest() == old(self).rest()
                },
            },
    {
        if cancelled {
            return Err(PartitionError::Cancelled);
        }
        if self.position == self.docs.len() {
            return Ok(None);
        }
        let left: usize = self.docs.len() - self.position;
        let len: usize = if left < COLLECT_BLOCK_BUFFER_LEN {
            left
        } else {
            COLLECT_BLOCK_BUFFER_LEN
        };
        let end: usize = self.position + len;
        let block: Vec<u32> = vstd::slice::slice_to_vec(
            vstd::slice::slice_subrange(self.docs.as_slice(), self.position, end),
        );
        self.position = end;
        assert(block@ + self.rest() =~= old(self).rest());
        Ok(Some(block))
    }
}

/// The documents from `done` to `more` are handed to a collector at once.
pub open spec fn is_block(docs: Seq<u32>, done: nat, more: nat) -> bool {
    &&& done < docs.len()
    &&& done % COLLECT_BLOCK_BUFFER_LEN as nat == 0
    &&& more == if done + COLLECT_BLOCK_BUFFER_LEN <= docs.len() {
        done + COLLECT_BLOCK_BUFFER_LEN as nat
    } else {
        docs.len()
    }
}

/// The values of a collector after the first `count` of `docs` were collected.
pub open spec fn collected_values(
    collector: SegmentDistinctCollector,
    docs: Seq<u32>,
    count: nat,
) -> crate::aggregation::segment_distinct::DistinctValues {
    collector.values()->0.union(
        crate::aggregation::collector::distinct(
            collector.column(),
            collector.spec_column_type(),
            crate::aggregation::column::values_of(collector.column(), docs.take(count as int)),
        ),
    )
}

/// The documents before `done` were within the budget and those before `more` are not. The latter
/// are collected and counted, but only the former are reported.
pub open spec fn stopped_in_block(
    before: SegmentDistinctCollector,
    docs: Seq<u32>,
    done: nat,
    more: nat,
    limits: AggregationLimits,
    after: SegmentDistinctCollector,
    new_limits: AggregationLimits,
) -> bool {
    let reported = before.spec_reported_bytes();
    let fitted = crate::aggregation::collector::memory_estimate(
        collected_values(before, docs, done),
        before.spec_column_type(),
    );
    let estimate = crate::aggregation::collector::memory_estimate(
        collected_values(before, docs, more),
        before.spec_column_type(),
    );
    &&& done == 0 || growth_fits(fitted, reported, limits)
    &&& !growth_fits(estimate, reported, limits)
    &&& after.values() == Some(collected_values(before, docs, more))
    &&& after.spec_reported_bytes() == (if done > 0 && fitted > reported {
        fitted
    } else {
        reported as nat
    })
    &&& new_limits == limits.after_adding((estimate - reported) as u64)
}

/// Collects the distinct values of one part of a segment. With `cancelled`, nothing is collected.
pub fn collect_segment_partition(
    collector: &mut SegmentDistinctCollector,
    matching: &[u32],
    alive_bitset: Option<&AliveBitSet>,
    start: u32,
    end: u32,
    limits: &mut AggregationLimits,
    cancelled: bool,
) -> (result: Result<(), PartitionError>)
    requires
        old(collector).wf(),
        old(collector).values() is Some,
        old(collector).column().has_docs(matching@),
        alive_bitset matches Some(alive) ==> forall|i: int|
            0 <= i < matching@.len() ==> #[trigger] matching@[i] < alive@.len(),
        old(collector).values()->0.count() + crate::aggregation::column::values_of(
            old(collector).column(),
            selected(matching@, crate::store::reader::alive_view(alive_bitset), start, end),
        ).len() <= crate::aggregation::collector::MAX_DISTINCT_VALUES,
    ensures
        final(collector).wf(),
        final(collector).spec_req_data() == old(collector).spec_req_data(),
        ({
            let docs = selected(
                matching@,
                crate::store::reader::alive_view(alive_bitset),
                start,
                end,
            );
            let values = old(collector).values()->0.union(
                crate::aggregation::collector::distinct(
                    old(collector).column(),
                    old(collector).spec_column_type(),
                    crate::aggregation::column::values_of(old(collector).column(), docs),
                ),
            );
            let estimate = crate::aggregation::collector::memory_estimate(
                values,
                old(collector).spec_column_type(),
            );
            let reported = old(collector).spec_reported_bytes();
            if cancelled {
                &&& result == Err::<(), PartitionError>(PartitionError::Cancelled)
                &&& final(collector).values() == old(collector).values()
                &&& final(collector).spec_reported_bytes() == reported
                &&& *final(limits) == *old(limits)
            } else if docs.len() == 0 {
                &&& result is Ok
                &&& final(collector).values() == old(collector).values()
                &&& final(collector).spec_reported_bytes() == reported
                &&& *final(limits) == *old(limits)
            } else if old(collector).collect_error(0) is Some {
                &&& result == Err::<(), PartitionError>(
                    PartitionError::Aggregation(old(collector).collect_error(0)->0),
                )
                &&& final(collector).values() == old(collector).values()
                &&& final(collector).spec_reported_bytes() == reported
                &&& *final(limits) == *old(limits)
            } else if growth_fits(estimate, reported, *old(limits)) {
                &&& result is Ok
                &&& final(collector).values() == Some(values)
                &&& crate::aggregation::collector::growth_registered(
                    estimate,
                    reported,
                    *old(limits),
                    Ok(()),
                    final(collector).spec_reported_bytes(),
                    *final(limits),
                )
            } else {
                &&& final(limits).excess() is Some
                &&& result == Err::<(), PartitionError>(
                    PartitionError::Aggregation(
                        AggregationError::MemoryExceeded(final(limits).excess()->0),
                    ),
                )
                &&& exists|done: nat, more: nat| #[trigger]
                    is_block(docs, done, more) && stopped_in_block(
                        *old(collector),
                        docs,
                        done,
                        more,
                        *old(limits),
                        *final(collector),
                        *final(limits),
                    )
            }
        }),
{
    let mut drive: PartitionDrive = match PartitionDrive::new(
        matching,
        alive_bitset,
        start,
        end,
        false,
    ) {
        Ok(drive) => drive,
        Err(error) => {
            return Err(error);
        },
    };
    let ghost column = collector.column();
    let ghost column_type = collector.spec_column_type();
    let ghost start_values = collector.values()->0;
    let ghost all = drive.rest();
    let ghost mut done = Seq::<u32>::empty();
    proof {
        lemma_selected_docs(
            column,
            matching@,
            crate::store::reader::alive_view(alive_bitset),
            start,
            end,
        );
        assert(done + drive.rest() =~= all);
        collector.lemma_nothing_to_add();
        collector.lemma_finite();
    }
    let ghost reported = collector.spec_reported_bytes();
    let ghost start_limits = *limits;
    loop
        invariant
            drive.wf(),
            collector.wf(),
            collector.spec_req_data() == old(collector).spec_req_data(),
            column == old(collector).column(),
            column_type == old(collector).spec_column_type(),
            start_values == old(collector).values()->0,
            start_values.finite(),
            start_values.terms is Some ==> column_type is Str,
            old(collector).values() is Some,
            all == selected(
                matching@,
                crate::store::reader::alive_view(alive_bitset),
                start,
                end,
            ),
            done + drive.rest() == all,
            done.len() % COLLECT_BLOCK_BUFFER_LEN as nat == 0 || drive.rest().len() == 0,
            column.has_docs(all),
            collector.values() == Some(
                start_values.union(
                    crate::aggregation::collector::distinct(
                        column,
                        column_type,
                        crate::aggregation::column::values_of(column, done),
                    ),
                ),
            ),
            collector.values()->0.count() <= start_values.count()
                + crate::aggregation::column::values_of(column, done).len(),
            start_values.count() + crate::aggregation::column::values_of(column, all).len()
                <= crate::aggregation::collector::MAX_DISTINCT_VALUES,
            reported == old(collector).spec_reported_bytes(),
            start_limits == *old(limits),
            collector.collect_error(0) == old(collector).collect_error(0),
            cancelled ==> done.len() == 0,
            done.len() == 0 ==> {
                &&& collector.values() == old(collector).values()
                &&& collector.spec_reported_bytes() == reported
                &&& *limits == start_limits
            },
            done.len() > 0 ==> {
                &&& collector.collect_error(0) is None
                &&& crate::aggregation::collector::growth_registered(
                    crate::aggregation::collector::memory_estimate(
                        collector.values()->0,
                        column_type,
                    ),
                    reported,
                    start_limits,
                    Ok(()),
                    collector.spec_reported_bytes(),
                    *limits,
                )
            },
        decreases drive.rest().len(),
    {
        let ghost before = drive.rest();
        match drive.next_block(cancelled) {
            Err(error) => {
                return Err(error);
            },
            Ok(None) => {
                assert(done =~= all);
                return Ok(());
            },
            Ok(Some(block)) => {
                proof {
                    let rest = drive.rest();
                    assert(done + before =~= (done + block@) + rest);
                    crate::aggregation::column::lemma_values_of_concat(column, done + block@, rest);
                    crate::aggregation::column::lemma_values_of_concat(column, done, block@);
                    assert forall|i: int| 0 <= i < block@.len() implies #[trigger] block@[i]
                        < column.rows@.len() by {
                        assert(all[done.len() + i] == block@[i]);
                    }
                    crate::aggregation::collector::lemma_distinct_of_concat(
                        column,
                        column_type,
                        crate::aggregation::column::values_of(column, done),
                        crate::aggregation::column::values_of(column, block@),
                    );
                    crate::aggregation::segment_distinct::lemma_union_is_associative(
                        start_values,
                        crate::aggregation::collector::distinct(
                            column,
                            column_type,
                            crate::aggregation::column::values_of(column, done),
                        ),
                        crate::aggregation::collector::distinct(
                            column,
                            column_type,
                            crate::aggregation::column::values_of(column, block@),
                        ),
                    );
                }
                let ghost values_before = collector.values()->0;
                let ghost reported_before = collector.spec_reported_bytes();
                let ghost limits_before = *limits;
                let collected = collector.collect(0, block.as_slice(), limits);
                proof {
                    if collector.collect_error(0) is None {
                        let values_after = collector.values()->0;
                        let final_values = start_values.union(
                            crate::aggregation::collector::distinct(
                                column,
                                column_type,
                                crate::aggregation::column::values_of(column, all),
                            ),
                        );
                        let longer = done + block@;
                        crate::aggregation::column::lemma_values_of_concat(
                            column,
                            longer,
                            drive.rest(),
                        );
                        crate::aggregation::collector::lemma_distinct_of_concat(
                            column,
                            column_type,
                            crate::aggregation::column::values_of(column, longer),
                            crate::aggregation::column::values_of(column, drive.rest()),
                        );
                        crate::aggregation::segment_distinct::lemma_union_is_associative(
                            start_values,
                            crate::aggregation::collector::distinct(
                                column,
                                column_type,
                                crate::aggregation::column::values_of(column, longer),
                            ),
                            crate::aggregation::collector::distinct(
                                column,
                                column_type,
                                crate::aggregation::column::values_of(column, drive.rest()),
                            ),
                        );
                        lemma_estimates(
                            start_values,
                            column,
                            column_type,
                            crate::aggregation::column::values_of(column, done),
                            crate::aggregation::column::values_of(column, block@),
                        );
                        lemma_estimates(
                            start_values,
                            column,
                            column_type,
                            crate::aggregation::column::values_of(column, longer),
                            crate::aggregation::column::values_of(column, drive.rest()),
                        );
                        lemma_estimate_bounded(
                            start_values,
                            column,
                            column_type,
                            crate::aggregation::column::values_of(column, all),
                        );
                        assert(collected is Err ==> !growth_fits(
                            crate::aggregation::collector::memory_estimate(
                                final_values,
                                column_type,
                            ),
                            reported,
                            start_limits,
                        ));
                    }
                }
                match collected {
                    Ok(_) => {},
                    Err(error) => {
                        proof {
                            if collector.collect_error(0) is None {
                                let longer = done + block@;
                                assert(all.take(done.len() as int) =~= done);
                                assert(all.take(longer.len() as int) =~= longer);
                                assert(is_block(all, done.len(), longer.len()));
                                assert(stopped_in_block(
                                    *old(collector),
                                    all,
                                    done.len(),
                                    longer.len(),
                                    start_limits,
                                    *collector,
                                    *limits,
                                ));
                            }
                        }
                        return Err(PartitionError::Aggregation(error));
                    },
                }
                proof {
                    done = done + block@;
                }
            },
        }
    }
}

/// The budget allows for an estimate when `reported` of it has been counted before.
pub open spec fn growth_fits(estimate: nat, reported: u64, limits: AggregationLimits) -> bool {
    estimate <= reported || limits.after_adding((estimate - reported) as u64).excess() is None
}

/// The estimate does not shrink when more values are collected.
proof fn lemma_estimates(
    start: crate::aggregation::segment_distinct::DistinctValues,
    column: crate::aggregation::column::Column,
    column_type: crate::aggregation::column::ColumnType,
    fewer: Seq<u64>,
    rest: Seq<u64>,
)
    requires
        start.finite(),
        start.terms is Some ==> column_type is Str,
    ensures
        crate::aggregation::collector::memory_estimate(
            start.union(crate::aggregation::collector::distinct(column, column_type, fewer)),
            column_type,
        ) <= crate::aggregation::collector::memory_estimate(
            start.union(
                crate::aggregation::collector::distinct(column, column_type, fewer + rest),
            ),
            column_type,
        ),
{
    crate::aggregation::collector::lemma_distinct_of_concat(column, column_type, fewer, rest);
    let from_fewer = crate::aggregation::collector::distinct(column, column_type, fewer);
    let from_rest = crate::aggregation::collector::distinct(column, column_type, rest);
    crate::aggregation::segment_distinct::lemma_union_is_associative(start, from_fewer, from_rest);
    crate::aggregation::collector::lemma_distinct_finite(column, column_type, fewer);
    crate::aggregation::collector::lemma_distinct_finite(column, column_type, rest);
    let small = start.union(from_fewer);
    let large = small.union(from_rest);
    vstd::set_lib::lemma_len_union_ind(small.numeric, from_rest.numeric);
    vstd::set_lib::lemma_len_union_ind(small.ip, from_rest.ip);
    if small.terms is Some && from_rest.terms is Some {
        vstd::set_lib::lemma_len_union_ind((small.terms->0).1, (from_rest.terms->0).1);
    }
}

/// Estimates fit their type.
proof fn lemma_estimate_bounded(
    start: crate::aggregation::segment_distinct::DistinctValues,
    column: crate::aggregation::column::Column,
    column_type: crate::aggregation::column::ColumnType,
    values: Seq<u64>,
)
    requires
        start.finite(),
        start.count() + values.len() <= crate::aggregation::collector::MAX_DISTINCT_VALUES,
    ensures
        crate::aggregation::collector::memory_estimate(
            start.union(crate::aggregation::collector::distinct(column, column_type, values)),
            column_type,
        ) <= u64::MAX,
{
    crate::aggregation::collector::lemma_distinct_finite(column, column_type, values);
    let found = crate::aggregation::collector::distinct(column, column_type, values);
    vstd::set_lib::lemma_len_union(start.numeric, found.numeric);
    vstd::set_lib::lemma_len_union(start.ip, found.ip);
}

/// Selected documents are documents of the segment.
proof fn lemma_selected_docs(
    column: crate::aggregation::column::Column,
    matching: Seq<u32>,
    alive: Option<Seq<bool>>,
    start: u32,
    end: u32,
)
    requires
        column.has_docs(matching),
    ensures
        column.has_docs(selected(matching, alive, start, end)),
    decreases matching.len(),
{
    if matching.len() > 0 {
        let rest = matching.drop_last();
        assert forall|i: int| 0 <= i < rest.len() implies #[trigger] rest[i]
            < column.rows@.len() by {
            assert(matching[i] == rest[i]);
        }
        lemma_selected_docs(column, rest, alive, start, end);
        assert(matching[matching.len() - 1] < column.rows@.len());
    }
}

/// Merging the values of two parts of a segment gives those of both parts at once.
pub proof fn lemma_partitions_merge(
    column: crate::aggregation::column::Column,
    column_type: crate::aggregation::column::ColumnType,
    matching: Seq<u32>,
    alive: Option<Seq<bool>>,
    start: u32,
    middle: u32,
    end: u32,
)
    requires
        start <= middle <= end,
        forall|i: int, j: int|
            0 <= i < j < matching.len() ==> #[trigger] matching[i] <= #[trigger] matching[j],
    ensures
        ({
            let left = crate::aggregation::collector::distinct(
                column,
                column_type,
                crate::aggregation::column::values_of(
                    column,
                    selected(matching, alive, start, middle),
                ),
            );
            let right = crate::aggregation::collector::distinct(
                column,
                column_type,
                crate::aggregation::column::values_of(
                    column,
                    selected(matching, alive, middle, end),
                ),
            );
            &&& left.mergeable(right)
            &&& left.union(right) == crate::aggregation::collector::distinct(
                column,
                column_type,
                crate::aggregation::column::values_of(
                    column,
                    selected(matching, alive, start, end),
                ),
            )
        }),
{
    lemma_ranges_join(matching, alive, start, middle, end);
    crate::aggregation::collector::lemma_partitions_unite(
        column,
        column_type,
        selected(matching, alive, start, middle),
        selected(matching, alive, middle, end),
    );
}

/// What one part of a segment contributes to the result.
pub open spec fn part_of_result(
    column: crate::aggregation::column::Column,
    column_type: crate::aggregation::column::ColumnType,
    matching: Seq<u32>,
    alive: Option<Seq<bool>>,
    segment_id: u128,
    range: (u32, u32),
) -> crate::aggregation::segment_distinct::ValuesBySegment {
    crate::aggregation::segment_distinct::ValuesBySegment::empty().insert(
        segment_id,
        crate::aggregation::collector::distinct(
            column,
            column_type,
            crate::aggregation::column::values_of(
                column,
                selected(matching, alive, range.0, range.1),
            ),
        ),
    )
}

/// What the parts of a segment contribute when they are merged one after the other.
pub open spec fn merged_parts(
    column: crate::aggregation::column::Column,
    column_type: crate::aggregation::column::ColumnType,
    matching: Seq<u32>,
    alive: Option<Seq<bool>>,
    segment_id: u128,
    ranges: Seq<(u32, u32)>,
) -> crate::aggregation::segment_distinct::ValuesBySegment
    decreases ranges.len(),
{
    if ranges.len() == 0 {
        crate::aggregation::segment_distinct::ValuesBySegment::empty()
    } else {
        crate::aggregation::segment_distinct::merged(
            merged_parts(column, column_type, matching, alive, segment_id, ranges.drop_last()),
            part_of_result(column, column_type, matching, alive, segment_id, ranges.last()),
        )
    }
}

/// The ranges follow each other.
pub open spec fn are_adjacent(ranges: Seq<(u32, u32)>) -> bool {
    &&& forall|i: int| 0 <= i < ranges.len() ==> (#[trigger] ranges[i]).0 <= ranges[i].1
    &&& forall|i: int, j: int|
        0 <= i < ranges.len() && j == i + 1 && j < ranges.len() ==> (#[trigger] ranges[i]).1 == (
        #[trigger] ranges[j]).0
}

/// Ranges that follow each other cover every document from the start of the first one to the end
/// of the last one, and no document twice.
pub proof fn lemma_ranges_cover_once(ranges: Seq<(u32, u32)>, doc: u32)
    requires
        ranges.len() > 0,
        are_adjacent(ranges),
    ensures
        ranges[0].0 <= doc < ranges.last().1 <==> exists|i: int|
            0 <= i < ranges.len() && (#[trigger] ranges[i]).0 <= doc < ranges[i].1,
        forall|i: int, j: int|
            0 <= i < j < ranges.len() ==> (#[trigger] ranges[i]).1 <= (#[trigger] ranges[j]).0,
    decreases ranges.len(),
{
    let rest = ranges.drop_last();
    let last = ranges.len() - 1;
    assert forall|i: int, j: int| 0 <= i < j < ranges.len() implies (#[trigger] ranges[i]).1 <= (
    #[trigger] ranges[j]).0 by {
        lemma_adjacent_part(ranges, i + 1, j);
        if i + 1 < j {
            let between = ranges.subrange(i + 1, j);
            lemma_increasing(between);
            assert(ranges[j - 1].1 == ranges[j].0);
        }
        assert(ranges[i].1 == ranges[i + 1].0);
    }
    assert(ranges[last].0 <= ranges[last].1);
    if rest.len() > 0 {
        lemma_adjacent_part(ranges, 0, last);
        assert(ranges.subrange(0, last) =~= rest);
        lemma_ranges_cover_once(rest, doc);
        assert(ranges[last - 1].1 == ranges[last].0);
        lemma_increasing(rest);
        if ranges[0].0 <= doc < ranges[last].1 {
            if doc < ranges[last].0 {
                let i = choose|i: int|
                    0 <= i < rest.len() && (#[trigger] rest[i]).0 <= doc < rest[i].1;
                assert(ranges[i].0 <= doc < ranges[i].1);
            } else {
                assert(ranges[last].0 <= doc < ranges[last].1);
            }
        }
        if exists|i: int| 0 <= i < ranges.len() && (#[trigger] ranges[i]).0 <= doc < ranges[i].1 {
            let i = choose|i: int|
                0 <= i < ranges.len() && (#[trigger] ranges[i]).0 <= doc < ranges[i].1;
            if i < last {
                assert(rest[i].0 <= doc < rest[i].1);
            }
        }
    } else {
        assert(ranges[0].0 <= doc < ranges.last().1 ==> ranges[0].0 <= doc < ranges[0].1);
    }
}

/// Into however many parts a segment is cut, merging what they contribute gives what the whole
/// segment contributes at once, with the same count.
pub proof fn lemma_any_number_of_parts(
    column: crate::aggregation::column::Column,
    column_type: crate::aggregation::column::ColumnType,
    matching: Seq<u32>,
    alive: Option<Seq<bool>>,
    segment_id: u128,
    ranges: Seq<(u32, u32)>,
)
    requires
        ranges.len() > 0,
        are_adjacent(ranges),
        forall|i: int, j: int|
            0 <= i < j < matching.len() ==> #[trigger] matching[i] <= #[trigger] matching[j],
    ensures
        ({
            let whole = part_of_result(
                column,
                column_type,
                matching,
                alive,
                segment_id,
                (ranges[0].0, ranges.last().1),
            );
            &&& crate::aggregation::segment_distinct::all_mergeable(
                merged_parts(column, column_type, matching, alive, segment_id, ranges.drop_last()),
                part_of_result(column, column_type, matching, alive, segment_id, ranges.last()),
            )
            &&& merged_parts(column, column_type, matching, alive, segment_id, ranges) == whole
            &&& crate::aggregation::segment_distinct::total(
                merged_parts(column, column_type, matching, alive, segment_id, ranges),
            ) == whole[segment_id].count()
        }),
    decreases ranges.len(),
{
    let first = ranges[0].0;
    let last = ranges.last();
    let rest = ranges.drop_last();
    let whole = part_of_result(column, column_type, matching, alive, segment_id, (first, last.1));
    let before = merged_parts(column, column_type, matching, alive, segment_id, rest);
    let part = part_of_result(column, column_type, matching, alive, segment_id, last);
    if rest.len() == 0 {
        assert(before =~= crate::aggregation::segment_distinct::ValuesBySegment::empty());
        assert(crate::aggregation::segment_distinct::merged(before, part) =~= whole);
    } else {
        assert forall|i: int| 0 <= i < rest.len() implies (#[trigger] rest[i]).0 <= rest[i].1 by {
            assert(ranges[i].0 <= ranges[i].1);
        }
        assert forall|i: int, j: int|
            0 <= i < rest.len() && j == i + 1 && j < rest.len() implies (#[trigger] rest[i]).1 == (
        #[trigger] rest[j]).0 by {
            assert(ranges[i].1 == ranges[j].0);
        }
        lemma_any_number_of_parts(column, column_type, matching, alive, segment_id, rest);
        let middle = rest.last().1;
        assert(middle == last.0) by {
            assert(ranges[ranges.len() - 2].1 == ranges[ranges.len() - 1].0);
        }
        lemma_increasing(rest);
        assert(last.0 <= last.1);
        lemma_partitions_merge(column, column_type, matching, alive, first, middle, last.1);
        assert(crate::aggregation::segment_distinct::merged(before, part) =~= whole);
    }
    assert(whole.dom() =~= Set::empty().insert(segment_id));
    crate::aggregation::segment_distinct::lemma_total_of_segment(whole, segment_id);
    assert(whole.remove(segment_id).dom() =~= Set::empty());
}

/// Ranges that follow each other end behind the start of the first one.
proof fn lemma_increasing(ranges: Seq<(u32, u32)>)
    requires
        ranges.len() > 0,
        are_adjacent(ranges),
    ensures
        ranges[0].0 <= ranges.last().1,
    decreases ranges.len(),
{
    let last = ranges.len() - 1;
    assert(ranges[last].0 <= ranges[last].1);
    if last > 0 {
        let rest = ranges.drop_last();
        assert forall|i: int| 0 <= i < rest.len() implies (#[trigger] rest[i]).0 <= rest[i].1 by {
            assert(ranges[i].0 <= ranges[i].1);
        }
        assert forall|i: int, j: int|
            0 <= i < rest.len() && j == i + 1 && j < rest.len() implies (#[trigger] rest[i]).1 == (
        #[trigger] rest[j]).0 by {
            assert(ranges[i].1 == ranges[j].0);
        }
        lemma_increasing(rest);
        assert(ranges[last - 1].1 == ranges[last].0);
    }
}

/// Fewer values have no larger estimate.
proof fn lemma_fewer_values(
    fewer: crate::aggregation::segment_distinct::DistinctValues,
    rest: crate::aggregation::segment_distinct::DistinctValues,
    column_type: crate::aggregation::column::ColumnType,
)
    requires
        fewer.finite(),
        rest.finite(),
        fewer.mergeable(rest),
        fewer.terms is Some <==> rest.terms is Some,
    ensures
        crate::aggregation::collector::memory_estimate(fewer, column_type)
            <= crate::aggregation::collector::memory_estimate(fewer.union(rest), column_type),
        crate::aggregation::collector::memory_estimate(rest, column_type)
            <= crate::aggregation::collector::memory_estimate(fewer.union(rest), column_type),
{
    let all = fewer.union(rest);
    vstd::set_lib::lemma_len_subset(fewer.numeric, all.numeric);
    vstd::set_lib::lemma_len_subset(rest.numeric, all.numeric);
    vstd::set_lib::lemma_len_subset(fewer.ip, all.ip);
    vstd::set_lib::lemma_len_subset(rest.ip, all.ip);
    if fewer.terms is Some {
        vstd::set_lib::lemma_len_subset((fewer.terms->0).1, (all.terms->0).1);
        vstd::set_lib::lemma_len_subset((rest.terms->0).1, (all.terms->0).1);
    }
}

/// The values of the documents of one part of a segment.
pub open spec fn segment_values(
    data: SegmentDistinctAggReqData,
    matching: Seq<u32>,
    alive: Option<Seq<bool>>,
    start: u32,
    end: u32,
) -> crate::aggregation::segment_distinct::DistinctValues {
    crate::aggregation::collector::distinct(
        data.accessor,
        data.column_type,
        crate::aggregation::column::values_of(
            data.accessor,
            selected(matching, alive, start, end),
        ),
    )
}

/// The values of a part are among those of the segment, and there are no more of them.
proof fn lemma_part_of_segment(
    data: SegmentDistinctAggReqData,
    matching: Seq<u32>,
    alive: Option<Seq<bool>>,
    start: u32,
    end: u32,
    max_doc: u32,
)
    requires
        start <= end <= max_doc,
        forall|i: int, j: int|
            0 <= i < j < matching.len() ==> #[trigger] matching[i] <= #[trigger] matching[j],
    ensures
        crate::aggregation::column::values_of(
            data.accessor,
            selected(matching, alive, start, end),
        ).len() <= crate::aggregation::column::values_of(
            data.accessor,
            selected(matching, alive, 0, max_doc),
        ).len(),
        crate::aggregation::collector::memory_estimate(
            segment_values(data, matching, alive, start, end),
            data.column_type,
        ) <= crate::aggregation::collector::memory_estimate(
            segment_values(data, matching, alive, 0, max_doc),
            data.column_type,
        ),
        segment_values(data, matching, alive, 0, start).mergeable(
            segment_values(data, matching, alive, start, end),
        ),
        segment_values(data, matching, alive, 0, start).union(
            segment_values(data, matching, alive, start, end),
        ) == segment_values(data, matching, alive, 0, end),
        segment_values(data, matching, alive, start, end).finite(),
{
    let before = selected(matching, alive, 0, start);
    let part = selected(matching, alive, start, end);
    let up_to = selected(matching, alive, 0, end);
    let after = selected(matching, alive, end, max_doc);
    lemma_ranges_join(matching, alive, 0, start, end);
    lemma_ranges_join(matching, alive, 0, end, max_doc);
    crate::aggregation::column::lemma_values_of_concat(data.accessor, before, part);
    crate::aggregation::column::lemma_values_of_concat(data.accessor, up_to, after);
    lemma_partitions_merge(data.accessor, data.column_type, matching, alive, 0, start, end);
    lemma_partitions_merge(data.accessor, data.column_type, matching, alive, 0, end, max_doc);
    crate::aggregation::collector::lemma_distinct_finite(
        data.accessor,
        data.column_type,
        crate::aggregation::column::values_of(data.accessor, before),
    );
    crate::aggregation::collector::lemma_distinct_finite(
        data.accessor,
        data.column_type,
        crate::aggregation::column::values_of(data.accessor, part),
    );
    crate::aggregation::collector::lemma_distinct_finite(
        data.accessor,
        data.column_type,
        crate::aggregation::column::values_of(data.accessor, up_to),
    );
    crate::aggregation::collector::lemma_distinct_finite(
        data.accessor,
        data.column_type,
        crate::aggregation::column::values_of(data.accessor, after),
    );
    lemma_fewer_values(
        segment_values(data, matching, alive, 0, start),
        segment_values(data, matching, alive, start, end),
        data.column_type,
    );
    lemma_fewer_values(
        segment_values(data, matching, alive, 0, end),
        segment_values(data, matching, alive, end, max_doc),
        data.column_type,
    );
}

/// The ranges in which a segment is collected: one, or at most `partitions`.
fn ranges_of(max_doc: u32, partitions: Option<u32>) -> (ranges: Vec<(u32, u32)>)
    requires
        partitions != Some(0u32),
    ensures
        ranges@.len() <= (match partitions {
            Some(partitions) => partitions as nat,
            None => 1,
        }),
        are_adjacent(ranges@),
        ranges@.len() == 0 ==> max_doc == 0,
        ranges@.len() > 0 ==> ranges@[0].0 == 0 && ranges@.last().1 == max_doc,
{
    match partitions {
        Some(partitions) => partition_ranges(max_doc, partitions),
        None => {
            let mut ranges: Vec<(u32, u32)> = Vec::new();
            ranges.push((0, max_doc));
            ranges
        },
    }
}

/// The memory for a moment that handing the values of a part out takes.
pub open spec fn handing_out_takes(data: SegmentDistinctAggReqData) -> nat {
    if data.column_type is Str {
        (data.accessor.max_value + 1) as nat / 8 + 64
    } else {
        0
    }
}

/// The number of distinct values among the documents of a segment below `max_doc` that are in
/// `matching` and alive. The segment is collected at once, or in at most `partitions` parts whose
/// values are merged; the number is the same.
pub fn count_segment(
    data: &SegmentDistinctAggReqData,
    matching: &[u32],
    alive_bitset: Option<&AliveBitSet>,
    max_doc: u32,
    partitions: Option<u32>,
    limits: &mut AggregationLimits,
) -> (result: Result<u64, PartitionError>)
    requires
        data.wf(),
        partitions != Some(0u32),
        data.accessor.has_docs(matching@),
        forall|i: int, j: int|
            0 <= i < j < matching@.len() ==> #[trigger] matching@[i] <= #[trigger] matching@[j],
        alive_bitset matches Some(alive) ==> forall|i: int|
            0 <= i < matching@.len() ==> #[trigger] matching@[i] < alive@.len(),
        crate::aggregation::column::values_of(
            data.accessor,
            selected(matching@, crate::store::reader::alive_view(alive_bitset), 0, max_doc),
        ).len() <= crate::aggregation::collector::MAX_DISTINCT_VALUES,
    ensures
        ({
            let values = segment_values(
                *data,
                matching@,
                crate::store::reader::alive_view(alive_bitset),
                0,
                max_doc,
            );
            let estimate = crate::aggregation::collector::memory_estimate(
                values,
                data.column_type,
            );
            let num_parts = match partitions {
                Some(partitions) => partitions as nat,
                None => 1,
            };
            let lacks_table = data.column_type is IpAddr && data.accessor.addresses is None;
            match result {
                Ok(count) => {
                    &&& count == values.count()
                    &&& data.column_type !is IpAddr && data.accessor.max_value < u64::MAX ==> count
                        == Set::new(
                        |value: u64|
                            exists|i: int, j: int|
                                0 <= i < matching@.len() && matching@[i] < max_doc && (
                                alive_bitset matches Some(bits) ==> bits@[matching@[i] as int])
                                    && 0 <= j < data.accessor.rows@[matching@[i] as int]@.len()
                                    && #[trigger] data.accessor.rows@[matching@[i] as int]@[j]
                                    == value,
                    ).len()
                },
                Err(PartitionError::Aggregation(AggregationError::TypeMismatch)) => lacks_table,
                Err(error) => {
                    &&& error matches PartitionError::Aggregation(
                        AggregationError::MemoryExceeded(_),
                    )
                    &&& old(limits).memory_consumed + num_parts * estimate + handing_out_takes(
                        *data,
                    ) > old(limits).memory_limit
                },
            }
        }),
{
    let ghost alive = crate::store::reader::alive_view(alive_bitset);
    let ghost estimate = crate::aggregation::collector::memory_estimate(
        segment_values(*data, matching@, alive, 0, max_doc),
        data.column_type,
    );
    let ghost start_limits = *limits;
    let ranges: Vec<(u32, u32)> = ranges_of(max_doc, partitions);
    let ghost num_parts: nat = match partitions {
        Some(partitions) => partitions as nat,
        None => 1,
    };
    let mut results: IntermediateAggregationResults = IntermediateAggregationResults::new();
    let mut next: usize = 0;
    while next < ranges.len()
        invariant
            next <= ranges@.len() <= num_parts,
            are_adjacent(ranges@),
            ranges@.len() > 0 ==> ranges@[0].0 == 0 && ranges@.last().1 == max_doc,
            data.wf(),
            data.accessor.has_docs(matching@),
            alive == crate::store::reader::alive_view(alive_bitset),
            forall|i: int, j: int|
                0 <= i < j < matching@.len() ==> #[trigger] matching@[i] <= #[trigger] matching@[j],
            alive_bitset matches Some(bits) ==> forall|i: int|
                0 <= i < matching@.len() ==> #[trigger] matching@[i] < bits@.len(),
            crate::aggregation::column::values_of(
                data.accessor,
                selected(matching@, alive, 0, max_doc),
            ).len() <= crate::aggregation::collector::MAX_DISTINCT_VALUES,
            estimate == crate::aggregation::collector::memory_estimate(
                segment_values(*data, matching@, alive, 0, max_doc),
                data.column_type,
            ),
            start_limits == *old(limits),
            limits.memory_limit == start_limits.memory_limit,
            limits.memory_consumed <= start_limits.memory_consumed + next * estimate,
            num_parts == (match partitions {
                Some(partitions) => partitions as nat,
                None => 1,
            }),
            results.wf(),
            next == 0 ==> results@ == crate::aggregation::results::ValuesByName::empty(),
            next > 0 ==> results@
                == crate::aggregation::results::ValuesByName::empty().insert(
                data.name@,
                part_of_result(
                    data.accessor,
                    data.column_type,
                    matching@,
                    alive,
                    data.segment_id,
                    (0, ranges@[next - 1].1),
                ),
            ),
        decreases ranges@.len() - next,
    {
        let (start, end): (u32, u32) = ranges[next];
        let ghost before = results@;
        let ghost limits_before = *limits;
        proof {
            lemma_range_bounds(ranges@, next as int);
            lemma_part_of_segment(*data, matching@, alive, start, end, max_doc);
            assert((next + 1) * estimate == next * estimate + estimate) by (nonlinear_arith);
            assert((next + 1) * estimate <= num_parts * estimate) by (nonlinear_arith)
                requires
                    next + 1 <= num_parts,
            ;
        }
        let mut collector: SegmentDistinctCollector = SegmentDistinctCollector::from_req_data(data);
        let ghost nothing = collector.values()->0;
        proof {
            crate::aggregation::collector::lemma_distinct_finite(
                data.accessor,
                data.column_type,
                Seq::empty(),
            );
            let values = crate::aggregation::column::values_of(
                data.accessor,
                selected(matching@, alive, start, end),
            );
            crate::aggregation::collector::lemma_distinct_of_concat(
                data.accessor,
                data.column_type,
                Seq::empty(),
                values,
            );
            assert(Seq::empty() + values =~= values);
            lemma_estimate_bounded(nothing, data.accessor, data.column_type, values);
        }
        match collect_segment_partition(
            &mut collector,
            matching,
            alive_bitset,
            start,
            end,
            limits,
            false,
        ) {
            Ok(_) => {},
            Err(error) => {
                return Err(error);
            },
        }
        assert(collector.values() == Some(segment_values(*data, matching@, alive, start, end)));
        match collector.add_intermediate_aggregation_result(limits, &mut results, 0) {
            Ok(_) => {},
            Err(error) => {
                proof {
                    lemma_merged_part(*data, matching@, alive, start, end);
                }
                return Err(PartitionError::Aggregation(error));
            },
        }
        proof {
            lemma_merged_part(*data, matching@, alive, start, end);
            if next > 0 {
                assert(ranges@[next - 1].1 == ranges@[next as int].0);
            }
            assert(results@ =~= crate::aggregation::results::ValuesByName::empty().insert(
                data.name@,
                part_of_result(
                    data.accessor,
                    data.column_type,
                    matching@,
                    alive,
                    data.segment_id,
                    (0, end),
                ),
            ));
        }
        next = next + 1;
    }
    let ghost whole = part_of_result(
        data.accessor,
        data.column_type,
        matching@,
        alive,
        data.segment_id,
        (0, max_doc),
    );
    proof {
        if data.column_type !is IpAddr && data.accessor.max_value < u64::MAX {
            lemma_segment_counts_its_values(*data, matching@, alive_bitset, max_doc);
        }
        crate::aggregation::collector::lemma_distinct_finite(
            data.accessor,
            data.column_type,
            crate::aggregation::column::values_of(
                data.accessor,
                selected(matching@, alive, 0, max_doc),
            ),
        );
        assert(whole.dom() =~= Set::empty().insert(data.segment_id));
        crate::aggregation::segment_distinct::lemma_total_of_segment(whole, data.segment_id);
        assert(whole.remove(data.segment_id).dom() =~= Set::empty());
    }
    match results.remove(data.name.as_str()) {
        Some(values) => Ok(values.finalize()),
        None => {
            proof {
                lemma_nothing_below(matching@, alive);
            }
            Ok(0)
        },
    }
}

/// No document is below zero.
proof fn lemma_nothing_below(matching: Seq<u32>, alive: Option<Seq<bool>>)
    ensures
        selected(matching, alive, 0, 0) == Seq::<u32>::empty(),
    decreases matching.len(),
{
    if matching.len() > 0 {
        lemma_nothing_below(matching.drop_last(), alive);
    }
}

/// The ranges lie between the start of the first one and the end of the last one.
proof fn lemma_range_bounds(ranges: Seq<(u32, u32)>, index: int)
    requires
        are_adjacent(ranges),
        0 <= index < ranges.len(),
    ensures
        ranges[0].0 <= ranges[index].0 <= ranges[index].1 <= ranges.last().1,
    decreases ranges.len(),
{
    assert(ranges[index].0 <= ranges[index].1);
    lemma_adjacent_part(ranges, 0, index + 1);
    lemma_increasing(ranges.subrange(0, index + 1));
    lemma_adjacent_part(ranges, index, ranges.len() as int);
    lemma_increasing(ranges.subrange(index, ranges.len() as int));
    if index > 0 {
        lemma_adjacent_part(ranges, 0, index);
        lemma_increasing(ranges.subrange(0, index));
        assert(ranges[index - 1].1 == ranges[index].0);
    }
    if index + 1 < ranges.len() {
        lemma_adjacent_part(ranges, index + 1, ranges.len() as int);
        lemma_increasing(ranges.subrange(index + 1, ranges.len() as int));
        assert(ranges[index].1 == ranges[index + 1].0);
    }
}

proof fn lemma_adjacent_part(ranges: Seq<(u32, u32)>, from: int, to: int)
    requires
        are_adjacent(ranges),
        0 <= from <= to <= ranges.len(),
    ensures
        are_adjacent(ranges.subrange(from, to)),
{
    let part = ranges.subrange(from, to);
    assert forall|i: int| 0 <= i < part.len() implies (#[trigger] part[i]).0 <= part[i].1 by {
        assert(ranges[from + i].0 <= ranges[from + i].1);
    }
    assert forall|i: int, j: int|
        0 <= i < part.len() && j == i + 1 && j < part.len() implies (#[trigger] part[i]).1 == (
    #[trigger] part[j]).0 by {
        assert(ranges[from + i].1 == ranges[from + j].0);
    }
}

/// What is under a name after a part was merged is that of the longer range.
proof fn lemma_merged_part(
    data: SegmentDistinctAggReqData,
    matching: Seq<u32>,
    alive: Option<Seq<bool>>,
    start: u32,
    end: u32,
)
    requires
        start <= end,
        forall|i: int, j: int|
            0 <= i < j < matching.len() ==> #[trigger] matching[i] <= #[trigger] matching[j],
    ensures
        ({
            let held = part_of_result(
                data.accessor,
                data.column_type,
                matching,
                alive,
                data.segment_id,
                (0, start),
            );
            let part = part_of_result(
                data.accessor,
                data.column_type,
                matching,
                alive,
                data.segment_id,
                (start, end),
            );
            &&& crate::aggregation::segment_distinct::all_mergeable(held, part)
            &&& crate::aggregation::segment_distinct::merged(held, part) == part_of_result(
                data.accessor,
                data.column_type,
                matching,
                alive,
                data.segment_id,
                (0, end),
            )
        }),
{
    let held = part_of_result(
        data.accessor,
        data.column_type,
        matching,
        alive,
        data.segment_id,
        (0, start),
    );
    let part = part_of_result(
        data.accessor,
        data.column_type,
        matching,
        alive,
        data.segment_id,
        (start, end),
    );
    lemma_partitions_merge(data.accessor, data.column_type, matching, alive, 0, start, end);
    assert(crate::aggregation::segment_distinct::merged(held, part) =~= part_of_result(
        data.accessor,
        data.column_type,
        matching,
        alive,
        data.segment_id,
        (0, end),
    ));
}

/// The budget allows for an estimate exactly if what was not reported of it fits into what is left.
pub proof fn lemma_what_fits_the_budget(
    estimate: nat,
    reported: u64,
    limits: AggregationLimits,
    data: SegmentDistinctAggReqData,
)
    requires
        limits.memory_consumed + estimate <= u64::MAX,
    ensures
        growth_fits(estimate, reported, limits) <==> estimate <= reported || limits.memory_consumed
            + (estimate - reported) <= limits.memory_limit,
        data.column_type == crate::aggregation::column::ColumnType::Str ==> handing_out_takes(data)
            == (data.accessor.max_value + 1) / 8 + 64,
        data.column_type != crate::aggregation::column::ColumnType::Str ==> handing_out_takes(data)
            == 0,
{
}

/// A part that is too large for the budget is collected up to the end of the block of 64 documents
/// that was too much, and what was within the budget before stays reported.
pub proof fn lemma_stopped_after_a_block(
    before: SegmentDistinctCollector,
    docs: Seq<u32>,
    done: nat,
    more: nat,
    limits: AggregationLimits,
    after: SegmentDistinctCollector,
    new_limits: AggregationLimits,
)
    requires
        is_block(docs, done, more),
        stopped_in_block(before, docs, done, more, limits, after, new_limits),
    ensures
        done % 64 == 0,
        done < more <= docs.len(),
        more - done == 64 || more == docs.len(),
        more - done <= 64,
        after.values() == Some(
            before.values()->0.union(
                crate::aggregation::collector::distinct(
                    before.column(),
                    before.spec_column_type(),
                    crate::aggregation::column::values_of(
                        before.column(),
                        docs.subrange(0, more as int),
                    ),
                ),
            ),
        ),
        done == 0 ==> after.spec_reported_bytes() == before.spec_reported_bytes(),
        after.spec_reported_bytes() >= before.spec_reported_bytes(),
        new_limits.memory_limit == limits.memory_limit,
        new_limits.memory_consumed >= limits.memory_consumed,
        new_limits.memory_consumed > limits.memory_limit,
{
    assert(docs.take(more as int) =~= docs.subrange(0, more as int));
}

} // verus!
