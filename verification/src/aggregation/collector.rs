//! Collecting the distinct values of a segment.

use rustc_hash::FxHashSet;
use vstd::prelude::*;

use crate::aggregation::column::{Column, ColumnType};
use crate::aggregation::fx::{fx_insert, fx_len};
use crate::aggregation::limits::{AggregationLimits, MemoryExceeded};
use crate::aggregation::ord_set::{AdaptiveOrdSet, CapacityMismatch};
use crate::aggregation::results::IntermediateAggregationResults;
use crate::aggregation::segment_distinct::{
    DistinctValues, IntermediateSegmentDistinct, SegmentDistinctEntry,
};
use crate::aggregation::term_ord_set::TermOrdSet;

verus! {

/// What can go wrong while distinct values are counted.
#[derive(Clone, Copy, Debug, PartialEq, Eq, Structural)]
pub enum AggregationError {
    /// A value for documents without the field is not supported.
    MissingNotSupported,
    /// The aggregation was asked for below another one.
    NotTopLevel,
    /// The aggregation was asked to have others below it.
    HasSubAggregations,
    /// Only bucket zero exists at the top level.
    UnexpectedBucket,
    /// The values were handed out before.
    FinalizedTwice,
    /// The values were handed out before, and documents came after that.
    CollectedAfterFinalization,
    /// A column of addresses has no table of addresses.
    TypeMismatch,
    /// The budget does not allow it.
    MemoryExceeded(MemoryExceeded),
    /// The same segment was seen with two different dictionaries.
    CapacityMismatch(CapacityMismatch),
}

impl AggregationError {
    /// What went wrong, in words.
    pub open spec fn spec_message(self) -> Seq<char> {
        match self {
            AggregationError::MissingNotSupported => {
                "segment_cardinality does not support the missing parameter"@
            },
            AggregationError::NotTopLevel => {
                "segment_cardinality is only supported as a top-level aggregation"@
            },
            AggregationError::HasSubAggregations => {
                "segment_cardinality does not support sub-aggregations"@
            },
            AggregationError::UnexpectedBucket => {
                "segment_cardinality is a top-level aggregation; unexpected bucket id"@
            },
            AggregationError::FinalizedTwice => {
                "segment_cardinality state should not be finalized twice"@
            },
            AggregationError::CollectedAfterFinalization => {
                "collection should not happen after finalization"@
            },
            AggregationError::TypeMismatch => {
                "Type mismatch: Could not downcast to CompactSpaceU64Accessor"@
            },
            AggregationError::MemoryExceeded(_) => {
                "Aborting aggregation because memory limit was exceeded"@
            },
            AggregationError::CapacityMismatch(_) => {
                "segment_cardinality ord-space capacity mismatch in merge"@
            },
        }
    }

    /// What went wrong, in words.
    pub fn message(&self) -> (message: &'static str)
        ensures
            message@ == self.spec_message(),
    {
        match self {
            AggregationError::MissingNotSupported => {
                "segment_cardinality does not support the missing parameter"
            },
            AggregationError::NotTopLevel => {
                "segment_cardinality is only supported as a top-level aggregation"
            },
            AggregationError::HasSubAggregations => {
                "segment_cardinality does not support sub-aggregations"
            },
            AggregationError::UnexpectedBucket => {
                "segment_cardinality is a top-level aggregation; unexpected bucket id"
            },
            AggregationError::FinalizedTwice => {
                "segment_cardinality state should not be finalized twice"
            },
            AggregationError::CollectedAfterFinalization => {
                "collection should not happen after finalization"
            },
            AggregationError::TypeMismatch => {
                "Type mismatch: Could not downcast to CompactSpaceU64Accessor"
            },
            AggregationError::MemoryExceeded(_) => {
                "Aborting aggregation because memory limit was exceeded"
            },
            AggregationError::CapacityMismatch(_) => {
                "segment_cardinality ord-space capacity mismatch in merge"
            },
        }
    }
}

/// A value of a field, as it stands in a request.
#[derive(Clone, Debug)]
pub enum Key {
    Str(String),
    I64(i64),
    U64(u64),
    /// A floating point number, by its bits.
    F64 { bits: u64 },
}

/// Asks for the number of distinct values of a field.
#[derive(Clone, Debug)]
pub struct SegmentDistinctAggReq {
    /// The field.
    pub field: String,
    /// Not supported; present so that it can be rejected.
    pub missing: Option<Key>,
}

impl SegmentDistinctAggReq {
    /// A request for a field.
    pub fn from_field_name(field_name: String) -> (req: SegmentDistinctAggReq)
        ensures
            req.field == field_name,
            req.missing is None,
    {
        SegmentDistinctAggReq { field: field_name, missing: None }
    }

    /// The field.
    pub fn field_name(&self) -> (name: &str)
        ensures
            name@ == self.field@,
    {
        self.field.as_str()
    }

    /// Rejects what is not supported: a value for documents without the field, a place below
    /// another aggregation, and other aggregations below this one.
    pub fn validate(&self, is_top_level: bool, has_sub_aggregations: bool) -> (result: Result<
        (),
        AggregationError,
    >)
        ensures
            result == (if self.missing is Some {
                Err(AggregationError::MissingNotSupported)
            } else if !is_top_level {
                Err(AggregationError::NotTopLevel)
            } else if has_sub_aggregations {
                Err(AggregationError::HasSubAggregations)
            } else {
                Ok(())
            }),
    {
        if self.missing.is_some() {
            return Err(AggregationError::MissingNotSupported);
        }
        if !is_top_level {
            return Err(AggregationError::NotTopLevel);
        }
        if has_sub_aggregations {
            return Err(AggregationError::HasSubAggregations);
        }
        Ok(())
    }
}

/// A request together with the column of one segment.
pub struct SegmentDistinctAggReqData {
    /// The values.
    pub accessor: Column,
    /// Their type.
    pub column_type: ColumnType,
    /// The name of the aggregation.
    pub name: String,
    /// The segment.
    pub segment_id: u128,
    /// The request.
    pub req: SegmentDistinctAggReq,
}

impl SegmentDistinctAggReqData {
    /// The column is in order for its type.
    pub open spec fn wf(self) -> bool {
        &&& self.accessor.wf()
        &&& self.column_type is Str ==> self.accessor.max_value < u64::MAX
            && crate::aggregation::ord_set::words_needed((self.accessor.max_value + 1) as u64)
            <= usize::MAX
        &&& self.column_type is IpAddr ==> self.accessor.has_addresses()
    }

    /// The memory that the struct itself takes, in bytes.
    pub fn get_memory_consumption(&self) -> (num_bytes: usize)
        ensures
            num_bytes == vstd::layout::size_of::<SegmentDistinctAggReqData>(),
    {
        std::mem::size_of::<SegmentDistinctAggReqData>()
    }
}

/// The distinct ones of `values` of a column.
pub open spec fn distinct(
    column: Column,
    column_type: ColumnType,
    values: Seq<u64>,
) -> DistinctValues {
    match column_type {
        ColumnType::Str => DistinctValues {
            terms: Some(((column.max_value + 1) as u64, values.to_set())),
            ..DistinctValues::none()
        },
        ColumnType::IpAddr => DistinctValues {
            ip: Set::new(
                |address: u128|
                    exists|i: int|
                        0 <= i < values.len() && address == address_of(column, #[trigger] values[i]),
            ),
            ..DistinctValues::none()
        },
        _ => DistinctValues {
            numeric: Set::new(
                |value: (u8, u64)| value.0 == column_type.spec_code() && values.contains(value.1),
            ),
            ..DistinctValues::none()
        },
    }
}

/// The address that a value of a column of addresses stands for.
pub open spec fn address_of(column: Column, value: u64) -> u128 {
    match column.addresses {
        Some(addresses) => addresses@[value as int],
        None => 0,
    }
}

/// Values that are collected in two parts of a segment and merged are those that are collected
/// in both parts at once, so that a value in both parts counts once.
pub proof fn lemma_partitions_unite(
    column: Column,
    column_type: ColumnType,
    left: Seq<u32>,
    right: Seq<u32>,
)
    ensures
        ({
            let from_left = distinct(
                column,
                column_type,
                crate::aggregation::column::values_of(column, left),
            );
            let from_right = distinct(
                column,
                column_type,
                crate::aggregation::column::values_of(column, right),
            );
            &&& from_left.mergeable(from_right)
            &&& from_left.union(from_right) == distinct(
                column,
                column_type,
                crate::aggregation::column::values_of(column, left + right),
            )
        }),
{
    crate::aggregation::column::lemma_values_of_concat(column, left, right);
    lemma_distinct_of_concat(
        column,
        column_type,
        crate::aggregation::column::values_of(column, left),
        crate::aggregation::column::values_of(column, right),
    );
}

/// A value is among those of `docs` if one of them has it.
proof fn lemma_value_of_doc(column: Column, docs: Seq<u32>, value: u64)
    ensures
        crate::aggregation::column::values_of(column, docs).contains(value) <==> exists|doc: u32|
            #[trigger] docs.contains(doc) && column.rows@[doc as int]@.contains(value),
    decreases docs.len(),
{
    if docs.len() > 0 {
        let rest = docs.drop_last();
        let last = docs.last();
        let before = crate::aggregation::column::values_of(column, rest);
        let row = column.rows@[last as int]@;
        let all = crate::aggregation::column::values_of(column, docs);
        lemma_value_of_doc(column, rest, value);
        assert(docs.contains(last));
        if all.contains(value) {
            let k = choose|k: int| 0 <= k < all.len() && all[k] == value;
            if k < before.len() {
                assert(before[k] == value);
                let doc = choose|doc: u32| #[trigger]
                    rest.contains(doc) && column.rows@[doc as int]@.contains(value);
                let at = choose|at: int| 0 <= at < rest.len() && rest[at] == doc;
                assert(docs[at] == doc);
                assert(docs.contains(doc));
            } else {
                assert(row[k - before.len()] == value);
            }
        }
        if exists|doc: u32| #[trigger]
            docs.contains(doc) && column.rows@[doc as int]@.contains(value) {
            let doc = choose|doc: u32| #[trigger]
                docs.contains(doc) && column.rows@[doc as int]@.contains(value);
            let at = choose|at: int| 0 <= at < docs.len() && docs[at] == doc;
            if at < rest.len() {
                assert(rest[at] == doc);
                assert(rest.contains(doc));
                let k = choose|k: int| 0 <= k < before.len() && before[k] == value;
                assert(all[k] == value);
            } else {
                let k = choose|k: int| 0 <= k < row.len() && row[k] == value;
                assert(all[before.len() + k] == value);
            }
        }
    }
}

/// Which values are collected depends on which documents there are, not on their order, nor on how
/// often a document occurs.
pub proof fn lemma_only_the_documents_matter(
    column: Column,
    column_type: ColumnType,
    docs: Seq<u32>,
    others: Seq<u32>,
)
    requires
        docs.to_set() == others.to_set(),
    ensures
        distinct(column, column_type, crate::aggregation::column::values_of(column, docs))
            == distinct(column, column_type, crate::aggregation::column::values_of(column, others)),
{
    let left = crate::aggregation::column::values_of(column, docs);
    let right = crate::aggregation::column::values_of(column, others);
    assert forall|value: u64| left.contains(value) <==> right.contains(value) by {
        lemma_value_of_doc(column, docs, value);
        lemma_value_of_doc(column, others, value);
        assert forall|doc: u32| docs.contains(doc) <==> others.contains(doc) by {
            assert(docs.to_set().contains(doc) <==> docs.contains(doc));
            assert(others.to_set().contains(doc) <==> others.contains(doc));
        }
    }
    let from_left = distinct(column, column_type, left);
    let from_right = distinct(column, column_type, right);
    assert(left.to_set() =~= right.to_set());
    assert forall|address: u128| from_left.ip.contains(address) <==> from_right.ip.contains(
        address,
    ) by {
        if from_left.ip.contains(address) {
            let i = choose|i: int|
                0 <= i < left.len() && address == address_of(column, #[trigger] left[i]);
            assert(right.contains(left[i]));
            let j = choose|j: int| 0 <= j < right.len() && right[j] == left[i];
            assert(address == address_of(column, right[j]));
        }
        if from_right.ip.contains(address) {
            let i = choose|i: int|
                0 <= i < right.len() && address == address_of(column, #[trigger] right[i]);
            assert(left.contains(right[i]));
            let j = choose|j: int| 0 <= j < left.len() && left[j] == right[i];
            assert(address == address_of(column, left[j]));
        }
    }
    assert(from_left =~= from_right);
}

/// The documents of all blocks, one block behind the other.
pub open spec fn docs_of_blocks(blocks: Seq<Seq<u32>>) -> Seq<u32>
    decreases blocks.len(),
{
    if blocks.len() == 0 {
        Seq::empty()
    } else {
        docs_of_blocks(blocks.drop_last()) + blocks.last()
    }
}

/// The values that are there after blocks of documents were collected one after the other.
pub open spec fn after_blocks(
    column: Column,
    column_type: ColumnType,
    start: DistinctValues,
    blocks: Seq<Seq<u32>>,
) -> DistinctValues
    decreases blocks.len(),
{
    if blocks.len() == 0 {
        start
    } else {
        after_blocks(column, column_type, start, blocks.drop_last()).union(
            distinct(
                column,
                column_type,
                crate::aggregation::column::values_of(column, blocks.last()),
            ),
        )
    }
}

/// Into which blocks documents are split makes no difference: the values are those that collecting
/// all of the documents at once adds.
pub proof fn lemma_any_blocks(
    column: Column,
    column_type: ColumnType,
    start: DistinctValues,
    blocks: Seq<Seq<u32>>,
)
    requires
        blocks.len() > 0,
    ensures
        after_blocks(column, column_type, start, blocks) == start.union(
            distinct(
                column,
                column_type,
                crate::aggregation::column::values_of(column, docs_of_blocks(blocks)),
            ),
        ),
    decreases blocks.len(),
{
    let rest = blocks.drop_last();
    let earlier = docs_of_blocks(rest);
    if rest.len() == 0 {
        assert(docs_of_blocks(blocks) =~= blocks.last());
    } else {
        lemma_any_blocks(column, column_type, start, rest);
        lemma_partitions_unite(column, column_type, earlier, blocks.last());
        crate::aggregation::segment_distinct::lemma_union_is_associative(
            start,
            distinct(
                column,
                column_type,
                crate::aggregation::column::values_of(column, earlier),
            ),
            distinct(
                column,
                column_type,
                crate::aggregation::column::values_of(column, blocks.last()),
            ),
        );
    }
}

/// Values of columns of different types are different values, though they are kept as the same
/// integers: both count.
pub proof fn lemma_types_are_told_apart(
    column: Column,
    column_type: ColumnType,
    values: Seq<u64>,
    other_column: Column,
    other_type: ColumnType,
    other_values: Seq<u64>,
)
    requires
        column_type != other_type,
    ensures
        ({
            let one = distinct(column, column_type, values);
            let other = distinct(other_column, other_type, other_values);
            one.union(other).count() == one.count() + other.count()
        }),
{
    let one = distinct(column, column_type, values);
    let other = distinct(other_column, other_type, other_values);
    lemma_distinct_finite(column, column_type, values);
    lemma_distinct_finite(other_column, other_type, other_values);
    assert(one.numeric.disjoint(other.numeric));
    assert(one.ip.disjoint(other.ip));
    vstd::set_lib::lemma_set_disjoint_lens(one.numeric, other.numeric);
    vstd::set_lib::lemma_set_disjoint_lens(one.ip, other.ip);
    assert(one.numeric + other.numeric =~= one.numeric.union(other.numeric));
    assert(one.ip + other.ip =~= one.ip.union(other.ip));
}

/// There are no more distinct values than values.
pub(crate) proof fn lemma_distinct_finite(
    column: Column,
    column_type: ColumnType,
    values: Seq<u64>,
)
    ensures
        distinct(column, column_type, values).finite(),
        distinct(column, column_type, values).count() <= values.len(),
{
    vstd::seq_lib::seq_to_set_is_finite(values);
    values.lemma_cardinality_of_set();
    let found = distinct(column, column_type, values);
    match column_type {
        ColumnType::Str => {},
        ColumnType::IpAddr => {
            let addresses = values.map_values(|value: u64| address_of(column, value));
            vstd::seq_lib::seq_to_set_is_finite(addresses);
            addresses.lemma_cardinality_of_set();
            assert forall|address: u128| found.ip.contains(address) <==> addresses.to_set().contains(
                address,
            ) by {
                if found.ip.contains(address) {
                    let i = choose|i: int|
                        0 <= i < values.len() && address == address_of(column, #[trigger] values[i]);
                    assert(addresses[i] == address);
                }
                if addresses.contains(address) {
                    let i = choose|i: int| 0 <= i < addresses.len() && addresses[i] == address;
                    assert(address == address_of(column, values[i]));
                }
            }
            assert(found.ip =~= addresses.to_set());
        },
        _ => {
            let salted = values.map_values(|value: u64| (column_type.spec_code(), value));
            vstd::seq_lib::seq_to_set_is_finite(salted);
            salted.lemma_cardinality_of_set();
            assert forall|value: (u8, u64)| found.numeric.contains(value)
                <==> salted.to_set().contains(value) by {
                if found.numeric.contains(value) {
                    let i = choose|i: int| 0 <= i < values.len() && values[i] == value.1;
                    assert(salted[i] == value);
                }
                if salted.contains(value) {
                    let i = choose|i: int| 0 <= i < salted.len() && salted[i] == value;
                    assert(values[i] == value.1);
                }
            }
            assert(found.numeric =~= salted.to_set());
        },
    }
}

pub(crate) proof fn lemma_distinct_of_concat(
    column: Column,
    column_type: ColumnType,
    left: Seq<u64>,
    right: Seq<u64>,
)
    ensures
        distinct(column, column_type, left).union(distinct(column, column_type, right))
            == distinct(column, column_type, left + right),
{
    let all = left + right;
    assert forall|value: u64| all.contains(value) <==> left.contains(value) || right.contains(
        value,
    ) by {
        if left.contains(value) {
            let k = choose|k: int| 0 <= k < left.len() && left[k] == value;
            assert(all[k] == value);
        }
        if right.contains(value) {
            let k = choose|k: int| 0 <= k < right.len() && right[k] == value;
            assert(all[left.len() + k] == value);
        }
        if all.contains(value) {
            let k = choose|k: int| 0 <= k < all.len() && all[k] == value;
            if k < left.len() {
                assert(left[k] == value);
            } else {
                assert(right[k - left.len()] == value);
            }
        }
    }
    let united = distinct(column, column_type, left).union(distinct(column, column_type, right));
    let expected = distinct(column, column_type, all);
    match column_type {
        ColumnType::Str => {
            assert(left.to_set().union(right.to_set()) =~= all.to_set());
        },
        ColumnType::IpAddr => {
            assert forall|address: u128| united.ip.contains(address) <==> expected.ip.contains(
                address,
            ) by {
                if expected.ip.contains(address) {
                    let i = choose|i: int|
                        0 <= i < all.len() && address == address_of(column, #[trigger] all[i]);
                    if i < left.len() {
                        assert(left[i] == all[i]);
                    } else {
                        assert(right[i - left.len()] == all[i]);
                    }
                }
                if distinct(column, column_type, left).ip.contains(address) {
                    let i = choose|i: int|
                        0 <= i < left.len() && address == address_of(column, #[trigger] left[i]);
                    assert(all[i] == left[i]);
                }
                if distinct(column, column_type, right).ip.contains(address) {
                    let i = choose|i: int|
                        0 <= i < right.len() && address == address_of(column, #[trigger] right[i]);
                    assert(all[left.len() + i] == right[i]);
                }
            }
        },
        _ => {},
    }
    assert(united =~= expected);
}

/// More values than this are not collected: the estimates of their memory would not fit.
pub const MAX_DISTINCT_VALUES: u64 = 0x400_0000_0000_0000;

/// A rough estimate of the memory that collected values take, in bytes.
pub open spec fn memory_estimate(values: DistinctValues, column_type: ColumnType) -> nat {
    match values.terms {
        Some((capacity, ords)) => {
            let sparse = ords.len() * 16;
            let dense = capacity as nat / 8 + 4096;
            if sparse < dense {
                sparse
            } else {
                dense
            }
        },
        None => match column_type {
            ColumnType::IpAddr => values.ip.len() * 32,
            _ => values.numeric.len() * 24,
        },
    }
}

enum DistinctState {
    Str(TermOrdSet),
    Numeric(FxHashSet<(u8, u64)>),
    Ip(FxHashSet<u128>),
}

/// Collects the distinct values of one column of a segment.
pub struct SegmentDistinctCollector<'a> {
    state: Option<DistinctState>,
    req_data: &'a SegmentDistinctAggReqData,
    str_capacity: u64,
    reported_bytes: u64,
}

impl<'a> SegmentDistinctCollector<'a> {
    /// The values collected so far, until they are handed out.
    pub closed spec fn values(self) -> Option<DistinctValues> {
        match self.state {
            Some(DistinctState::Str(ords)) => Some(
                DistinctValues {
                    terms: Some((self.str_capacity, ords@)),
                    ..DistinctValues::none()
                },
            ),
            Some(DistinctState::Numeric(values)) => Some(
                DistinctValues { numeric: values@, ..DistinctValues::none() },
            ),
            Some(DistinctState::Ip(values)) => Some(
                DistinctValues { ip: values@, ..DistinctValues::none() },
            ),
            None => None,
        }
    }

    /// The request, with the column of the segment.
    pub closed spec fn spec_req_data(self) -> SegmentDistinctAggReqData {
        *self.req_data
    }

    /// The column.
    pub open spec fn column(self) -> Column {
        self.spec_req_data().accessor
    }

    /// The type of the column.
    pub open spec fn spec_column_type(self) -> ColumnType {
        self.spec_req_data().column_type
    }

    /// The memory that has been counted so far.
    pub closed spec fn spec_reported_bytes(self) -> u64 {
        self.reported_bytes
    }

    /// The values are of the type of the column, and terms are in the dictionary.
    pub closed spec fn wf(self) -> bool {
        &&& self.req_data.accessor.wf()
        &&& self.req_data.column_type is IpAddr ==> self.req_data.accessor.has_addresses()
        &&& self.req_data.column_type is Str ==> {
            &&& self.req_data.accessor.max_value < u64::MAX
            &&& self.str_capacity == self.req_data.accessor.max_value + 1
            &&& crate::aggregation::ord_set::words_needed(self.str_capacity) <= usize::MAX
        }
        &&& match self.state {
            Some(DistinctState::Str(ords)) => {
                &&& self.req_data.column_type is Str
                &&& ords@.finite()
                &&& forall|ord: u64| #[trigger] ords@.contains(ord) ==> ord < self.str_capacity
            },
            Some(DistinctState::Numeric(values)) => {
                &&& self.req_data.column_type !is Str
                &&& self.req_data.column_type !is IpAddr
                &&& values@.finite()
            },
            Some(DistinctState::Ip(values)) => self.req_data.column_type is IpAddr && values@.finite(),
            None => true,
        }
    }

    /// Values of the column that are none add nothing.
    pub(crate) proof fn lemma_nothing_to_add(self)
        requires
            self.wf(),
            self.values() is Some,
        ensures
            self.values()->0.union(
                distinct(self.column(), self.spec_column_type(), Seq::empty()),
            ) == self.values()->0,
    {
        let values = self.values()->0;
        let nothing = distinct(self.column(), self.spec_column_type(), Seq::empty());
        assert(Seq::<u64>::empty().to_set() =~= Set::empty());
        assert(nothing.numeric =~= Set::empty());
        assert(nothing.ip =~= Set::empty());
        if values.terms is Some {
            assert((values.terms->0).1.union(Set::empty()) =~= (values.terms->0).1);
        }
        assert(values.numeric.union(Set::empty()) =~= values.numeric);
        assert(values.ip.union(Set::empty()) =~= values.ip);
    }

    /// There are finitely many values, and terms only in a column of terms.
    pub proof fn lemma_finite(self)
        requires
            self.wf(),
            self.values() is Some,
        ensures
            self.values()->0.finite(),
            self.values()->0.terms is Some <==> self.spec_column_type() is Str,
    {
    }

    /// A collector that has not seen any document.
    pub fn from_req_data(req_data: &'a SegmentDistinctAggReqData) -> (collector:
        SegmentDistinctCollector<'a>)
        requires
            req_data.wf(),
        ensures
            collector.wf(),
            collector.spec_req_data() == *req_data,
            collector.spec_reported_bytes() == 0,
            collector.values() == Some(
                distinct(req_data.accessor, req_data.column_type, Seq::empty()),
            ),
    {
        let (state, str_capacity): (DistinctState, u64) = match req_data.column_type {
            ColumnType::Str => (
                DistinctState::Str(TermOrdSet::new()),
                req_data.accessor.max_value + 1,
            ),
            ColumnType::IpAddr => (DistinctState::Ip(FxHashSet::default()), 0),
            _ => (DistinctState::Numeric(FxHashSet::default()), 0),
        };
        let collector = SegmentDistinctCollector {
            state: Some(state),
            req_data,
            str_capacity,
            reported_bytes: 0,
        };
        proof {
            let nothing = distinct(req_data.accessor, req_data.column_type, Seq::empty());
            assert(collector.values()->0 =~= nothing) by {
                assert(Seq::<u64>::empty().to_set() =~= Set::empty());
                assert(nothing.numeric =~= Set::empty());
                assert(nothing.ip =~= Set::empty());
            }
        }
        collector
    }

    /// A rough estimate of the memory that the collected values take, in bytes.
    fn mem_estimate(&self) -> (estimate: u64)
        requires
            self.wf(),
            self.values() matches Some(values) ==> values.count() <= MAX_DISTINCT_VALUES,
        ensures
            estimate == (match self.values() {
                Some(values) => memory_estimate(values, self.spec_column_type()),
                None => 0,
            }),
    {
        match &self.state {
            Some(DistinctState::Str(set)) => {
                let sparse_estimate: u64 = set.len() as u64 * 16;
                let dense_estimate: u64 = self.str_capacity / 8 + 4096;
                if sparse_estimate < dense_estimate {
                    sparse_estimate
                } else {
                    dense_estimate
                }
            },
            Some(DistinctState::Numeric(set)) => fx_len(set) as u64 * 24,
            Some(DistinctState::Ip(set)) => fx_len(set) as u64 * 32,
            None => 0,
        }
    }

    /// Counts the memory by which the collected values have grown.
    fn register_growth(&mut self, limits: &mut AggregationLimits) -> (result: Result<
        (),
        MemoryExceeded,
    >)
        requires
            old(self).wf(),
            old(self).values() matches Some(values) && values.count() <= MAX_DISTINCT_VALUES,
        ensures
            final(self).wf(),
            final(self).values() == old(self).values(),
            final(self).spec_req_data() == old(self).spec_req_data(),
            growth_registered(
                memory_estimate(old(self).values()->0, old(self).spec_column_type()),
                old(self).spec_reported_bytes(),
                *old(limits),
                result,
                final(self).spec_reported_bytes(),
                *final(limits),
            ),
    {
        let estimate: u64 = self.mem_estimate();
        if estimate > self.reported_bytes {
            match limits.add_memory_consumed(estimate - self.reported_bytes) {
                Ok(_) => {},
                Err(error) => {
                    return Err(error);
                },
            }
            self.reported_bytes = estimate;
        }
        Ok(())
    }

    /// Why documents for this bucket cannot be collected.
    pub open spec fn collect_error(self, parent_bucket_id: u32) -> Option<AggregationError> {
        if parent_bucket_id != 0 {
            Some(AggregationError::UnexpectedBucket)
        } else if self.values() is None {
            Some(AggregationError::CollectedAfterFinalization)
        } else if self.spec_column_type() is IpAddr && self.column().addresses is None {
            Some(AggregationError::TypeMismatch)
        } else {
            None
        }
    }

    /// Collects the values of `docs`, and counts the memory that they take.
    pub fn collect(
        &mut self,
        parent_bucket_id: u32,
        docs: &[u32],
        limits: &mut AggregationLimits,
    ) -> (result: Result<(), AggregationError>)
        requires
            old(self).wf(),
            old(self).column().has_docs(docs@),
            old(self).values() matches Some(values) ==> values.count()
                + crate::aggregation::column::values_of(old(self).column(), docs@).len()
                <= MAX_DISTINCT_VALUES,
        ensures
            final(self).wf(),
            final(self).spec_req_data() == old(self).spec_req_data(),
            old(self).collect_error(parent_bucket_id) matches Some(error) ==> {
                &&& result == Err::<(), AggregationError>(error)
                &&& final(self).values() == old(self).values()
                &&& final(self).spec_reported_bytes() == old(self).spec_reported_bytes()
                &&& *final(limits) == *old(limits)
            },
            old(self).collect_error(parent_bucket_id) is None ==> {
                let values = old(self).values()->0.union(
                    distinct(
                        old(self).column(),
                        old(self).spec_column_type(),
                        crate::aggregation::column::values_of(old(self).column(), docs@),
                    ),
                );
                &&& final(self).values() == Some(values)
                &&& old(self).spec_column_type() !is Str && old(self).spec_column_type() !is IpAddr
                    ==> forall|code: u8, value: u64| #[trigger]
                    values.numeric.contains((code, value))
                        <==> old(self).values()->0.numeric.contains((code, value)) || (code
                        == old(self).spec_column_type().spec_code() && exists|i: int, j: int|
                        0 <= i < docs@.len() && 0 <= j
                            < old(self).column().rows@[docs@[i] as int]@.len()
                            && #[trigger] old(self).column().rows@[docs@[i] as int]@[j] == value)
                &&& values.count() <= old(self).values()->0.count()
                    + crate::aggregation::column::values_of(old(self).column(), docs@).len()
                &&& growth_registered(
                    memory_estimate(values, old(self).spec_column_type()),
                    old(self).spec_reported_bytes(),
                    *old(limits),
                    memory_result(result),
                    final(self).spec_reported_bytes(),
                    *final(limits),
                )
                &&& result matches Err(error) ==> error is MemoryExceeded
            },
    {
        if parent_bucket_id != 0 {
            return Err(AggregationError::UnexpectedBucket);
        }
        let block: Vec<u64> = self.req_data.accessor.fetch_block(docs);
        let ghost before = self.values();
        let ghost added = distinct(self.req_data.accessor, self.req_data.column_type, block@);
        match &mut self.state {
            None => {
                return Err(AggregationError::CollectedAfterFinalization);
            },
            Some(DistinctState::Str(set)) => {
                set.extend_from_values(&block);
                proof {
                    vstd::seq_lib::seq_to_set_is_finite(block@);
                    block@.lemma_cardinality_of_set();
                    vstd::set_lib::lemma_len_union((before->0.terms->0).1, block@.to_set());
                }
            },
            Some(DistinctState::Numeric(set)) => {
                insert_salted(set, self.req_data.column_type.code(), &block);
            },
            Some(DistinctState::Ip(set)) => {
                match &self.req_data.accessor.addresses {
                    None => {
                        return Err(AggregationError::TypeMismatch);
                    },
                    Some(addresses) => {
                        insert_addresses(set, addresses, &block);
                    },
                }
            },
        }
        proof {
            assert(self.values()->0 =~= before->0.union(added));
            if self.req_data.column_type !is Str && self.req_data.column_type !is IpAddr {
                crate::aggregation::laws::lemma_every_number_is_counted_once(
                    self.req_data.accessor,
                    self.req_data.column_type,
                    docs@,
                );
            }
        }
        match self.register_growth(limits) {
            Ok(_) => Ok(()),
            Err(error) => Err(AggregationError::MemoryExceeded(error)),
        }
    }

    /// Hands the collected values out as those of the segment, under the name of the aggregation,
    /// and merges them into `results`. A collector hands its values out once, even if that fails.
    pub fn add_intermediate_aggregation_result(
        &mut self,
        limits: &mut AggregationLimits,
        results: &mut IntermediateAggregationResults,
        bucket_id: u32,
    ) -> (result: Result<(), AggregationError>)
        requires
            old(self).wf(),
            old(results).wf(),
        ensures
            final(self).wf(),
            final(results).wf(),
            final(self).spec_req_data() == old(self).spec_req_data(),
            final(self).spec_reported_bytes() == old(self).spec_reported_bytes(),
            final(self).values() == (if bucket_id != 0 {
                old(self).values()
            } else {
                None
            }),
            handed_out(
                old(self).values(),
                old(self).spec_req_data().name@,
                old(self).spec_req_data().segment_id,
                bucket_id,
                *old(limits),
                old(results)@,
                result,
                *final(limits),
                final(results)@,
            ),
            result is Ok ==> exists|entry: SegmentDistinctEntry|
                #[trigger] is_collected_entry(entry, old(self).values()->0)
                    && crate::aggregation::results::entries_pushed(
                    if old(results)@.contains_key(old(self).spec_req_data().name@) {
                        old(results).entries_under(old(self).spec_req_data().name@)
                    } else {
                        Map::empty()
                    },
                    Map::<u128, SegmentDistinctEntry>::empty().insert(
                        old(self).spec_req_data().segment_id,
                        entry,
                    ),
                    final(results).entries_under(old(self).spec_req_data().name@),
                ),
            forall|other: Seq<char>|
                other != old(self).spec_req_data().name@
                    && #[trigger] final(results)@.contains_key(other)
                    ==> final(results).entries_under(other)
                    == old(results).entries_under(other),
    {
        if bucket_id != 0 {
            return Err(AggregationError::UnexpectedBucket);
        }
        let mut state: Option<DistinctState> = None;
        std::mem::swap(&mut state, &mut self.state);
        let entry: SegmentDistinctEntry = match state {
            None => {
                return Err(AggregationError::FinalizedTwice);
            },
            Some(DistinctState::Str(set)) => {
                match limits.add_transient_memory(self.str_capacity / 8 + 64) {
                    Ok(_) => {},
                    Err(error) => {
                        return Err(AggregationError::MemoryExceeded(error));
                    },
                }
                let len: u64 = set.len() as u64;
                let ords: Vec<u64> = set.iter_ords();
                proof {
                    assert forall|i: int| 0 <= i < ords@.len() implies ords@[i]
                        < self.str_capacity by {
                        assert(ords@.to_set().contains(ords@[i]));
                    }
                }
                let terms: AdaptiveOrdSet = AdaptiveOrdSet::from_unique_ords(
                    ords,
                    len,
                    self.str_capacity,
                );
                SegmentDistinctEntry::from_sets(
                    Some(terms),
                    FxHashSet::default(),
                    FxHashSet::default(),
                )
            },
            Some(DistinctState::Numeric(set)) => {
                SegmentDistinctEntry::from_sets(None, set, FxHashSet::default())
            },
            Some(DistinctState::Ip(set)) => {
                SegmentDistinctEntry::from_sets(None, FxHashSet::default(), set)
            },
        };
        let ghost values = old(self).values()->0;
        let ghost before = results@;
        assert(entry@ =~= values);
        let ghost collected = entry;
        assert(is_collected_entry(collected, values));
        let fruit = IntermediateSegmentDistinct::from_entry(self.req_data.segment_id, entry);
        let ghost added = fruit@;
        let ghost name = self.req_data.name@;
        match results.push(self.req_data.name.clone(), fruit) {
            Ok(_) => {
                proof {
                    if before.contains_key(name) {
                        assert(crate::aggregation::segment_distinct::all_mergeable(
                            before[name],
                            added,
                        ));
                    }
                }
                Ok(())
            },
            Err(error) => {
                proof {
                    lemma_stopped_at_once(
                        before[name],
                        self.req_data.segment_id,
                        values,
                        error,
                        results@[name],
                    );
                    assert(results@ =~= before);
                }
                Err(AggregationError::CapacityMismatch(error))
            },
        }
    }

    /// Only bucket zero exists at the top level.
    pub fn prepare_max_bucket(&self, max_bucket: u32) -> (result: Result<(), AggregationError>)
        ensures
            result == (if max_bucket != 0 {
                Err(AggregationError::UnexpectedBucket)
            } else {
                Ok(())
            }),
    {
        if max_bucket != 0 {
            return Err(AggregationError::UnexpectedBucket);
        }
        Ok(())
    }

    /// There is no value to order buckets by: the bits of a number, if there were one.
    pub fn compute_metric_value(&self) -> (bits: Option<u64>)
        ensures
            bits is None,
    {
        None
    }
}

/// `entry` holds `values`; terms are kept as a bitmap where there are enough of them for it.
pub open spec fn is_collected_entry(entry: SegmentDistinctEntry, values: DistinctValues) -> bool {
    &&& entry@ == values
    &&& match (entry.spec_str_ords(), values.terms) {
        (Some(set), Some((capacity, ords))) => set.is_dense() <==> ords.len()
            * crate::aggregation::ord_set::FRUIT_PROMOTION_RATIO > capacity,
        (None, None) => true,
        _ => false,
    }
}

/// A merge of one segment that is stopped changes nothing.
proof fn lemma_stopped_at_once(
    before: crate::aggregation::segment_distinct::ValuesBySegment,
    segment_id: u128,
    values: DistinctValues,
    error: CapacityMismatch,
    after: crate::aggregation::segment_distinct::ValuesBySegment,
)
    requires
        crate::aggregation::segment_distinct::merge_stopped(
            before,
            Map::<u128, DistinctValues>::empty().insert(segment_id, values),
            error,
            after,
        ),
    ensures
        after == before,
        before.contains_key(segment_id),
        error.left == (before[segment_id].terms->0).0,
        error.right == (values.terms->0).0,
        before[segment_id].terms is Some,
        values.terms is Some,
        !crate::aggregation::segment_distinct::all_mergeable(
            before,
            Map::<u128, DistinctValues>::empty().insert(segment_id, values),
        ),
{
    let added = Map::<u128, DistinctValues>::empty().insert(segment_id, values);
    let done = choose|done: Set<u128>|
        after == crate::aggregation::segment_distinct::merged(
            before,
            #[trigger] added.restrict(done),
        ) && crate::aggregation::segment_distinct::all_mergeable(before, added.restrict(done));
    let id = choose|id: u128| #[trigger]
        before.contains_key(id) && added.contains_key(id) && {
            &&& before[id].terms matches Some((capacity, _)) && error.left == capacity
            &&& added[id].terms matches Some((capacity, _)) && error.right == capacity
            &&& error.left != error.right
        };
    assert(id == segment_id);
    assert(!before[id].mergeable(added[id]));
    if done.contains(id) {
        assert(added.restrict(done).contains_key(id));
        assert(before.contains_key(id) && added.restrict(done).contains_key(id));
    }
    assert(crate::aggregation::segment_distinct::merged(before, added.restrict(done)) =~= before);
}

/// What handing the values of a segment out under a name leads to. Turning terms into a bitmap
/// needs memory for a moment.
pub open spec fn handed_out(
    collected: Option<DistinctValues>,
    name: Seq<char>,
    segment_id: u128,
    bucket_id: u32,
    limits: AggregationLimits,
    results: crate::aggregation::results::ValuesByName,
    result: Result<(), AggregationError>,
    new_limits: AggregationLimits,
    new_results: crate::aggregation::results::ValuesByName,
) -> bool {
    let fruit = Map::<u128, DistinctValues>::empty().insert(segment_id, collected->0);
    let held = crate::aggregation::results::held_under(results, name);
    if bucket_id != 0 {
        &&& result == Err::<(), AggregationError>(AggregationError::UnexpectedBucket)
        &&& new_limits == limits
        &&& new_results == results
    } else if collected is None {
        &&& result == Err::<(), AggregationError>(AggregationError::FinalizedTwice)
        &&& new_limits == limits
        &&& new_results == results
    } else {
        let needed = match collected->0.terms {
            Some((capacity, _)) => Some(limits.after_adding((capacity / 8 + 64) as u64)),
            None => None,
        };
        &&& new_limits == (match needed {
            Some(peak) => AggregationLimits { memory_consumed: limits.memory_consumed, ..peak },
            None => limits,
        })
        &&& if needed matches Some(peak) && peak.excess() is Some {
            &&& result == Err::<(), AggregationError>(
                AggregationError::MemoryExceeded(needed->0.excess()->0),
            )
            &&& new_results == results
        } else if held matches Some(values) ==> crate::aggregation::segment_distinct::all_mergeable(
            values,
            fruit,
        ) {
            &&& result is Ok
            &&& new_results == results.insert(
                name,
                crate::aggregation::results::pushed(held, fruit),
            )
        } else {
            &&& result == Err::<(), AggregationError>(
                AggregationError::CapacityMismatch(
                    CapacityMismatch {
                        left: (results[name][segment_id].terms->0).0,
                        right: (collected->0.terms->0).0,
                    },
                ),
            )
            &&& new_results == results
        }
    }
}

/// The part of a result that is about memory.
pub open spec fn memory_result(result: Result<(), AggregationError>) -> Result<(), MemoryExceeded> {
    match result {
        Err(AggregationError::MemoryExceeded(error)) => Err(error),
        _ => Ok(()),
    }
}

/// What counting memory does when the estimate is `estimate` and `reported` has been counted
/// before: only growth is counted, and it counts as reported only if the budget allows it.
pub open spec fn growth_registered(
    estimate: nat,
    reported: u64,
    limits: AggregationLimits,
    result: Result<(), MemoryExceeded>,
    new_reported: u64,
    new_limits: AggregationLimits,
) -> bool {
    if estimate <= reported {
        result is Ok && new_reported == reported && new_limits == limits
    } else {
        &&& new_limits == limits.after_adding((estimate - reported) as u64)
        &&& match new_limits.excess() {
            Some(error) => result == Err::<(), MemoryExceeded>(error) && new_reported == reported,
            None => result is Ok && new_reported == estimate,
        }
    }
}

/// Adds `values`, each with `salt`.
fn insert_salted(set: &mut FxHashSet<(u8, u64)>, salt: u8, values: &Vec<u64>)
    requires
        old(set)@.finite(),
    ensures
        final(set)@ == old(set)@.union(
            Set::new(|value: (u8, u64)| value.0 == salt && values@.contains(value.1)),
        ),
        final(set)@.finite(),
        final(set)@.len() <= old(set)@.len() + values@.len(),
{
    let mut next: usize = 0;
    let ghost start = set@;
    while next < values.len()
        invariant
            next <= values@.len(),
            set@.finite(),
            set@.len() <= start.len() + next,
            forall|value: (u8, u64)| #[trigger]
                set@.contains(value) <==> start.contains(value) || (value.0 == salt && values@.take(
                    next as int,
                ).contains(value.1)),
        decreases values@.len() - next,
    {
        let value: u64 = values[next];
        fx_insert(set, (salt, value));
        proof {
            let shorter = values@.take(next as int);
            let longer = values@.take(next + 1);
            assert(longer =~= shorter.push(value));
            assert forall|x: u64| longer.contains(x) <==> shorter.contains(x) || x == value by {
                if shorter.contains(x) {
                    let k = choose|k: int| 0 <= k < shorter.len() && shorter[k] == x;
                    assert(longer[k] == x);
                }
                assert(longer[next as int] == value);
            }
        }
        next = next + 1;
    }
    proof {
        assert(values@.take(values@.len() as int) =~= values@);
        assert(set@ =~= start.union(
            Set::new(|value: (u8, u64)| value.0 == salt && values@.contains(value.1)),
        ));
    }
}

/// Adds the addresses that `values` stand for.
fn insert_addresses(set: &mut FxHashSet<u128>, addresses: &Vec<u128>, values: &Vec<u64>)
    requires
        old(set)@.finite(),
        forall|i: int| 0 <= i < values@.len() ==> #[trigger] values@[i] < addresses@.len(),
    ensures
        final(set)@ == old(set)@.union(
            Set::new(
                |address: u128|
                    exists|i: int|
                        0 <= i < values@.len() && address == addresses@[(#[trigger] values@[i]) as int],
            ),
        ),
        final(set)@.finite(),
        final(set)@.len() <= old(set)@.len() + values@.len(),
{
    let mut next: usize = 0;
    let ghost start = set@;
    assert(addresses@.len() == addresses.len());
    while next < values.len()
        invariant
            next <= values@.len(),
            set@.finite(),
            set@.len() <= start.len() + next,
            addresses@.len() <= usize::MAX,
            forall|i: int| 0 <= i < values@.len() ==> #[trigger] values@[i] < addresses@.len(),
            forall|address: u128| #[trigger]
                set@.contains(address) <==> start.contains(address) || exists|i: int|
                    0 <= i < next && address == addresses@[(#[trigger] values@[i]) as int],
        decreases values@.len() - next,
    {
        let value: u64 = values[next];
        assert(values@[next as int] < addresses@.len());
        let ghost before = set@;
        fx_insert(set, addresses[value as usize]);
        proof {
            assert forall|address: u128| #[trigger] set@.contains(address) <==> start.contains(
                address,
            ) || exists|i: int|
                0 <= i < next + 1 && address == addresses@[(#[trigger] values@[i]) as int] by {
                if before.contains(address) && !start.contains(address) {
                    let i = choose|i: int|
                        0 <= i < next && address == addresses@[(#[trigger] values@[i]) as int];
                    assert(0 <= i < next + 1);
                }
                if address == addresses@[value as int] {
                    assert(values@[next as int] == value);
                }
            }
        }
        next = next + 1;
    }
    proof {
        assert(set@ =~= start.union(
            Set::new(
                |address: u128|
                    exists|i: int|
                        0 <= i < values@.len() && address == addresses@[(
                        #[trigger] values@[i]) as int],
            ),
        ));
    }
}

} // verus!
