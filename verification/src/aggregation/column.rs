//! The values of a field, by document.

use vstd::prelude::*;

verus! {

/// The type of the values of a column.
#[derive(Clone, Copy, Debug, PartialEq, Eq, Structural)]
pub enum ColumnType {
    I64,
    U64,
    F64,
    Bytes,
    Str,
    Bool,
    IpAddr,
    DateTime,
}

impl ColumnType {
    /// The number that stands for this type.
    pub open spec fn spec_code(self) -> u8 {
        match self {
            ColumnType::I64 => 0,
            ColumnType::U64 => 1,
            ColumnType::F64 => 2,
            ColumnType::Bytes => 3,
            ColumnType::Str => 4,
            ColumnType::Bool => 5,
            ColumnType::IpAddr => 6,
            ColumnType::DateTime => 7,
        }
    }

    /// The number that stands for this type.
    pub fn code(self) -> (code: u8)
        ensures
            code == self.spec_code(),
    {
        match self {
            ColumnType::I64 => 0,
            ColumnType::U64 => 1,
            ColumnType::F64 => 2,
            ColumnType::Bytes => 3,
            ColumnType::Str => 4,
            ColumnType::Bool => 5,
            ColumnType::IpAddr => 6,
            ColumnType::DateTime => 7,
        }
    }

    /// Different types have different numbers.
    pub proof fn lemma_codes_differ(self, other: ColumnType)
        ensures
            self.spec_code() == other.spec_code() <==> self == other,
    {
    }
}

/// The values of a field for the documents of a segment, as integers that are ordered as the
/// values are: terms by their position in the dictionary, addresses by their position in a table.
#[derive(Clone, Debug)]
pub struct Column {
    /// The values of each document.
    pub rows: Vec<Vec<u64>>,
    /// No value is larger.
    pub max_value: u64,
    /// The address that each value stands for, in a column of addresses.
    pub addresses: Option<Vec<u128>>,
}

/// The values of `docs`, one document behind the other.
pub open spec fn values_of(column: Column, docs: Seq<u32>) -> Seq<u64>
    decreases docs.len(),
{
    if docs.len() == 0 {
        Seq::empty()
    } else {
        values_of(column, docs.drop_last()) + column.rows@[docs.last() as int]@
    }
}

/// The values of two runs of documents are the values of the documents behind each other.
pub proof fn lemma_values_of_concat(column: Column, left: Seq<u32>, right: Seq<u32>)
    ensures
        values_of(column, left + right) == values_of(column, left) + values_of(column, right),
    decreases right.len(),
{
    if right.len() == 0 {
        assert(left + right =~= left);
        assert(values_of(column, left) + values_of(column, right) =~= values_of(column, left));
    } else {
        lemma_values_of_concat(column, left, right.drop_last());
        assert((left + right).drop_last() =~= left + right.drop_last());
        assert(values_of(column, left + right) =~= values_of(column, left) + values_of(
            column,
            right,
        ));
    }
}

impl Column {
    /// No value is larger than the largest one.
    pub open spec fn wf(self) -> bool {
        forall|doc: int, i: int|
            0 <= doc < self.rows@.len() && 0 <= i < self.rows@[doc]@.len()
                ==> #[trigger] self.rows@[doc]@[i] <= self.max_value
    }

    /// Values are positions in the table of addresses.
    pub open spec fn has_addresses(self) -> bool {
        self.addresses matches Some(addresses) ==> forall|doc: int, i: int|
            0 <= doc < self.rows@.len() && 0 <= i < self.rows@[doc]@.len()
                ==> #[trigger] self.rows@[doc]@[i] < addresses@.len()
    }

    /// All of `docs` are documents of the segment.
    pub open spec fn has_docs(self, docs: Seq<u32>) -> bool {
        forall|i: int| 0 <= i < docs.len() ==> #[trigger] docs[i] < self.rows@.len()
    }

    /// The values of `docs`, one document behind the other.
    pub fn fetch_block(&self, docs: &[u32]) -> (values: Vec<u64>)
        requires
            self.wf(),
            self.has_docs(docs@),
        ensures
            values@ == values_of(*self, docs@),
            forall|i: int| 0 <= i < values@.len() ==> #[trigger] values@[i] <= self.max_value,
            self.has_addresses() && self.addresses is Some ==> forall|i: int|
                0 <= i < values@.len() ==> #[trigger] values@[i] < self.addresses->0@.len(),
    {
        let mut values: Vec<u64> = Vec::new();
        let mut next: usize = 0;
        while next < docs.len()
            invariant
                next <= docs@.len(),
                self.wf(),
                self.has_docs(docs@),
                values@ == values_of(*self, docs@.take(next as int)),
                forall|i: int| 0 <= i < values@.len() ==> #[trigger] values@[i] <= self.max_value,
                self.has_addresses() && self.addresses is Some ==> forall|i: int|
                    0 <= i < values@.len() ==> #[trigger] values@[i] < self.addresses->0@.len(),
            decreases docs@.len() - next,
        {
            let ghost before = values@;
            let doc: usize = docs[next] as usize;
            assert(docs@[next as int] < self.rows@.len());
            let row: &Vec<u64> = &self.rows[doc];
            values.extend_from_slice(row.as_slice());
            proof {
                assert(values@ =~= before + row@);
                assert(docs@.take(next + 1).drop_last() =~= docs@.take(next as int));
                assert forall|i: int| 0 <= i < values@.len() implies #[trigger] values@[i]
                    <= self.max_value by {
                    if i >= before.len() {
                        assert(self.rows@[doc as int]@[i - before.len()] <= self.max_value);
                    } else {
                        assert(before[i] <= self.max_value);
                    }
                }
                if self.has_addresses() && self.addresses is Some {
                    assert forall|i: int| 0 <= i < values@.len() implies #[trigger] values@[i]
                        < self.addresses->0@.len() by {
                        if i >= before.len() {
                            assert(self.rows@[doc as int]@[i - before.len()]
                                < self.addresses->0@.len());
                        } else {
                            assert(before[i] < self.addresses->0@.len());
                        }
                    }
                }
            }
            next = next + 1;
        }
        assert(docs@.take(docs@.len() as int) =~= docs@);
        values
    }
}

} // verus!
