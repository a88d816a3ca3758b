//! Collecting documents into blocks.

use vstd::bytes::u32_to_le_bytes;
use vstd::prelude::*;

use crate::error::{StoreError, TantivyError};
use crate::store::codec::Compressor;
use crate::store::contents::StoreContents;
use crate::store::layout::StoreFile;
use crate::store::reader::StoreReader;
use crate::store::store_compressor::BlockCompressor;
use crate::store::version::{DocStoreVersion, DOC_STORE_VERSION};
use crate::store::block_trailer::BlockFieldRemap;

verus! {

/// The documents, one behind the other.
pub open spec fn joined(docs: Seq<Seq<u8>>) -> Seq<u8>
    decreases docs.len(),
{
    if docs.len() == 0 {
        Seq::empty()
    } else {
        joined(docs.drop_last()) + docs.last()
    }
}

/// Where document number `index` starts among the joined documents.
pub open spec fn start_of(docs: Seq<Seq<u8>>, index: int) -> nat {
    joined(docs.take(index)).len()
}

/// The positions of the first `count` documents, four bytes each.
pub open spec fn positions(docs: Seq<Seq<u8>>, count: nat) -> Seq<u8>
    decreases count,
{
    if count == 0 {
        Seq::empty()
    } else {
        positions(docs, (count - 1) as nat) + vstd::bytes::spec_u32_to_le_bytes(
            start_of(docs, count - 1) as u32,
        )
    }
}

/// A block: the documents, their positions and their number.
pub open spec fn encode_block(docs: Seq<Seq<u8>>) -> Seq<u8> {
    joined(docs) + positions(docs, docs.len()) + vstd::bytes::spec_u32_to_le_bytes(
        docs.len() as u32,
    )
}

proof fn lemma_positions(docs: Seq<Seq<u8>>, count: nat)
    ensures
        positions(docs, count).len() == 4 * count,
        forall|i: int|
            0 <= i < count ==> #[trigger] positions(docs, count).subrange(4 * i, 4 * i + 4)
                == vstd::bytes::spec_u32_to_le_bytes(start_of(docs, i) as u32),
    decreases count,
{
    vstd::bytes::lemma_auto_spec_u32_to_from_le_bytes();
    if count > 0 {
        let rest = positions(docs, (count - 1) as nat);
        let last = vstd::bytes::spec_u32_to_le_bytes(start_of(docs, count - 1) as u32);
        let all = positions(docs, count);
        lemma_positions(docs, (count - 1) as nat);
        assert forall|i: int| 0 <= i < count implies #[trigger] all.subrange(4 * i, 4 * i + 4)
            == vstd::bytes::spec_u32_to_le_bytes(start_of(docs, i) as u32) by {
            if i < count - 1 {
                assert(all.subrange(4 * i, 4 * i + 4) =~= rest.subrange(4 * i, 4 * i + 4));
            } else {
                assert(all.subrange(4 * i, 4 * i + 4) =~= last);
            }
        }
    }
}

/// Documents start one behind the other, and each can be cut out of the joined documents.
proof fn lemma_joined(docs: Seq<Seq<u8>>, index: int)
    requires
        0 <= index < docs.len(),
    ensures
        start_of(docs, index) + docs[index].len() == start_of(docs, index + 1),
        start_of(docs, index + 1) <= joined(docs).len(),
        joined(docs).subrange(
            start_of(docs, index) as int,
            start_of(docs, index + 1) as int,
        ) == docs[index],
        start_of(docs, docs.len() as int) == joined(docs).len(),
    decreases docs.len(),
{
    assert(docs.take(docs.len() as int) =~= docs);
    let longer = docs.take(index + 1);
    assert(longer.drop_last() =~= docs.take(index));
    assert(longer.last() == docs[index]);
    if index < docs.len() - 1 {
        let rest = docs.drop_last();
        lemma_joined(rest, index);
        assert(rest.take(index) =~= docs.take(index));
        assert(rest.take(index + 1) =~= docs.take(index + 1));
        assert(joined(docs).subrange(
            start_of(docs, index) as int,
            start_of(docs, index + 1) as int,
        ) =~= joined(rest).subrange(
            start_of(rest, index) as int,
            start_of(rest, index + 1) as int,
        ));
    } else {
        assert(docs.take(index) =~= docs.drop_last());
        assert(joined(docs).subrange(
            start_of(docs, index) as int,
            joined(docs).len() as int,
        ) =~= docs[index]);
    }
}

proof fn lemma_starts_ordered(docs: Seq<Seq<u8>>, i: int, j: int)
    requires
        0 <= i <= j <= docs.len(),
    ensures
        start_of(docs, i) <= start_of(docs, j) <= joined(docs).len(),
    decreases j - i,
{
    assert(docs.take(docs.len() as int) =~= docs);
    if i < j {
        lemma_joined(docs, j - 1);
        lemma_starts_ordered(docs, i, j - 1);
    } else if i < docs.len() {
        lemma_joined(docs, i);
    }
}

/// The documents of a block are read back from it, each under its number.
pub proof fn lemma_encoded_block(docs: Seq<Seq<u8>>)
    requires
        joined(docs).len() <= u32::MAX,
        docs.len() <= u32::MAX,
    ensures
        crate::store::contents::is_readable_block(encode_block(docs)),
        crate::store::contents::index_len(encode_block(docs)) == docs.len(),
        encode_block(docs).len() == joined(docs).len() + 4 * docs.len() + 4,
        forall|i: u32|
            i < docs.len() ==> #[trigger] crate::store::contents::doc_in_block(
                encode_block(docs),
                i,
            ) == Ok::<_, TantivyError>(docs[i as int]),
{
    vstd::bytes::lemma_auto_spec_u32_to_from_le_bytes();
    let block = encode_block(docs);
    let count = docs.len();
    lemma_positions(docs, count);
    assert(block.subrange(block.len() - 4, block.len() - 4 + 4)
        =~= vstd::bytes::spec_u32_to_le_bytes(count as u32));
    assert(crate::store::contents::index_len(block) == count);
    assert(crate::store::contents::index_start(block) == joined(docs).len());
    assert forall|i: int| 0 <= i < count implies #[trigger] crate::store::contents::doc_offset(
        block,
        i,
    ) == start_of(docs, i) by {
        let at = joined(docs).len() + 4 * i;
        assert(block.subrange(at, at + 4) =~= positions(docs, count).subrange(4 * i, 4 * i + 4));
        lemma_starts_ordered(docs, i, count as int);
    }
    assert forall|i: int, j: int|
        0 <= i < j < count implies #[trigger] crate::store::contents::doc_offset(block, i)
        <= #[trigger] crate::store::contents::doc_offset(block, j) by {
        lemma_starts_ordered(docs, i, j);
    }
    assert forall|i: int| 0 <= i < count implies #[trigger] crate::store::contents::doc_offset(
        block,
        i,
    ) <= crate::store::contents::index_start(block) by {
        lemma_starts_ordered(docs, i, count as int);
    }
    assert forall|i: u32|
        i < docs.len() implies #[trigger] crate::store::contents::doc_in_block(block, i) == Ok::<
        _,
        TantivyError,
    >(docs[i as int]) by {
        lemma_joined(docs, i as int);
        assert(crate::store::contents::doc_offset(block, i as int) == start_of(docs, i as int));
        if i + 1 < count {
            assert(crate::store::contents::doc_offset(block, i + 1) == start_of(docs, i + 1));
        }
        let start = start_of(docs, i as int) as int;
        let end = start_of(docs, i + 1) as int;
        assert(block.subrange(start, end) =~= joined(docs).subrange(start, end));
    }
}

/// Where a document starts in its block, where it ends, and that it lies in between.
pub(crate) proof fn lemma_positions_of_docs(docs: Seq<Seq<u8>>, index: int)
    requires
        joined(docs).len() <= u32::MAX,
        docs.len() <= u32::MAX,
        0 <= index < docs.len(),
    ensures
        ({
            let block = encode_block(docs);
            let list = joined(docs).len() as int;
            &&& vstd::bytes::spec_u32_from_le_bytes(
                block.subrange(list + 4 * index, list + 4 * index + 4),
            ) == start_of(docs, index)
            &&& index + 1 < docs.len() ==> vstd::bytes::spec_u32_from_le_bytes(
                block.subrange(list + 4 * (index + 1), list + 4 * (index + 1) + 4),
            ) == start_of(docs, index + 1)
            &&& start_of(docs, 0) == 0
            &&& start_of(docs, index) + docs[index].len() == start_of(docs, index + 1)
            &&& start_of(docs, index + 1) <= list
            &&& start_of(docs, docs.len() as int) == list
            &&& block.subrange(
                start_of(docs, index) as int,
                start_of(docs, index + 1) as int,
            ) == docs[index]
        }),
{
    vstd::bytes::lemma_auto_spec_u32_to_from_le_bytes();
    let block = encode_block(docs);
    let list = joined(docs).len() as int;
    lemma_positions(docs, docs.len());
    lemma_joined(docs, index);
    assert(docs.take(0) =~= Seq::empty());
    assert(block.subrange(list + 4 * index, list + 4 * index + 4) =~= positions(
        docs,
        docs.len(),
    ).subrange(4 * index, 4 * index + 4));
    if index + 1 < docs.len() {
        lemma_joined(docs, index + 1);
        assert(block.subrange(list + 4 * (index + 1), list + 4 * (index + 1) + 4) =~= positions(
            docs,
            docs.len(),
        ).subrange(4 * (index + 1), 4 * (index + 1) + 4));
    }
    assert(block.subrange(start_of(docs, index) as int, start_of(docs, index + 1) as int)
        =~= joined(docs).subrange(start_of(docs, index) as int, start_of(docs, index + 1) as int));
}

/// The number of bytes that a document adds to its block besides its own, for deciding when a
/// block is full.
pub const INDEX_ENTRY_LEN: u64 = 8;

/// What a writer holds: a store, and documents that are not in a block yet.
pub struct WriterState {
    pub contents: StoreContents,
    pub pending: Seq<Seq<u8>>,
}

impl WriterState {
    /// The number of documents.
    pub open spec fn num_docs(self) -> nat {
        self.contents.layout.num_docs() as nat + self.pending.len()
    }

    /// Document number `doc`, with the remap of its block.
    pub open spec fn doc(self, doc: u32) -> Result<(Seq<u8>, Map<u32, u32>), TantivyError> {
        if doc < self.contents.layout.num_docs() {
            self.contents.doc(doc)
        } else {
            Ok((self.pending[doc - self.contents.layout.num_docs()], Map::empty()))
        }
    }

    /// `after` is this state with the pending documents written as a block, if there are any.
    pub open spec fn flushed_is(self, after: WriterState, compressor: Compressor) -> bool {
        if self.pending.len() == 0 {
            after == self
        } else {
            &&& after.pending == Seq::<Seq<u8>>::empty()
            &&& after.contents.version == self.contents.version
            &&& after.contents.decompressor == self.contents.decompressor
            &&& crate::store::store_compressor::is_block_written(
                self.contents.layout,
                after.contents.layout,
                compressor,
                self.contents.version,
                encode_block(self.pending),
                self.pending.len() as u32,
            )
        }
    }

    /// `after` is this state with one more document; a block that has become larger than
    /// `block_size` is written.
    pub open spec fn with_doc_is(
        self,
        doc: Seq<u8>,
        after: WriterState,
        compressor: Compressor,
        block_size: usize,
    ) -> bool {
        let longer = WriterState { pending: self.pending.push(doc), ..self };
        if joined(longer.pending).len() + INDEX_ENTRY_LEN * longer.pending.len() > block_size {
            longer.flushed_is(after, compressor)
        } else {
            after == longer
        }
    }

    /// Whether one more document can be taken: positions and document numbers have four bytes,
    /// and the block can be compressed.
    pub open spec fn has_room(self, doc: Seq<u8>, compressor: Compressor) -> bool {
        let pending = self.pending.push(doc);
        &&& joined(pending).len() <= u32::MAX
        &&& self.contents.layout.num_docs() + pending.len() <= u32::MAX
        &&& compressor.accepts(joined(pending).len() + 4 * pending.len() + 4)
    }

    /// `later` holds the same documents, and maybe more.
    pub open spec fn kept_in(self, later: WriterState) -> bool {
        &&& self.num_docs() <= later.num_docs()
        &&& forall|doc: u32| doc < self.num_docs() ==> #[trigger] later.doc(doc) == self.doc(doc)
    }
}

/// Writing the pending documents as a block keeps all documents, each under its number. A sound
/// store stays sound, and a valid one valid.
pub proof fn lemma_flushing_keeps_docs(
    before: WriterState,
    after: WriterState,
    compressor: Compressor,
)
    requires
        before.flushed_is(after, compressor),
        before.contents.layout.wf(),
        before.contents.decompressor == compressor.spec_decompressor(),
        joined(before.pending).len() <= u32::MAX,
        before.num_docs() <= u32::MAX,
        after.contents.layout.data.len() <= usize::MAX,
    ensures
        before.kept_in(after),
        after.num_docs() == before.num_docs(),
        after.contents.layout.wf(),
        before.contents.sound() ==> after.contents.sound(),
        before.contents.valid() ==> after.contents.valid(),
{
    let docs = before.pending;
    if docs.len() > 0 {
        let version = before.contents.version;
        let data = encode_block(docs);
        let num_docs = docs.len() as u32;
        let payload = choose|payload: Seq<u8>| #[trigger]
            compressor.is_payload(payload, data) && after.contents.layout
                == before.contents.layout.append_block(
                crate::store::store_compressor::written_block(version, payload),
                num_docs,
            );
        let block = crate::store::store_compressor::written_block(version, payload);
        lemma_encoded_block(docs);
        crate::store::store_compressor::lemma_written_block(compressor, version, payload, data);
        crate::store::laws::lemma_append_docs(before.contents, block, num_docs);
        assert(after.contents == StoreContents {
            layout: before.contents.layout.append_block(block, num_docs),
            ..before.contents
        });
        assert forall|doc: u32| doc < before.num_docs() implies #[trigger] after.doc(doc)
            == before.doc(doc) by {
            if doc >= before.contents.layout.num_docs() {
                let index = (doc - before.contents.layout.num_docs()) as u32;
                assert(crate::store::contents::doc_in_block(data, index) == Ok::<_, TantivyError>(
                    docs[index as int],
                ));
            }
        }
    }
}

/// Without compression, the same documents always give the same bytes.
pub proof fn lemma_plain_bytes_are_fixed(before: WriterState, one: WriterState, other: WriterState)
    requires
        before.flushed_is(one, Compressor::Uncompressed),
        before.flushed_is(other, Compressor::Uncompressed),
    ensures
        one == other,
        before.pending.len() > 0 ==> one.contents.layout == before.contents.layout.append_block(
            crate::store::store_compressor::written_block(
                before.contents.version,
                encode_block(before.pending),
            ),
            before.pending.len() as u32,
        ),
{
}

impl WriterState {
    /// The blocks are in order and of this compression, and document numbers and positions can be
    /// counted.
    pub open spec fn in_order(self, compressor: Compressor) -> bool {
        &&& self.contents.layout.wf()
        &&& self.contents.layout.data.len() <= usize::MAX
        &&& self.contents.decompressor == compressor.spec_decompressor()
        &&& joined(self.pending).len() <= u32::MAX
        &&& self.num_docs() <= u32::MAX
    }

    /// `after` is this state with the pending documents written and `source` stacked behind them.
    pub open spec fn stacked_is(
        self,
        after: WriterState,
        source: StoreContents,
        renames: Option<Map<u32, u32>>,
        compressor: Compressor,
        result: Result<(), StoreError>,
    ) -> bool {
        exists|flushed: WriterState| #[trigger]
            self.flushed_is(flushed, compressor) && {
                let stacked = crate::store::laws::stack_outcome(flushed.contents, source, renames);
                &&& after.pending == Seq::<Seq<u8>>::empty()
                &&& after.contents == crate::store::laws::stacked_contents(
                    flushed.contents,
                    stacked,
                )
                &&& crate::store::store_compressor::outcome(result) == stacked.error
            }
    }

    /// The documents of `source` are in `after` behind those of this state, with changed remaps.
    pub open spec fn followed_in(
        self,
        after: WriterState,
        source: StoreContents,
        changed: spec_fn(Map<u32, u32>) -> Map<u32, u32>,
    ) -> bool {
        forall|doc: u32|
            doc < source.layout.num_docs() ==> after.doc((self.num_docs() + doc) as u32)
                == crate::store::laws::doc_with_map(#[trigger] source.doc(doc), changed)
    }
}

/// Storing a document keeps all documents, each under its number, and adds it behind them.
pub proof fn lemma_storing_adds_doc(
    before: WriterState,
    doc: Seq<u8>,
    after: WriterState,
    compressor: Compressor,
    block_size: usize,
)
    requires
        before.in_order(compressor),
        before.has_room(doc, compressor),
        before.with_doc_is(doc, after, compressor, block_size),
        after.contents.layout.data.len() <= usize::MAX,
    ensures
        after.in_order(compressor),
        before.kept_in(after),
        after.num_docs() == before.num_docs() + 1,
        after.doc(before.num_docs() as u32) == Ok::<_, TantivyError>(
            (doc, Map::<u32, u32>::empty()),
        ),
{
    let longer = WriterState { pending: before.pending.push(doc), ..before };
    assert(before.kept_in(longer));
    if joined(longer.pending).len() + INDEX_ENTRY_LEN * longer.pending.len() > block_size {
        lemma_flushing_keeps_docs(longer, after, compressor);
        assert(after.doc(before.num_docs() as u32) == longer.doc(before.num_docs() as u32));
        assert(after.pending.len() == 0);
        assert forall|other: u32| other < before.num_docs() implies #[trigger] after.doc(other)
            == before.doc(other) by {
            assert(longer.doc(other) == before.doc(other));
        }
    }
}

/// The step from one state to the next stores a document.
pub open spec fn stores_doc(
    states: Seq<WriterState>,
    docs: Seq<Seq<u8>>,
    step: int,
    compressor: Compressor,
    block_size: usize,
) -> bool {
    &&& states[step].has_room(docs[step], compressor)
    &&& states[step].with_doc_is(docs[step], states[step + 1], compressor, block_size)
    &&& states[step + 1].contents.layout.data.len() <= usize::MAX
}

/// What was stored one after the other is read back from the closed store, each document under
/// its number, together with everything that was there before.
pub proof fn lemma_written_docs_are_read(
    states: Seq<WriterState>,
    docs: Seq<Seq<u8>>,
    closed_state: WriterState,
    compressor: Compressor,
    block_size: usize,
)
    requires
        states.len() == docs.len() + 1,
        states[0].in_order(compressor),
        forall|step: int|
            0 <= step < docs.len() ==> #[trigger] stores_doc(
                states,
                docs,
                step,
                compressor,
                block_size,
            ),
        states.last().flushed_is(closed_state, compressor),
        closed_state.contents.layout.data.len() <= usize::MAX,
    ensures
        closed_state.pending.len() == 0,
        closed_state.num_docs() == states[0].num_docs() + docs.len(),
        states[0].kept_in(closed_state),
        forall|i: int|
            0 <= i < docs.len() ==> closed_state.contents.doc(
                (states[0].num_docs() + i) as u32,
            ) == Ok::<_, TantivyError>((#[trigger] docs[i], Map::<u32, u32>::empty())),
{
    lemma_stored_docs(states, docs, docs.len(), compressor, block_size);
    let last = states[docs.len() as int];
    lemma_flushing_keeps_docs(last, closed_state, compressor);
    assert forall|doc: u32| doc < states[0].num_docs() implies #[trigger] closed_state.doc(doc)
        == states[0].doc(doc) by {
        assert(last.doc(doc) == states[0].doc(doc));
    }
    assert forall|i: int| 0 <= i < docs.len() implies closed_state.contents.doc(
        (states[0].num_docs() + i) as u32,
    ) == Ok::<_, TantivyError>((#[trigger] docs[i], Map::<u32, u32>::empty())) by {
        let doc = (states[0].num_docs() + i) as u32;
        assert(closed_state.doc(doc) == last.doc(doc));
    }
}

proof fn lemma_stored_docs(
    states: Seq<WriterState>,
    docs: Seq<Seq<u8>>,
    count: nat,
    compressor: Compressor,
    block_size: usize,
)
    requires
        states.len() == docs.len() + 1,
        states[0].in_order(compressor),
        count <= docs.len(),
        forall|step: int|
            0 <= step < docs.len() ==> #[trigger] stores_doc(
                states,
                docs,
                step,
                compressor,
                block_size,
            ),
    ensures
        states[count as int].in_order(compressor),
        states[count as int].num_docs() == states[0].num_docs() + count,
        states[0].kept_in(states[count as int]),
        forall|i: int|
            0 <= i < count ==> states[count as int].doc((states[0].num_docs() + i) as u32) == Ok::<
                _,
                TantivyError,
            >((#[trigger] docs[i], Map::<u32, u32>::empty())),
    decreases count,
{
    if count > 0 {
        lemma_stored_docs(states, docs, (count - 1) as nat, compressor, block_size);
        let before = states[count - 1];
        let after = states[count as int];
        assert(stores_doc(states, docs, count - 1, compressor, block_size));
        lemma_storing_adds_doc(before, docs[count - 1], after, compressor, block_size);
        assert forall|doc: u32| doc < states[0].num_docs() implies #[trigger] after.doc(doc)
            == states[0].doc(doc) by {
            assert(after.doc(doc) == before.doc(doc));
        }
        assert forall|i: int| 0 <= i < count implies after.doc(
            (states[0].num_docs() + i) as u32,
        ) == Ok::<_, TantivyError>((#[trigger] docs[i], Map::<u32, u32>::empty())) by {
            if i < count - 1 {
                let doc = (states[0].num_docs() + i) as u32;
                assert(after.doc(doc) == before.doc(doc));
            }
        }
    }
}

/// Writes documents to a store.
pub struct StoreWriter {
    block_compressor: BlockCompressor,
    compressor: Compressor,
    block_size: usize,
    current_block: Vec<u8>,
    doc_pos: Vec<u32>,
    pending: Ghost<Seq<Seq<u8>>>,
}

impl View for StoreWriter {
    type V = WriterState;

    closed spec fn view(&self) -> WriterState {
        WriterState {
            contents: StoreContents {
                layout: self.block_compressor@,
                decompressor: self.compressor.spec_decompressor(),
                version: self.block_compressor.version(),
            },
            pending: self.pending@,
        }
    }
}

impl StoreWriter {
    /// The compression of new blocks.
    pub closed spec fn spec_compressor(self) -> Compressor {
        self.compressor
    }

    /// The size from which on a block is written.
    pub closed spec fn spec_block_size(self) -> usize {
        self.block_size
    }

    /// The buffers hold the pending documents, and these fit a block.
    pub closed spec fn wf(self) -> bool {
        let pending = self.pending@;
        &&& self.block_compressor.wf()
        &&& self.block_compressor.spec_compressor() == self.compressor
        &&& self.current_block@ == joined(pending)
        &&& self.doc_pos@.len() == pending.len()
        &&& forall|i: int|
            0 <= i < pending.len() ==> #[trigger] self.doc_pos@[i] == start_of(pending, i)
        &&& joined(pending).len() <= u32::MAX
        &&& self.block_compressor@.num_docs() + pending.len() <= u32::MAX
        &&& pending.len() > 0 ==> self.compressor.accepts(
            joined(pending).len() + 4 * pending.len() + 4,
        )
    }

    /// The blocks are in order, and document numbers and positions can be counted.
    pub proof fn lemma_wf(self)
        requires
            self.wf(),
        ensures
            self@.in_order(self.spec_compressor()),
    {
        self.block_compressor.lemma_wf();
    }

    /// A writer for an empty store in the current format.
    pub fn new(compressor: Compressor, block_size: usize) -> (writer: StoreWriter)
        ensures
            writer.wf(),
            writer@ == (WriterState {
                contents: StoreContents {
                    layout: crate::store::layout::StoreLayout::empty(),
                    decompressor: compressor.spec_decompressor(),
                    version: DOC_STORE_VERSION,
                },
                pending: Seq::empty(),
            }),
            writer@.contents.valid(),
            writer.spec_compressor() == compressor,
            writer.spec_block_size() == block_size,
    {
        Self::new_with_version(compressor, block_size, DOC_STORE_VERSION)
    }

    /// A writer for an empty store in the format `output_version`.
    pub fn new_with_version(
        compressor: Compressor,
        block_size: usize,
        output_version: DocStoreVersion,
    ) -> (writer: StoreWriter)
        ensures
            writer.wf(),
            writer@ == (WriterState {
                contents: StoreContents {
                    layout: crate::store::layout::StoreLayout::empty(),
                    decompressor: compressor.spec_decompressor(),
                    version: output_version,
                },
                pending: Seq::empty(),
            }),
            writer@.contents.valid(),
            writer.spec_compressor() == compressor,
            writer.spec_block_size() == block_size,
    {
        StoreWriter {
            block_compressor: BlockCompressor::new_with_version(compressor, output_version),
            compressor,
            block_size,
            current_block: Vec::new(),
            doc_pos: Vec::new(),
            pending: Ghost(Seq::empty()),
        }
    }

    /// Writes the pending documents as a block, if there are any.
    fn send_current_block_to_compressor(&mut self)
        requires
            old(self).wf(),
        ensures
            final(self).wf(),
            final(self).spec_compressor() == old(self).spec_compressor(),
            final(self).spec_block_size() == old(self).spec_block_size(),
            old(self)@.flushed_is(final(self)@, old(self).spec_compressor()),
            final(self)@.pending.len() == 0,
            old(self)@.kept_in(final(self)@),
            final(self)@.num_docs() == old(self)@.num_docs(),
            old(self)@.contents.sound() ==> final(self)@.contents.sound(),
            old(self)@.contents.valid() ==> final(self)@.contents.valid(),
    {
        if self.doc_pos.len() == 0 {
            assert(self.pending@ =~= Seq::empty());
            return;
        }
        let ghost docs = self.pending@;
        let ghost before = self@;
        let num_docs: u32 = self.doc_pos.len() as u32;
        let mut next: usize = 0;
        while next < self.doc_pos.len()
            invariant
                next <= self.doc_pos@.len(),
                self.doc_pos@.len() == docs.len(),
                forall|i: int|
                    0 <= i < docs.len() ==> #[trigger] self.doc_pos@[i] == start_of(docs, i),
                self.current_block@ == joined(docs) + positions(docs, next as nat),
                self.block_compressor == old(self).block_compressor,
                self.compressor == old(self).compressor,
                self.block_size == old(self).block_size,
                self.pending == old(self).pending,
            decreases self.doc_pos@.len() - next,
        {
            let mut position: Vec<u8> = u32_to_le_bytes(self.doc_pos[next]);
            assert(self.doc_pos@[next as int] == start_of(docs, next as int));
            self.current_block.append(&mut position);
            next = next + 1;
            assert(self.current_block@ =~= joined(docs) + positions(docs, next as nat));
        }
        let mut count: Vec<u8> = u32_to_le_bytes(num_docs);
        self.current_block.append(&mut count);
        assert(self.current_block@ =~= encode_block(docs));
        proof {
            lemma_encoded_block(docs);
        }
        let written = self.block_compressor.compress_block_and_write(
            self.current_block.as_slice(),
            num_docs,
        );
        proof {
            old(self).block_compressor.lemma_wf();
            self.block_compressor.lemma_wf();
            let after = WriterState {
                contents: StoreContents { layout: self.block_compressor@, ..before.contents },
                pending: Seq::empty(),
            };
            assert(before.flushed_is(after, self.compressor));
            lemma_flushing_keeps_docs(before, after, self.compressor);
        }
        self.current_block = Vec::new();
        self.doc_pos = Vec::new();
        self.pending = Ghost(Seq::empty());
    }

    /// Stores a document, given as its encoded bytes.
    pub fn store_bytes(&mut self, serialized_document: &[u8]) -> (result: Result<(), StoreError>)
        requires
            old(self).wf(),
            old(self)@.has_room(serialized_document@, old(self).spec_compressor()),
        ensures
            final(self).wf(),
            final(self).spec_compressor() == old(self).spec_compressor(),
            final(self).spec_block_size() == old(self).spec_block_size(),
            result is Ok,
            old(self)@.with_doc_is(
                serialized_document@,
                final(self)@,
                old(self).spec_compressor(),
                old(self).spec_block_size(),
            ),
            old(self)@.kept_in(final(self)@),
            final(self)@.num_docs() == old(self)@.num_docs() + 1,
            final(self)@.doc(old(self)@.num_docs() as u32) == Ok::<_, TantivyError>(
                (serialized_document@, Map::<u32, u32>::empty()),
            ),
            old(self)@.contents.sound() ==> final(self)@.contents.sound(),
            old(self)@.contents.valid() ==> final(self)@.contents.valid(),
    {
        let ghost docs = self.pending@;
        let ghost longer = docs.push(serialized_document@);
        proof {
            assert(longer.drop_last() =~= docs);
            assert(longer.take(docs.len() as int) =~= docs);
        }
        self.doc_pos.push(self.current_block.len() as u32);
        self.current_block.extend_from_slice(serialized_document);
        self.pending = Ghost(longer);
        proof {
            assert(self.current_block@ =~= joined(longer));
            assert forall|i: int| 0 <= i < longer.len() implies #[trigger] self.doc_pos@[i]
                == start_of(longer, i) by {
                if i < docs.len() {
                    assert(old(self).doc_pos@[i] == start_of(docs, i));
                    assert(docs.take(i) =~= longer.take(i));
                }
            }
        }
        let ghost middle = self@;
        assert(old(self)@.kept_in(middle));
        let size: u64 = self.current_block.len() as u64 + INDEX_ENTRY_LEN
            * self.doc_pos.len() as u64;
        if size > self.block_size as u64 {
            self.send_current_block_to_compressor();
            assert(self@.doc(old(self)@.num_docs() as u32) == middle.doc(
                old(self)@.num_docs() as u32,
            ));
        }
        Ok(())
    }

    /// Writes the pending documents and ends the store.
    pub fn close(self) -> (result: Result<StoreFile, StoreError>)
        requires
            self.wf(),
        ensures
            result matches Ok(store_file) && {
                &&& self@.flushed_is(
                    WriterState { contents: store_file.contents(), pending: Seq::empty() },
                    self.spec_compressor(),
                )
                &&& store_file.contents().layout.num_docs() == self@.num_docs()
                &&& forall|doc: u32|
                    doc < self@.num_docs() ==> #[trigger] store_file.contents().doc(doc)
                        == self@.doc(doc)
                &&& store_file.contents().layout.wf()
                &&& store_file.footer.offset == store_file.data@.len()
                &&& self@.contents.sound() ==> store_file.contents().sound()
                &&& self@.contents.valid() ==> store_file.contents().valid()
            },
    {
        let mut writer = self;
        let ghost before = writer@;
        writer.send_current_block_to_compressor();
        let ghost after = writer@;
        proof {
            assert forall|doc: u32| doc < before.num_docs() implies #[trigger] after.contents.doc(doc)
                == before.doc(doc) by {
                assert(after.doc(doc) == before.doc(doc));
            }
        }
        let store_file: StoreFile = writer.block_compressor.close();
        proof {
            writer.block_compressor.lemma_wf();
            assert(after.pending =~= Seq::empty());
            assert(after == WriterState { contents: store_file.contents(), pending: Seq::empty() });
        }
        Ok(store_file)
    }

    /// Writes the pending documents and stacks another store behind them. After an error, the
    /// blocks before the one that caused it have been stacked.
    pub fn stack(&mut self, store_reader: StoreReader) -> (result: Result<(), StoreError>)
        requires
            old(self).wf(),
            crate::store::laws::stacking_is_refused(
                old(self)@.contents.version,
                store_reader@.version,
                None,
            ) || old(self)@.num_docs() + store_reader@.layout.num_docs() <= u32::MAX,
        ensures
            final(self).wf(),
            final(self).spec_compressor() == old(self).spec_compressor(),
            final(self).spec_block_size() == old(self).spec_block_size(),
            old(self)@.stacked_is(
                final(self)@,
                store_reader@,
                None,
                old(self).spec_compressor(),
                result,
            ),
            old(self)@.kept_in(final(self)@),
            old(self)@.contents.sound() && store_reader@.sound() ==> final(self)@.contents.sound(),
            result is Ok ==> final(self)@.num_docs() == old(self)@.num_docs()
                + store_reader@.layout.num_docs(),
            result is Ok && store_reader@.decompressor
                == old(self).spec_compressor().spec_decompressor() ==> old(self)@.followed_in(
                final(self)@,
                store_reader@,
                crate::store::laws::map_after_stacking(
                    old(self)@.contents.version,
                    store_reader@.version,
                ),
            ),
    {
        self.send_current_block_to_compressor();
        let ghost flushed = self@;
        let ghost source = store_reader@;
        proof {
            use_type_invariant(&store_reader);
            store_reader.lemma_inv();
            self.lemma_wf();
        }
        let result: Result<(), StoreError> = self.block_compressor.stack_reader(store_reader);
        proof {
            self.lemma_wf();
            lemma_stacked(*old(self), flushed, source, None, *self, result);
        }
        result
    }

    /// Writes the pending documents and stacks another store behind them, with its fields
    /// renamed. After an error, the blocks before the one that caused it have been stacked.
    pub fn stack_with_remap(&mut self, store_reader: StoreReader, remap: BlockFieldRemap) -> (result:
        Result<(), StoreError>)
        requires
            old(self).wf(),
            crate::store::laws::stacking_is_refused(
                old(self)@.contents.version,
                store_reader@.version,
                Some(remap@),
            ) || old(self)@.num_docs() + store_reader@.layout.num_docs() <= u32::MAX,
        ensures
            final(self).wf(),
            final(self).spec_compressor() == old(self).spec_compressor(),
            final(self).spec_block_size() == old(self).spec_block_size(),
            old(self)@.stacked_is(
                final(self)@,
                store_reader@,
                Some(remap@),
                old(self).spec_compressor(),
                result,
            ),
            old(self)@.kept_in(final(self)@),
            old(self)@.contents.sound() && store_reader@.sound() ==> final(self)@.contents.sound(),
            result is Ok ==> final(self)@.num_docs() == old(self)@.num_docs()
                + store_reader@.layout.num_docs(),
            result is Ok && store_reader@.decompressor
                == old(self).spec_compressor().spec_decompressor() ==> old(self)@.followed_in(
                final(self)@,
                store_reader@,
                crate::store::laws::map_after_renaming(remap@),
            ),
    {
        self.send_current_block_to_compressor();
        let ghost flushed = self@;
        let ghost source = store_reader@;
        let ghost renames = remap@;
        proof {
            use_type_invariant(&store_reader);
            store_reader.lemma_inv();
            self.lemma_wf();
        }
        let result: Result<(), StoreError> = self.block_compressor.stack_reader_with_remap(
            store_reader,
            remap,
        );
        proof {
            self.lemma_wf();
            lemma_stacked(*old(self), flushed, source, Some(renames), *self, result);
        }
        result
    }
}

/// What was proved of stacking holds of the writer before its pending documents were written.
proof fn lemma_stacked(
    before: StoreWriter,
    flushed: WriterState,
    source: StoreContents,
    renames: Option<Map<u32, u32>>,
    after: StoreWriter,
    result: Result<(), StoreError>,
)
    requires
        before@.flushed_is(flushed, before.spec_compressor()),
        before@.kept_in(flushed),
        before@.num_docs() == flushed.num_docs(),
        flushed.pending.len() == 0,
        before@.contents.sound() ==> flushed.contents.sound(),
        flushed.in_order(before.spec_compressor()),
        flushed.contents.version == before@.contents.version,
        source.layout.wf(),
        crate::store::laws::stacking_is_refused(
            flushed.contents.version,
            source.version,
            renames,
        ) || flushed.num_docs() + source.layout.num_docs() <= u32::MAX,
        after@.in_order(before.spec_compressor()),
        ({
            let stacked = crate::store::laws::stack_outcome(flushed.contents, source, renames);
            &&& after@.pending.len() == 0
            &&& after@.contents == crate::store::laws::stacked_contents(flushed.contents, stacked)
            &&& crate::store::store_compressor::outcome(result) == stacked.error
        }),
    ensures
        before@.stacked_is(after@, source, renames, before.spec_compressor(), result),
        before@.kept_in(after@),
        before@.contents.sound() && source.sound() ==> after@.contents.sound(),
        result is Ok ==> after@.num_docs() == before@.num_docs() + source.layout.num_docs(),
        result is Ok && source.decompressor == before.spec_compressor().spec_decompressor()
            ==> before@.followed_in(
            after@,
            source,
            match renames {
                None => crate::store::laws::map_after_stacking(
                    before@.contents.version,
                    source.version,
                ),
                Some(renames) => crate::store::laws::map_after_renaming(renames),
            },
        ),
{
    assert(after@.pending =~= Seq::empty());
    crate::store::laws::lemma_stacking_keeps_target(flushed.contents, source, renames);
    assert forall|doc: u32| doc < before@.num_docs() implies #[trigger] after@.doc(doc)
        == before@.doc(doc) by {
        assert(flushed.doc(doc) == before@.doc(doc));
        assert(after@.contents.doc(doc) == flushed.contents.doc(doc));
    }
    if result is Ok && source.decompressor == before.spec_compressor().spec_decompressor() {
        let changed = match renames {
            None => {
                crate::store::laws::lemma_stack_keeps_docs(flushed.contents, source);
                crate::store::laws::map_after_stacking(before@.contents.version, source.version)
            },
            Some(renames) => {
                crate::store::laws::lemma_stack_with_remap_renames(
                    flushed.contents,
                    source,
                    renames,
                );
                crate::store::laws::map_after_renaming(renames)
            },
        };
        assert forall|doc: u32| doc < source.layout.num_docs() implies after@.doc(
            (before@.num_docs() + doc) as u32,
        ) == crate::store::laws::doc_with_map(#[trigger] source.doc(doc), changed) by {
            assert(after@.doc((before@.num_docs() + doc) as u32) == after@.contents.doc(
                (flushed.contents.layout.num_docs() + doc) as u32,
            ));
        }
    }
}

} // verus!
