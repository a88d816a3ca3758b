//! Writing to an index.

use vstd::prelude::*;

use crate::error::TantivyError;
use crate::index::directory::{Directory, DirectoryState};
use crate::index::index::{load_metas, save_metas, store_schema, Index};
use crate::index::meta::{IndexMeta, MetaView, Segment, SegmentId, SegmentMeta};
use crate::schema::{FieldView, Schema};

verus! {

/// The least memory for each thread of a writer.
pub const MEMORY_BUDGET_NUM_BYTES_MIN: usize = 15_000_000;

/// The memory for each thread of a writer is below this.
pub const MEMORY_BUDGET_NUM_BYTES_MAX: usize = 4_293_967_295;

/// The most threads that a writer uses unless asked for more.
pub const MAX_NUM_THREAD: usize = 8;

/// How a writer works.
#[derive(Clone, Copy, Debug, PartialEq, Eq, Structural)]
pub struct IndexWriterOptions {
    /// The number of threads.
    pub num_worker_threads: usize,
    /// The memory for each thread.
    pub memory_budget_per_thread: usize,
}

impl IndexWriterOptions {
    /// Why no writer can work like this.
    pub open spec fn flaw(self) -> Option<TantivyError> {
        if self.memory_budget_per_thread < MEMORY_BUDGET_NUM_BYTES_MIN
            || self.memory_budget_per_thread >= MEMORY_BUDGET_NUM_BYTES_MAX {
            Some(
                TantivyError::MemoryBudgetOutOfRange {
                    per_thread: self.memory_budget_per_thread,
                },
            )
        } else if self.num_worker_threads == 0 {
            Some(TantivyError::NoWorkerThread)
        } else {
            None
        }
    }

    /// Checks that a writer can work like this.
    pub fn check(self) -> (result: Result<(), TantivyError>)
        ensures
            match self.flaw() {
                Some(error) => result == Err::<(), TantivyError>(error),
                None => result is Ok,
            },
    {
        if self.memory_budget_per_thread < MEMORY_BUDGET_NUM_BYTES_MIN
            || self.memory_budget_per_thread >= MEMORY_BUDGET_NUM_BYTES_MAX {
            return Err(
                TantivyError::MemoryBudgetOutOfRange { per_thread: self.memory_budget_per_thread },
            );
        }
        if self.num_worker_threads == 0 {
            return Err(TantivyError::NoWorkerThread);
        }
        Ok(())
    }
}

/// Writes a single segment, without threads.
pub struct SingleSegmentIndexWriter<D: Directory> {
    index: Index<D>,
    segment: Segment,
    memory_budget: usize,
}

impl<D: Directory> SingleSegmentIndexWriter<D> {
    /// The index.
    pub closed spec fn spec_index(self) -> Index<D> {
        self.index
    }

    /// The segment.
    pub closed spec fn spec_segment(self) -> Segment {
        self.segment
    }

    /// The memory to use.
    pub closed spec fn spec_memory_budget(self) -> usize {
        self.memory_budget
    }

    /// A writer for a new segment of `index`.
    pub(crate) fn new(index: Index<D>, memory_budget: usize, segment_id: SegmentId) -> (writer: Self)
        ensures
            writer.spec_memory_budget() == memory_budget,
            crate::index::meta::is_segment(
                writer.spec_segment(),
                index.spec_schema(),
                index.spec_settings(),
                SegmentMeta { segment_id, max_doc: 0, deletes: None },
            ),
            writer.spec_index().spec_schema() == index.spec_schema(),
            writer.spec_index().dir() == index.dir(),
            writer.spec_index().same_configuration(index),
            writer.spec_index().spec_inventory() == index.spec_inventory().push(
                writer.spec_segment().meta,
            ),
    {
        let mut index = index;
        let segment: Segment = index.new_segment(segment_id);
        SingleSegmentIndexWriter { index, segment, memory_budget }
    }
}

/// Adds documents to an index. The writer has its own copy of the schema.
pub struct IndexWriter {
    options: IndexWriterOptions,
    schema: Schema,
    pending_docs: u32,
    opstamp: u64,
}

impl IndexWriter {
    /// How the writer works.
    pub closed spec fn spec_options(self) -> IndexWriterOptions {
        self.options
    }

    /// The fields of new documents.
    pub closed spec fn spec_schema(self) -> Seq<FieldView> {
        self.schema@
    }

    /// The documents that have not been committed.
    pub closed spec fn spec_pending_docs(self) -> u32 {
        self.pending_docs
    }

    /// The number of the next operation.
    pub closed spec fn spec_opstamp(self) -> u64 {
        self.opstamp
    }

    /// A writer without documents.
    pub(crate) fn new(schema: Schema, options: IndexWriterOptions, opstamp: u64) -> (writer:
        IndexWriter)
        ensures
            writer.spec_options() == options,
            writer.spec_schema() == schema@,
            writer.spec_pending_docs() == 0,
            writer.spec_opstamp() == opstamp,
    {
        IndexWriter { options, schema, pending_docs: 0, opstamp }
    }

    /// The fields of new documents.
    pub fn schema(&self) -> (schema: Schema)
        ensures
            schema@ == self.spec_schema(),
    {
        self.schema.clone()
    }

    /// Adds a document, and gives the number of this operation.
    pub fn add_document(&mut self) -> (result: Result<u64, TantivyError>)
        requires
            old(self).spec_opstamp() < u64::MAX,
        ensures
            final(self).spec_options() == old(self).spec_options(),
            final(self).spec_schema() == old(self).spec_schema(),
            match result {
                Ok(opstamp) => {
                    &&& old(self).spec_pending_docs() < u32::MAX
                    &&& opstamp == old(self).spec_opstamp()
                    &&& final(self).spec_pending_docs() == old(self).spec_pending_docs() + 1
                    &&& final(self).spec_opstamp() == old(self).spec_opstamp() + 1
                },
                Err(error) => {
                    &&& old(self).spec_pending_docs() == u32::MAX
                    &&& error == TantivyError::TooManyDocs
                    &&& *final(self) == *old(self)
                },
            },
    {
        if self.pending_docs == u32::MAX {
            return Err(TantivyError::TooManyDocs);
        }
        let opstamp: u64 = self.opstamp;
        self.opstamp = opstamp + 1;
        self.pending_docs = self.pending_docs + 1;
        Ok(opstamp)
    }

    /// The description of the index after the pending documents were committed.
    pub open spec fn committed(self, meta: MetaView, segment_id: SegmentId) -> MetaView {
        MetaView {
            segments: if self.spec_pending_docs() == 0 {
                meta.segments
            } else {
                meta.segments.push(
                    SegmentMeta { segment_id, max_doc: self.spec_pending_docs(), deletes: None },
                )
            },
            schema: self.spec_schema(),
            opstamp: self.spec_opstamp(),
            ..meta
        }
    }

    /// What a commit makes of the description of an index.
    pub open spec fn commit_of(self, segment_id: SegmentId) -> spec_fn(MetaView) -> MetaView {
        |meta: MetaView| self.committed(meta, segment_id)
    }

    /// Makes the pending documents a segment of the index, and gives the number of this operation.
    /// The schema of the writer becomes that of the index.
    pub fn commit<D: Directory>(&mut self, directory: &mut D, segment_id: SegmentId) -> (result:
        Result<u64, TantivyError>)
        requires
            old(self).spec_opstamp() < u64::MAX,
        ensures
            final(directory).reliable() == old(directory).reliable(),
            final(self).spec_options() == old(self).spec_options(),
            final(self).spec_schema() == old(self).spec_schema(),
            match result {
                Ok(opstamp) => {
                    &&& opstamp == old(self).spec_opstamp()
                    &&& final(self).spec_opstamp() == old(self).spec_opstamp() + 1
                    &&& final(self).spec_pending_docs() == 0
                    &&& crate::index::index::loaded(old(directory).state().meta) matches Ok(meta)
                        && crate::index::index::saved(
                        old(directory).state(),
                        old(self).committed(meta, segment_id),
                        final(directory).state(),
                        true,
                    )
                },
                Err(error) => {
                    &&& *final(self) == *old(self)
                    &&& crate::index::index::update_failed(
                        old(directory).state(),
                        old(directory).reliable(),
                        old(self).commit_of(segment_id),
                        final(directory).state(),
                        error,
                    )
                },
            },
    {
        let mut meta: IndexMeta = match load_metas(directory) {
            Ok(meta) => meta,
            Err(error) => {
                return Err(error);
            },
        };
        let ghost before = meta@;
        if self.pending_docs > 0 {
            meta.segments.push(
                SegmentMeta { segment_id, max_doc: self.pending_docs, deletes: None },
            );
        }
        meta.schema = self.schema.clone();
        meta.opstamp = self.opstamp;
        assert(meta@ =~= self.committed(before, segment_id));
        match save_metas(&meta, directory) {
            Ok(_) => {},
            Err(error) => {
                return Err(error);
            },
        }
        let opstamp: u64 = self.opstamp;
        self.pending_docs = 0;
        self.opstamp = opstamp + 1;
        Ok(opstamp)
    }

    /// Commits the pending documents under the current schema, then appends fields to it:
    /// `new_schema` has to start with the fields that are there. Later commits and merges keep
    /// the new fields. The documents stay committed where `new_schema` is refused.
    pub fn extend_schema<D: Directory>(
        &mut self,
        directory: &mut D,
        new_schema: Schema,
        segment_id: SegmentId,
    ) -> (result: Result<Schema, TantivyError>)
        requires
            old(self).spec_opstamp() < u64::MAX,
        ensures
            final(directory).reliable() == old(directory).reliable(),
            final(self).spec_options() == old(self).spec_options(),
            match result {
                Ok(schema) => {
                    &&& schema@ == new_schema@
                    &&& crate::schema::extends(new_schema@, old(self).spec_schema())
                    &&& final(self).spec_schema() == new_schema@
                    &&& final(self).spec_pending_docs() == 0
                    &&& final(self).spec_opstamp() == old(self).spec_opstamp() + 1
                    &&& crate::index::index::loaded(old(directory).state().meta) matches Ok(meta)
                        && crate::index::index::saved(
                        old(directory).state().written(
                            old(self).committed(meta, segment_id),
                        ).flushed(),
                        MetaView {
                            schema: new_schema@,
                            ..old(self).committed(meta, segment_id)
                        },
                        final(directory).state(),
                        true,
                    )
                },
                Err(error) => {
                    &&& final(self).spec_schema() == old(self).spec_schema()
                    &&& {
                        ||| *final(self) == *old(self) && crate::index::index::update_failed(
                            old(directory).state(),
                            old(directory).reliable(),
                            old(self).commit_of(segment_id),
                            final(directory).state(),
                            error,
                        )
                        ||| final(self).spec_pending_docs() == 0 && final(self).spec_opstamp()
                            == old(self).spec_opstamp() + 1 && (crate::index::index::loaded(
                            old(directory).state().meta,
                        ) matches Ok(meta) && crate::index::index::schema_extended(
                            old(directory).state().written(
                                old(self).committed(meta, segment_id),
                            ).flushed(),
                            old(directory).reliable(),
                            old(self).spec_schema(),
                            new_schema@,
                            final(directory).state(),
                            Err(error),
                        ))
                    }
                },
            },
    {
        match self.commit(directory, segment_id) {
            Ok(_) => {},
            Err(error) => {
                return Err(error);
            },
        }
        match self.schema.check_extension(&new_schema) {
            Ok(_) => {},
            Err(error) => {
                return Err(error);
            },
        }
        match store_schema(directory, &new_schema) {
            Ok(_) => {},
            Err(error) => {
                return Err(error);
            },
        }
        self.schema = new_schema.clone();
        Ok(new_schema)
    }

    /// The description of an index after segments were merged.
    pub open spec fn merged_meta(
        self,
        meta: MetaView,
        merged_ids: Seq<SegmentId>,
        merged: SegmentMeta,
    ) -> MetaView {
        MetaView {
            segments: without(meta.segments, merged_ids).push(merged),
            schema: self.spec_schema(),
            ..meta
        }
    }

    /// What the end of a merge makes of the description of an index.
    pub open spec fn merge_of(
        self,
        merged_ids: Seq<SegmentId>,
        merged: SegmentMeta,
    ) -> spec_fn(MetaView) -> MetaView {
        |meta: MetaView| self.merged_meta(meta, merged_ids, merged)
    }

    /// Replaces the segments `merged_ids` by `merged`. The schema of the writer becomes that of
    /// the index.
    pub fn end_merge<D: Directory>(
        &mut self,
        directory: &mut D,
        merged_ids: &[SegmentId],
        merged: SegmentMeta,
    ) -> (result: Result<(), TantivyError>)
        ensures
            final(directory).reliable() == old(directory).reliable(),
            *final(self) == *old(self),
            match result {
                Ok(_) => crate::index::index::loaded(old(directory).state().meta) matches Ok(meta)
                    && all_present(meta.segments, merged_ids@) && crate::index::index::saved(
                    old(directory).state(),
                    old(self).merged_meta(meta, merged_ids@, merged),
                    final(directory).state(),
                    true,
                ),
                Err(TantivyError::SegmentNotFound) => {
                    &&& final(directory).state() == old(directory).state()
                    &&& crate::index::index::loaded(old(directory).state().meta) matches Ok(meta)
                        && !all_present(meta.segments, merged_ids@)
                },
                Err(error) => {
                    &&& crate::index::index::update_failed(
                        old(directory).state(),
                        old(directory).reliable(),
                        old(self).merge_of(merged_ids@, merged),
                        final(directory).state(),
                        error,
                    )
                    &&& error == TantivyError::WriteFailed ==> (crate::index::index::loaded(
                        old(directory).state().meta,
                    ) matches Ok(meta) && all_present(meta.segments, merged_ids@))
                },
            },
    {
        let mut meta: IndexMeta = match load_metas(directory) {
            Ok(meta) => meta,
            Err(error) => {
                return Err(error);
            },
        };
        let ghost before = meta@;
        if !has_all_segments(&meta.segments, merged_ids) {
            return Err(TantivyError::SegmentNotFound);
        }
        let mut segments: Vec<SegmentMeta> = remaining_segments(&meta.segments, merged_ids);
        segments.push(merged);
        meta.segments = segments;
        meta.schema = self.schema.clone();
        assert(meta@ =~= self.merged_meta(before, merged_ids@, merged));
        save_metas(&meta, directory)
    }

    /// Ends the writer and gives the lock of the directory back. Documents that have not been
    /// committed are dropped.
    pub fn close<D: Directory>(self, directory: &mut D)
        ensures
            final(directory).reliable() == old(directory).reliable(),
            final(directory).state() == (DirectoryState {
                locked: false,
                ..old(directory).state()
            }),
    {
        directory.release_lock();
    }
}

/// A commit of a writer writes the schema of the writer, whatever schema is there, and adds the
/// pending documents to those that are there.
pub proof fn lemma_commit_keeps_schema(writer: IndexWriter, meta: MetaView, segment_id: SegmentId)
    ensures
        writer.committed(meta, segment_id).schema == writer.spec_schema(),
        num_docs(writer.committed(meta, segment_id).segments) == num_docs(meta.segments)
            + writer.spec_pending_docs(),
{
    let segments = writer.committed(meta, segment_id).segments;
    if writer.spec_pending_docs() > 0 {
        assert(segments.drop_last() =~= meta.segments);
    }
}

/// The end of a merge writes the schema of the writer, whatever schema is there, keeps the
/// segments that were not merged in their order, and puts the new one behind them.
pub proof fn lemma_merge_keeps_schema(
    writer: IndexWriter,
    meta: MetaView,
    merged_ids: Seq<SegmentId>,
    merged: SegmentMeta,
)
    ensures
        writer.merged_meta(meta, merged_ids, merged).schema == writer.spec_schema(),
        writer.merged_meta(meta, merged_ids, merged).segments.last() == merged,
        forall|segment: SegmentMeta| #[trigger]
            without(meta.segments, merged_ids).contains(segment) <==> meta.segments.contains(segment)
                && !is_named(merged_ids, segment),
{
    lemma_without(meta.segments, merged_ids);
}

proof fn lemma_without(segments: Seq<SegmentMeta>, ids: Seq<SegmentId>)
    ensures
        forall|segment: SegmentMeta| #[trigger]
            without(segments, ids).contains(segment) <==> segments.contains(segment) && !is_named(
                ids,
                segment,
            ),
    decreases segments.len(),
{
    if segments.len() > 0 {
        let fewer = segments.drop_last();
        let last = segments.last();
        lemma_without(fewer, ids);
        assert forall|segment: SegmentMeta| segments.contains(segment) <==> fewer.contains(segment)
            || segment == last by {
            if fewer.contains(segment) {
                let i = choose|i: int| 0 <= i < fewer.len() && fewer[i] == segment;
                assert(segments[i] == segment);
            }
            if segments.contains(segment) && segment != last {
                let i = choose|i: int| 0 <= i < segments.len() && segments[i] == segment;
                assert(fewer[i] == segment);
            }
            assert(segments[segments.len() - 1] == last);
        }
        assert forall|segment: SegmentMeta| #[trigger]
            without(segments, ids).contains(segment) <==> segments.contains(segment) && !is_named(
            ids,
            segment,
        ) by {
            let rest = without(fewer, ids);
            if !is_named(ids, last) {
                if rest.contains(segment) {
                    let i = choose|i: int| 0 <= i < rest.len() && rest[i] == segment;
                    assert(rest.push(last)[i] == segment);
                }
                assert(rest.push(last)[rest.len() as int] == last);
                assert(rest.contains(segment) <==> fewer.contains(segment) && !is_named(
                    ids,
                    segment,
                ));
            }
        }
    }
}

/// The number of documents of all segments, deleted ones included.
pub open spec fn num_docs(segments: Seq<SegmentMeta>) -> nat
    decreases segments.len(),
{
    if segments.len() == 0 {
        0
    } else {
        num_docs(segments.drop_last()) + segments.last().max_doc as nat
    }
}

/// `ids` holds the id of `segment`.
pub open spec fn is_named(ids: Seq<SegmentId>, segment: SegmentMeta) -> bool {
    ids.contains(segment.segment_id)
}

/// Some segment has this id.
pub open spec fn is_present(segments: Seq<SegmentMeta>, id: SegmentId) -> bool {
    exists|j: int| 0 <= j < segments.len() && (#[trigger] segments[j]).segment_id == id
}

/// Every one of `ids` is the id of a segment.
pub open spec fn all_present(segments: Seq<SegmentMeta>, ids: Seq<SegmentId>) -> bool {
    forall|i: int| 0 <= i < ids.len() ==> is_present(segments, #[trigger] ids[i])
}

/// The segments whose id is not among `ids`, in their order.
pub open spec fn without(segments: Seq<SegmentMeta>, ids: Seq<SegmentId>) -> Seq<SegmentMeta>
    decreases segments.len(),
{
    if segments.len() == 0 {
        Seq::empty()
    } else if is_named(ids, segments.last()) {
        without(segments.drop_last(), ids)
    } else {
        without(segments.drop_last(), ids).push(segments.last())
    }
}

fn holds_id(ids: &[SegmentId], id: SegmentId) -> (found: bool)
    ensures
        found == ids@.contains(id),
{
    let mut next: usize = 0;
    while next < ids.len()
        invariant
            next <= ids@.len(),
            forall|i: int| 0 <= i < next ==> #[trigger] ids@[i] != id,
        decreases ids@.len() - next,
    {
        if ids[next] == id {
            assert(ids@[next as int] == id);
            return true;
        }
        next = next + 1;
    }
    false
}

fn has_all_segments(segments: &Vec<SegmentMeta>, ids: &[SegmentId]) -> (all: bool)
    ensures
        all == all_present(segments@, ids@),
{
    let mut next: usize = 0;
    while next < ids.len()
        invariant
            next <= ids@.len(),
            forall|i: int| 0 <= i < next ==> is_present(segments@, #[trigger] ids@[i]),
        decreases ids@.len() - next,
    {
        let id: SegmentId = ids[next];
        let mut found: bool = false;
        let mut candidate: usize = 0;
        while candidate < segments.len() && !found
            invariant
                candidate <= segments@.len(),
                found ==> is_present(segments@, id),
                !found ==> forall|j: int|
                    0 <= j < candidate ==> (#[trigger] segments@[j]).segment_id != id,
            decreases segments@.len() - candidate,
        {
            if segments[candidate].segment_id == id {
                assert(segments@[candidate as int].segment_id == id);
                found = true;
            }
            candidate = candidate + 1;
        }
        if !found {
            assert(ids@[next as int] == id);
            return false;
        }
        assert(ids@[next as int] == id);
        next = next + 1;
    }
    true
}

fn remaining_segments(segments: &Vec<SegmentMeta>, ids: &[SegmentId]) -> (rest: Vec<SegmentMeta>)
    ensures
        rest@ == without(segments@, ids@),
{
    let mut rest: Vec<SegmentMeta> = Vec::new();
    let mut next: usize = 0;
    while next < segments.len()
        invariant
            next <= segments@.len(),
            rest@ == without(segments@.take(next as int), ids@),
        decreases segments@.len() - next,
    {
        assert(segments@.take(next + 1).drop_last() =~= segments@.take(next as int));
        if !holds_id(ids, segments[next].segment_id) {
            rest.push(segments[next]);
        }
        next = next + 1;
    }
    assert(segments@.take(segments@.len() as int) =~= segments@);
    rest
}

} // verus!
