//! What holds of an index over its operations.

use vstd::prelude::*;

use crate::error::{LockError, TantivyError};
use crate::index::directory::{Directory, DirectoryState, MetaFile};
use crate::index::index::{Executor, Index, IndexBuilder};
use crate::index::meta::{
    IndexMeta, IndexSettings, MetaView, SegmentComponent, SegmentFile, SegmentId, SegmentMeta,
};
use crate::index::tokenizer::{TextAnalyzer, TokenizerManager};
use crate::index::writer::{IndexWriter, IndexWriterOptions};
use crate::schema::FieldView;
use crate::store::codec::Compressor;

verus! {

/// The documents of segments add up: none without segments, and one more segment adds its own.
pub proof fn lemma_documents_add_up(left: Seq<SegmentMeta>, right: Seq<SegmentMeta>)
    ensures
        crate::index::writer::num_docs(Seq::empty()) == 0,
        right.len() == 1 ==> crate::index::writer::num_docs(right) == right[0].max_doc,
        crate::index::writer::num_docs(left + right) == crate::index::writer::num_docs(left)
            + crate::index::writer::num_docs(right),
    decreases right.len(),
{
    reveal_with_fuel(crate::index::writer::num_docs, 2);
    if right.len() == 0 {
        assert(left + right =~= left);
    } else {
        lemma_documents_add_up(left, right.drop_last());
        assert((left + right).drop_last() =~= left + right.drop_last());
        assert((left + right).last() == right.last());
    }
}

/// After a commit the index can be opened with the settings and the payload that it had and with
/// all of its segments, each where it was. Pending documents are one more segment behind them; the
/// schema and the number of the operation are those of the writer. Nothing else in the directory
/// has changed.
pub proof fn lemma_commit_adds_one_segment(
    writer: IndexWriter,
    before: DirectoryState,
    meta: MetaView,
    segment_id: SegmentId,
    after: DirectoryState,
)
    requires
        crate::index::index::loaded(before.meta) == Ok::<MetaView, TantivyError>(meta),
        crate::index::index::saved(before, writer.committed(meta, segment_id), after, true),
    ensures
        before.meta == MetaFile::Valid(meta),
        after.meta matches MetaFile::Valid(new) && {
            &&& new.index_settings == meta.index_settings
            &&& new.payload == meta.payload
            &&& new.schema == writer.spec_schema()
            &&& new.opstamp == writer.spec_opstamp()
            &&& meta.segments.is_prefix_of(new.segments)
            &&& writer.spec_pending_docs() == 0 ==> new.segments.len() == meta.segments.len()
            &&& writer.spec_pending_docs() > 0 ==> {
                &&& new.segments.len() == meta.segments.len() + 1
                &&& new.segments.last().segment_id == segment_id
                &&& new.segments.last().max_doc == writer.spec_pending_docs()
                &&& new.segments.last().deletes is None
            }
            &&& crate::index::writer::num_docs(new.segments) == crate::index::writer::num_docs(
                meta.segments,
            ) + writer.spec_pending_docs()
        },
        after.managed == before.managed,
        after.damaged == before.damaged,
        after.locked == before.locked,
        after.meta_flushed,
{
    let new = writer.committed(meta, segment_id);
    assert(meta.segments =~= new.segments.subrange(0, meta.segments.len() as int));
    if writer.spec_pending_docs() > 0 {
        let added = seq![new.segments.last()];
        assert(new.segments =~= meta.segments + added);
        lemma_documents_add_up(meta.segments, added);
    }
}

/// A commit that fails leaves the description as it was, or as the commit would have left it: no
/// segment is lost, and no other part of the directory changes.
pub proof fn lemma_failed_commit_keeps_segments(
    writer: IndexWriter,
    before: DirectoryState,
    reliable: bool,
    segment_id: SegmentId,
    after: DirectoryState,
    error: TantivyError,
)
    requires
        crate::index::index::update_failed(
            before,
            reliable,
            writer.commit_of(segment_id),
            after,
            error,
        ),
    ensures
        reliable ==> after == before,
        after.managed == before.managed,
        after.damaged == before.damaged,
        after.locked == before.locked,
        before.meta !is Valid ==> after == before,
        before.meta matches MetaFile::Valid(meta) ==> after.meta matches MetaFile::Valid(new) && {
            &&& new.index_settings == meta.index_settings
            &&& new.payload == meta.payload
            &&& meta.segments.is_prefix_of(new.segments)
            &&& new.segments.len() <= meta.segments.len() + 1
            &&& new == meta || new.schema == writer.spec_schema()
        },
{
    if let MetaFile::Valid(meta) = before.meta {
        let new = writer.committed(meta, segment_id);
        assert(meta.segments =~= new.segments.subrange(0, meta.segments.len() as int));
        assert(meta.segments =~= meta.segments.subrange(0, meta.segments.len() as int));
    }
}

/// After the end of a merge, the segments that were not merged are there in their order, each as
/// often as before, and the new one behind them. No document is lost: those of the merged segments
/// are replaced by those of the new one. The settings, the payload and the number of the operation
/// stay, and the schema is that of the writer.
pub proof fn lemma_merge_replaces_only_merged(
    writer: IndexWriter,
    before: DirectoryState,
    meta: MetaView,
    merged_ids: Seq<SegmentId>,
    merged: SegmentMeta,
    after: DirectoryState,
)
    requires
        crate::index::index::loaded(before.meta) == Ok::<MetaView, TantivyError>(meta),
        crate::index::index::saved(
            before,
            writer.merged_meta(meta, merged_ids, merged),
            after,
            true,
        ),
    ensures
        before.meta == MetaFile::Valid(meta),
        after.meta matches MetaFile::Valid(new) && {
            let others = |segment: SegmentMeta| !merged_ids.contains(segment.segment_id);
            let replaced = |segment: SegmentMeta| merged_ids.contains(segment.segment_id);
            &&& new.segments == meta.segments.filter(others).push(merged)
            &&& forall|segment: SegmentMeta| #[trigger]
                new.segments.contains(segment) <==> segment == merged || (meta.segments.contains(
                    segment,
                ) && !merged_ids.contains(segment.segment_id))
            &&& crate::index::writer::num_docs(new.segments) + crate::index::writer::num_docs(
                meta.segments.filter(replaced),
            ) == crate::index::writer::num_docs(meta.segments) + merged.max_doc
            &&& new.index_settings == meta.index_settings
            &&& new.payload == meta.payload
            &&& new.opstamp == meta.opstamp
            &&& new.schema == writer.spec_schema()
        },
        after.managed == before.managed,
        after.damaged == before.damaged,
        after.locked == before.locked,
        after.meta_flushed,
{
    let new = writer.merged_meta(meta, merged_ids, merged);
    let others = |segment: SegmentMeta| !merged_ids.contains(segment.segment_id);
    lemma_filtered(meta.segments, merged_ids);
    let kept = meta.segments.filter(others);
    assert(new.segments =~= kept.push(merged));
    assert(new.segments =~= kept + seq![merged]);
    lemma_documents_add_up(kept, seq![merged]);
    assert forall|segment: SegmentMeta| #[trigger] new.segments.contains(segment) <==> segment
        == merged || (meta.segments.contains(segment) && !merged_ids.contains(segment.segment_id)) by {
        lemma_filter_contains(meta.segments, others, segment);
        if kept.contains(segment) {
            let i = choose|i: int| 0 <= i < kept.len() && kept[i] == segment;
            assert(new.segments[i] == segment);
        }
        assert(new.segments[kept.len() as int] == merged);
        if new.segments.contains(segment) && segment != merged {
            let i = choose|i: int| 0 <= i < new.segments.len() && new.segments[i] == segment;
            assert(kept[i] == segment);
        }
    }
}

proof fn lemma_filter_contains(
    segments: Seq<SegmentMeta>,
    keep: spec_fn(SegmentMeta) -> bool,
    segment: SegmentMeta,
)
    ensures
        segments.filter(keep).contains(segment) <==> segments.contains(segment) && keep(segment),
    decreases segments.len(),
{
    reveal(Seq::filter);
    if segments.len() > 0 {
        let rest = segments.drop_last();
        let last = segments.last();
        lemma_filter_contains(rest, keep, segment);
        if rest.contains(segment) {
            let i = choose|i: int| 0 <= i < rest.len() && rest[i] == segment;
            assert(segments[i] == segment);
        }
        if segments.contains(segment) && segment != last {
            let i = choose|i: int| 0 <= i < segments.len() && segments[i] == segment;
            assert(rest[i] == segment);
        }
        assert(segments[segments.len() - 1] == last);
        let all = segments.filter(keep);
        let fewer = rest.filter(keep);
        if fewer.contains(segment) {
            let i = choose|i: int| 0 <= i < fewer.len() && fewer[i] == segment;
            assert(all[i] == segment);
        }
        if keep(last) {
            assert(all[fewer.len() as int] == last);
            if all.contains(segment) && segment != last {
                let i = choose|i: int| 0 <= i < all.len() && all[i] == segment;
                assert(fewer[i] == segment);
            }
        }
    }
}

proof fn lemma_filtered(segments: Seq<SegmentMeta>, ids: Seq<SegmentId>)
    ensures
        crate::index::writer::without(segments, ids) == segments.filter(
            |segment: SegmentMeta| !ids.contains(segment.segment_id),
        ),
        crate::index::writer::num_docs(
            segments.filter(|segment: SegmentMeta| !ids.contains(segment.segment_id)),
        ) + crate::index::writer::num_docs(
            segments.filter(|segment: SegmentMeta| ids.contains(segment.segment_id)),
        ) == crate::index::writer::num_docs(segments),
    decreases segments.len(),
{
    reveal(Seq::filter);
    if segments.len() > 0 {
        let rest = segments.drop_last();
        let last = segments.last();
        lemma_filtered(rest, ids);
        let others = rest.filter(|segment: SegmentMeta| !ids.contains(segment.segment_id));
        let replaced = rest.filter(|segment: SegmentMeta| ids.contains(segment.segment_id));
        assert(others.push(last).drop_last() =~= others);
        assert(replaced.push(last).drop_last() =~= replaced);
    }
}

/// A merge is refused exactly if one of the segments to merge is not in the index.
pub proof fn lemma_merge_needs_all_segments(segments: Seq<SegmentMeta>, ids: Seq<SegmentId>)
    ensures
        crate::index::writer::all_present(segments, ids) <==> forall|id: SegmentId| #[trigger]
            ids.contains(id) ==> segments.map_values(
                |segment: SegmentMeta| segment.segment_id,
            ).contains(id),
{
    let present = segments.map_values(|segment: SegmentMeta| segment.segment_id);
    if crate::index::writer::all_present(segments, ids) {
        assert forall|id: SegmentId| #[trigger] ids.contains(id) implies present.contains(id) by {
            let i = choose|i: int| 0 <= i < ids.len() && ids[i] == id;
            assert(crate::index::writer::is_present(segments, ids[i]));
            let j = choose|j: int|
                0 <= j < segments.len() && (#[trigger] segments[j]).segment_id == id;
            assert(present[j] == id);
        }
    }
    if forall|id: SegmentId| #[trigger] ids.contains(id) ==> present.contains(id) {
        assert forall|i: int| 0 <= i < ids.len() implies crate::index::writer::is_present(
            segments,
            #[trigger] ids[i],
        ) by {
            assert(ids.contains(ids[i]));
            let j = choose|j: int| 0 <= j < present.len() && present[j] == ids[i];
            assert(segments[j].segment_id == ids[i]);
        }
    }
}

/// Appending fields that succeeds replaces the schema in the description by one that starts with
/// the fields that were there, and nothing else: segments, settings, payload and the number of the
/// operation stay.
pub proof fn lemma_extending_changes_only_the_schema(
    before: DirectoryState,
    reliable: bool,
    schema: Seq<FieldView>,
    new_schema: Seq<FieldView>,
    after: DirectoryState,
)
    requires
        crate::index::index::schema_extended(
            before,
            reliable,
            schema,
            new_schema,
            after,
            Ok(()),
        ),
    ensures
        schema.is_prefix_of(new_schema),
        before.meta matches MetaFile::Valid(meta) && (after.meta matches MetaFile::Valid(new) && {
            &&& new.schema == new_schema
            &&& new.segments == meta.segments
            &&& new.index_settings == meta.index_settings
            &&& new.payload == meta.payload
            &&& new.opstamp == meta.opstamp
        }),
        after.managed == before.managed,
        after.damaged == before.damaged,
        after.locked == before.locked,
        before.locked ==> after.unlocked_writes == before.unlocked_writes,
        after.meta_flushed,
{
    assert(schema =~= new_schema.subrange(0, schema.len() as int));
}

/// Appending fields that fails leaves the description as it was; only where writing it went wrong
/// it may be the new one. A schema that does not start with the fields that are there is always
/// refused, and leaves everything as it was.
pub proof fn lemma_refused_extension_changes_nothing(
    before: DirectoryState,
    reliable: bool,
    schema: Seq<FieldView>,
    new_schema: Seq<FieldView>,
    after: DirectoryState,
    error: TantivyError,
)
    requires
        crate::index::index::schema_extended(
            before,
            reliable,
            schema,
            new_schema,
            after,
            Err(error),
        ),
    ensures
        reliable ==> after == before,
        !schema.is_prefix_of(new_schema) ==> after == before && (error is SchemaFewerFields
            || error is SchemaFieldModified),
        schema.is_prefix_of(new_schema) ==> error !is SchemaFewerFields && error
            !is SchemaFieldModified,
        after.managed == before.managed,
        after.damaged == before.damaged,
        after.locked == before.locked,
        after.meta == before.meta || (before.meta matches MetaFile::Valid(meta) && (
        after.meta matches MetaFile::Valid(new) && {
            &&& new.schema == new_schema
            &&& new.segments == meta.segments
            &&& new.index_settings == meta.index_settings
            &&& new.payload == meta.payload
            &&& new.opstamp == meta.opstamp
        })),
{
    crate::schema::lemma_extension_is_a_prefix(schema, new_schema);
}

/// A new index has the schema and the settings asked for and no segments, and everything that was
/// in its directory is gone. What was asked for is what opening the directory gives.
pub proof fn lemma_created_index_is_empty<D: Directory>(
    builder: IndexBuilder,
    directory: D,
    index: Index<D>,
)
    requires
        builder.created(directory, index),
    ensures
        builder.spec_schema() == Some(index.spec_schema()),
        index.spec_settings() == builder.spec_settings(),
        index.spec_tokenizers() == builder.spec_tokenizers(),
        index.spec_fast_field_tokenizers() == builder.spec_fast_field_tokenizers(),
        index.spec_executor() == Executor::SingleThread,
        index.spec_inventory().len() == 0,
        index.dir().state().meta matches MetaFile::Valid(meta) && {
            &&& Some(meta.schema) == builder.spec_schema()
            &&& meta.index_settings == builder.spec_settings()
            &&& meta.segments.len() == 0
            &&& meta.opstamp == 0
            &&& meta.payload is None
        },
        index.dir().state().managed == Set::<SegmentFile>::empty(),
        index.dir().state().damaged == Set::<SegmentFile>::empty(),
        index.dir().state().locked == directory.state().locked,
        index.dir().state().meta_flushed,
{
}

/// An index that was opened is the one that the description in its directory speaks of. The
/// directory is not changed.
pub proof fn lemma_opened_index_is_described<D: Directory>(directory: D, index: Index<D>)
    requires
        index.opened(directory),
    ensures
        index.dir() == directory,
        directory.state().meta matches MetaFile::Valid(meta) && {
            &&& index.spec_schema() == meta.schema
            &&& index.spec_settings() == meta.index_settings
        },
        index.spec_inventory().len() == 0,
        index.spec_executor() == Executor::SingleThread,
{
}

/// Loading a description gives what is there, or says what is wrong with it.
pub proof fn lemma_loading_gives_what_is_there(meta: MetaView, file: MetaFile)
    ensures
        crate::index::index::loaded(MetaFile::Valid(meta)) == Ok::<MetaView, TantivyError>(meta),
        crate::index::index::loaded(file) is Ok <==> file is Valid,
        crate::index::index::loaded(MetaFile::NotUtf8) == Err::<MetaView, TantivyError>(
            TantivyError::MetaNotUtf8,
        ),
        crate::index::index::loaded(MetaFile::Undecodable) == Err::<MetaView, TantivyError>(
            TantivyError::MetaUndecodable,
        ),
        crate::index::index::loaded(MetaFile::Absent) is Err,
{
}

/// What a description shows is what its fields hold.
pub proof fn lemma_description_shows_its_fields(meta: IndexMeta)
    ensures
        meta@.index_settings == meta.index_settings,
        meta@.segments == meta.segments@,
        meta@.schema == meta.schema@,
        meta@.opstamp == meta.opstamp,
        meta.payload is Some <==> meta@.payload is Some,
        meta.payload matches Some(payload) ==> meta@.payload == Some(payload@),
{
}

/// A writer is started only if nobody holds the lock, and holds it from then on; it continues with
/// the number of the last operation of the index. The index itself is not changed, whether or not
/// a writer is started.
pub proof fn lemma_only_one_writer<D: Directory>(
    before: Index<D>,
    options: IndexWriterOptions,
    after: Index<D>,
    result: Result<IndexWriter, TantivyError>,
)
    requires
        crate::index::index::writer_started(before, options, after, result),
    ensures
        before.dir().state().locked ==> result matches Err(TantivyError::LockFailure(_, _)),
        after.dir().state().meta == before.dir().state().meta,
        after.dir().state().managed == before.dir().state().managed,
        after.dir().state().damaged == before.dir().state().damaged,
        after.dir().state().unlocked_writes == before.dir().state().unlocked_writes,
        result is Err ==> after.dir().state().locked == before.dir().state().locked,
        result matches Ok(writer) ==> {
            &&& after.dir().state().locked
            &&& before.dir().state().meta matches MetaFile::Valid(meta) && writer.spec_opstamp()
                == meta.opstamp
            &&& writer.spec_options() == options
            &&& writer.spec_schema() == before.spec_schema()
            &&& writer.spec_pending_docs() == 0
            &&& options.num_worker_threads > 0
            &&& 15_000_000 <= options.memory_budget_per_thread < 4_293_967_295
        },
        before.dir().reliable() && !before.dir().state().locked && before.dir().state().meta is Valid
            && options.num_worker_threads > 0 && 15_000_000 <= options.memory_budget_per_thread
            < 4_293_967_295 ==> result is Ok,
{
}

/// As many threads are used as are allowed, can run at once and have enough memory, but at least
/// one: one more would be too many, or would leave too little memory for each.
pub proof fn lemma_as_many_threads_as_possible(memory_budget: usize, available: usize)
    requires
        available > 0,
    ensures
        ({
            let chosen = crate::index::index::chosen_num_threads(memory_budget, available);
            let options = crate::index::index::shared_options(chosen, memory_budget);
            &&& 1 <= chosen <= 8
            &&& chosen <= available
            &&& chosen > 1 ==> chosen * 15_000_000 <= memory_budget
            &&& chosen < 8 && chosen < available ==> (chosen + 1) * 15_000_000 > memory_budget
            &&& options.num_worker_threads == chosen
            &&& options.memory_budget_per_thread * chosen <= memory_budget
            &&& memory_budget < (options.memory_budget_per_thread + 1) * chosen
        }),
{
    let chosen = crate::index::index::chosen_num_threads(memory_budget, available) as int;
    let most: int = if available < 8 {
        available as int
    } else {
        8
    };
    let budget = memory_budget as int;
    assert(chosen >= 1 && chosen <= most && (chosen > 1 ==> chosen * 15_000_000 <= budget) && (chosen
        < most ==> (chosen + 1) * 15_000_000 > budget)) by {
        if budget / most < 15_000_000 {
            assert(budget < 15_000_000 * most) by (nonlinear_arith)
                requires
                    budget / most < 15_000_000,
                    most > 0,
                    budget >= 0,
            ;
        } else {
            assert(most * 15_000_000 <= budget) by (nonlinear_arith)
                requires
                    budget / most >= 15_000_000,
                    most > 0,
                    budget >= 0,
            ;
        }
    }
    assert((budget / chosen) * chosen <= budget && budget < (budget / chosen + 1) * chosen)
        by (nonlinear_arith)
        requires
            chosen > 0,
            budget >= 0,
    ;
}

/// Ending one use of a segment removes it from the segments in use once, if it is there, and no
/// other.
pub proof fn lemma_release_ends_one_use(
    before: Seq<SegmentMeta>,
    meta: SegmentMeta,
    after: Seq<SegmentMeta>,
)
    requires
        crate::index::meta::is_released(before, meta, after),
    ensures
        after.to_multiset() == before.to_multiset().remove(meta),
        before.contains(meta) ==> after.len() == before.len() - 1,
        !before.contains(meta) ==> after == before,
{
    broadcast use vstd::seq_lib::group_to_multiset_ensures;

    if before.contains(meta) {
        let first = choose|first: int|
            0 <= first < before.len() && #[trigger] before[first] == meta && after == before.remove(
                first,
            ) && forall|i: int| 0 <= i < first ==> #[trigger] before[i] != meta;
        assert(before.remove(first).to_multiset() =~= before.to_multiset().remove(before[first]));
    } else {
        assert(before.to_multiset().count(meta) == 0);
        assert(before.to_multiset().remove(meta) =~= before.to_multiset());
    }
}

/// A segment has one file for each component, which names the segment and the component; only the
/// list of deletions has a number of its own. Segments with different ids share no file.
pub proof fn lemma_files_of_segments(segment: SegmentMeta, other: SegmentMeta, file: SegmentFile)
    ensures
        segment.has_file(file) ==> file.segment_id == segment.segment_id,
        segment.has_file(file) && file.component != SegmentComponent::Delete ==> file.opstamp == 0,
        segment.has_file(file) && file.component == SegmentComponent::Delete ==> file.opstamp == (
        match segment.deletes {
            Some(deletes) => deletes.opstamp,
            None => 0,
        }),
        file.segment_id == segment.segment_id && file.component != SegmentComponent::Delete
            && file.opstamp == 0 ==> segment.has_file(file),
        file.segment_id == segment.segment_id && file.component == SegmentComponent::Delete && (
        segment.deletes matches Some(deletes) && deletes.opstamp == file.opstamp)
            ==> segment.has_file(file),
        segment.segment_id != other.segment_id ==> !(segment.has_file(file) && other.has_file(file)),
{
}

/// A file is looked at for damage exactly if it belongs to some segment of the index.
pub proof fn lemma_active_files(segments: Seq<SegmentMeta>, file: SegmentFile)
    ensures
        crate::index::index::is_active(segments, file) <==> exists|segment: SegmentMeta| #[trigger]
            segments.contains(segment) && file.segment_id == segment.segment_id && file.opstamp == (
            match (file.component, segment.deletes) {
                (SegmentComponent::Delete, Some(deletes)) => deletes.opstamp,
                _ => 0,
            }),
{
    if crate::index::index::is_active(segments, file) {
        let i = choose|i: int| 0 <= i < segments.len() && (#[trigger] segments[i]).has_file(file);
        assert(segments.contains(segments[i]));
    }
    if exists|segment: SegmentMeta| #[trigger]
        segments.contains(segment) && file.segment_id == segment.segment_id && file.opstamp == (
        match (file.component, segment.deletes) {
            (SegmentComponent::Delete, Some(deletes)) => deletes.opstamp,
            _ => 0,
        }) {
        let segment = choose|segment: SegmentMeta| #[trigger]
            segments.contains(segment) && file.segment_id == segment.segment_id && file.opstamp == (
            match (file.component, segment.deletes) {
                (SegmentComponent::Delete, Some(deletes)) => deletes.opstamp,
                _ => 0,
            });
        let i = choose|i: int| 0 <= i < segments.len() && segments[i] == segment;
        assert(segments[i].has_file(file));
    }
}

/// The documents that a reader counts are those of all segments without the deleted ones.
pub proof fn lemma_alive_documents_add_up(
    segments: Seq<crate::index::meta::Segment>,
    segment: crate::index::meta::Segment,
)
    ensures
        crate::index::reader::alive_docs(Seq::empty()) == 0,
        segment.meta.deletes is None ==> crate::index::reader::alive_docs(segments.push(segment))
            == crate::index::reader::alive_docs(segments) + segment.meta.max_doc,
        segment.meta.deletes matches Some(deletes) && deletes.num_deleted_docs
            <= segment.meta.max_doc ==> crate::index::reader::alive_docs(segments.push(segment))
            + (segment.meta.deletes->0).num_deleted_docs == crate::index::reader::alive_docs(
            segments,
        ) + segment.meta.max_doc,
        segment.meta.deletes matches Some(deletes) && deletes.num_deleted_docs
            >= segment.meta.max_doc ==> crate::index::reader::alive_docs(segments.push(segment))
            == crate::index::reader::alive_docs(segments),
{
    assert(segments.push(segment).drop_last() =~= segments);
}

/// A reader has the segments of the last commit, in their order, and the schema and the settings
/// of the index.
pub proof fn lemma_reader_sees_the_last_commit<D: Directory>(
    index: Index<D>,
    reload_policy: crate::index::reader::ReloadPolicy,
    result: Result<crate::index::reader::IndexReader, TantivyError>,
)
    requires
        crate::index::reader::opened_reader(index, reload_policy, result),
    ensures
        result matches Ok(reader) ==> {
            &&& reader.reload_policy == reload_policy
            &&& index.dir().state().meta matches MetaFile::Valid(meta) && reader.segments@.len()
                == meta.segments.len() && forall|i: int|
                0 <= i < meta.segments.len() ==> {
                    &&& (#[trigger] reader.segments@[i]).meta == meta.segments[i]
                    &&& reader.segments@[i].schema@ == index.spec_schema()
                    &&& reader.segments@[i].settings == index.spec_settings()
                }
        },
        index.dir().reliable() ==> (result is Ok <==> index.dir().state().meta is Valid),
{
}

/// The tokenizer of a field is the one registered under the name that the field gives; there is an
/// error of its own for each reason that there is none.
pub proof fn lemma_tokenizer_by_name(
    tokenizers: TokenizerManager,
    field_id: u32,
    field_type: crate::schema::FieldTypeView,
)
    ensures
        field_type is Plain ==> crate::index::index::field_tokenizer(
            tokenizers,
            field_id,
            field_type,
        ) == Err::<TextAnalyzer, TantivyError>(TantivyError::NotATextField { field_id }),
        (field_type matches crate::schema::FieldTypeView::Str { indexing, .. } && indexing is None)
            || (field_type matches crate::schema::FieldTypeView::JsonObject { indexing, .. }
            && indexing is None) ==> crate::index::index::field_tokenizer(
            tokenizers,
            field_id,
            field_type,
        ) == Err::<TextAnalyzer, TantivyError>(TantivyError::NoIndexingOptions { field_id }),
        forall|indexing: crate::schema::IndexingView|
            ((field_type matches crate::schema::FieldTypeView::Str { indexing: given, .. } && given
                == Some(indexing)) || (
            field_type matches crate::schema::FieldTypeView::JsonObject { indexing: given, .. }
                && given == Some(indexing))) ==> crate::index::index::field_tokenizer(
                tokenizers,
                field_id,
                field_type,
            ) == (match #[trigger] tokenizers.spec_get(indexing.tokenizer) {
                Some(tokenizer) => Ok::<TextAnalyzer, TantivyError>(tokenizer),
                None => Err(TantivyError::NoTokenizer { field_id }),
            }),
{
}

/// The default settings compress stored documents with LZ4 in blocks of 16 kilobytes, on a thread
/// of its own.
pub proof fn lemma_default_settings(settings: IndexSettings)
    ensures
        settings == crate::index::meta::default_settings() <==> {
            &&& settings.docstore_compression == Compressor::Lz4
            &&& settings.docstore_compress_dedicated_thread
            &&& settings.docstore_blocksize == 16 * 1024
        },
{
}

/// Taking the lock fails because someone holds it, or for reasons of the place itself; a reliable
/// place has no such reasons.
pub proof fn lemma_reliable_locks(state: DirectoryState, error: LockError)
    ensures
        state.lock_fails(true, error) <==> state.locked && error == LockError::LockBusy,
        !state.locked && state.lock_fails(false, error) ==> state.faults.lock.contains(error),
{
}

/// An index that is there is opened if it has the schema asked for, with its segments and settings
/// and the tokenizers of the builder. With another schema it is refused and left alone. Where there
/// is none, an empty one is created.
pub proof fn lemma_open_or_create<D: Directory>(
    builder: IndexBuilder,
    directory: D,
    result: Result<Index<D>, crate::index::index::Refused<D>>,
)
    requires
        builder.opened_or_created(directory, result),
        directory.reliable(),
        directory.state().meta is Valid || directory.state().meta is Absent,
    ensures
        directory.state().meta matches MetaFile::Valid(meta) ==> match result {
            Ok(index) => {
                &&& builder.spec_schema() == Some(meta.schema)
                &&& index.dir() == directory
                &&& index.spec_schema() == meta.schema
                &&& index.spec_settings() == meta.index_settings
                &&& index.spec_tokenizers() == builder.spec_tokenizers()
                &&& index.spec_fast_field_tokenizers() == builder.spec_fast_field_tokenizers()
            },
            Err(refused) => {
                &&& refused.directory == directory
                &&& builder.spec_schema() != Some(meta.schema)
                &&& builder.spec_schema() is Some ==> refused.error == TantivyError::SchemaMismatch
            },
        },
        directory.state().meta is Absent ==> match result {
            Ok(index) => {
                &&& builder.spec_schema() == Some(index.spec_schema())
                &&& index.dir().state().meta matches MetaFile::Valid(meta) && meta.segments.len()
                    == 0 && meta.schema == index.spec_schema() && meta.index_settings
                    == builder.spec_settings()
            },
            Err(refused) => {
                &&& builder.spec_schema() is None
                &&& refused.directory == directory
                &&& refused.error == TantivyError::NoSchema
            },
        },
{
}

/// Creating an index that fails leaves the directory as it was, or with the empty description and
/// no files that were not there before.
pub proof fn lemma_failed_creation(
    before: DirectoryState,
    schema: Seq<FieldView>,
    settings: IndexSettings,
    after: DirectoryState,
)
    requires
        crate::index::index::partly_created(before, schema, settings, after),
    ensures
        after.managed.subset_of(before.managed),
        after.damaged.subset_of(before.damaged),
        after.locked == before.locked,
        after.meta == before.meta || (after.meta matches MetaFile::Valid(meta) && meta.schema
            == schema && meta.index_settings == settings && meta.segments.len() == 0),
        after.meta == before.meta && before.meta !is Valid ==> after == before,
{
}

/// Taking the lock, and giving it back, changes nothing else.
pub proof fn lemma_locking_changes_nothing_else(state: DirectoryState)
    ensures
        state.with_lock().locked,
        state.after_lock().locked == state.locked,
        state.with_lock().locks_taken == state.locks_taken + 1,
        state.after_lock().locks_taken == state.locks_taken + 1,
        state.with_lock().meta == state.meta,
        state.after_lock().meta == state.meta,
        state.with_lock().managed == state.managed,
        state.after_lock().managed == state.managed,
        state.with_lock().damaged == state.damaged,
        state.after_lock().damaged == state.damaged,
        state.with_lock().unlocked_writes == state.unlocked_writes,
        state.after_lock().unlocked_writes == state.unlocked_writes,
        state.with_lock().meta_flushed == state.meta_flushed,
        state.with_lock().faults == state.faults,
{
}

/// Writing a description replaces it by the new one and nothing else; that nobody held the lock
/// leaves a trace. It lasts once it was flushed.
pub proof fn lemma_writing_replaces_the_description(
    before: DirectoryState,
    meta: MetaView,
    after: DirectoryState,
    succeeds: bool,
)
    requires
        crate::index::index::saved(before, meta, after, succeeds),
    ensures
        after.meta == before.meta || after.meta == MetaFile::Valid(meta),
        succeeds ==> after.meta == MetaFile::Valid(meta) && after.meta_flushed,
        succeeds && before.locked ==> after.unlocked_writes == before.unlocked_writes,
        succeeds && !before.locked ==> after.unlocked_writes == before.unlocked_writes + 1,
        after.locked == before.locked,
        after.managed == before.managed,
        after.damaged == before.damaged,
        after.locks_taken == before.locks_taken,
        after.faults == before.faults,
{
}

/// An index with the same configuration has the same settings, executor and tokenizers.
pub proof fn lemma_same_configuration<D: Directory>(one: Index<D>, other: Index<D>)
    requires
        one.same_configuration(other),
    ensures
        one.spec_settings() == other.spec_settings(),
        one.spec_executor() == other.spec_executor(),
        one.spec_tokenizers() == other.spec_tokenizers(),
        one.spec_fast_field_tokenizers() == other.spec_fast_field_tokenizers(),
{
}

/// A broken description is reported as what it is, whatever is asked for, and left alone.
pub proof fn lemma_broken_descriptions_are_reported<D: Directory>(
    builder: IndexBuilder,
    directory: D,
    result: Result<Index<D>, crate::index::index::Refused<D>>,
)
    requires
        builder.opened_or_created(directory, result),
        directory.reliable(),
        directory.state().meta is NotUtf8 || directory.state().meta is Undecodable,
    ensures
        result matches Err(refused) && refused.directory == directory && refused.error == (
        if directory.state().meta is NotUtf8 {
            TantivyError::MetaNotUtf8
        } else {
            TantivyError::MetaUndecodable
        }),
{
}

/// A writer cannot work with too little or too much memory for each thread, or without threads.
pub proof fn lemma_flaws_of_options(options: IndexWriterOptions)
    ensures
        15_000_000 <= options.memory_budget_per_thread < 4_293_967_295 && options.num_worker_threads
            >= 1 <==> options.flaw() is None,
        !(15_000_000 <= options.memory_budget_per_thread < 4_293_967_295) ==> options.flaw() == Some(
            TantivyError::MemoryBudgetOutOfRange { per_thread: options.memory_budget_per_thread },
        ),
        15_000_000 <= options.memory_budget_per_thread < 4_293_967_295 && options.num_worker_threads
            == 0 ==> options.flaw() == Some(TantivyError::NoWorkerThread),
{
}

/// A segment of an index is described by the schema and the settings of the index.
pub proof fn lemma_segments_of_an_index(
    segment: crate::index::meta::Segment,
    schema: Seq<FieldView>,
    settings: IndexSettings,
    meta: SegmentMeta,
)
    requires
        crate::index::meta::is_segment(segment, schema, settings, meta),
    ensures
        segment.schema@ == schema,
        segment.settings == settings,
        segment.meta == meta,
{
}

/// Fields that are there keep their numbers when fields are appended in several steps.
pub proof fn lemma_extending_step_by_step(
    first: Seq<FieldView>,
    second: Seq<FieldView>,
    third: Seq<FieldView>,
    field: int,
)
    requires
        crate::schema::Schema::extension_flaw(first, second) is None,
        crate::schema::Schema::extension_flaw(second, third) is None,
        0 <= field < first.len(),
    ensures
        crate::schema::Schema::extension_flaw(first, third) is None,
        field < third.len(),
        third[field] == first[field],
{
    crate::schema::lemma_extends_is_a_preorder(first, second, third);
    assert(second[field] == first[field]);
}

/// Loading fails because the description is not there or broken, or for reasons of the place itself,
/// whose error is then handed on; a reliable place has no such reasons.
pub proof fn lemma_why_loading_fails(state: DirectoryState, error: TantivyError)
    ensures
        crate::index::index::load_fails(state, true, error) <==> crate::index::index::loaded(
            state.meta,
        ) == Err::<MetaView, TantivyError>(error),
        crate::index::index::load_fails(state, false, error) && state.meta is Valid ==> (
        error matches TantivyError::OpenRead(cause) && state.faults.read_meta.contains(cause)),
        crate::index::index::is_search_failure(state, error) ==> (
        error matches TantivyError::OpenRead(cause) && state.faults.meta_exists.contains(cause)),
{
}

/// Creating an index is refused without a schema, before anything happens, or because writing goes
/// wrong.
pub proof fn lemma_why_creation_is_refused<D: Directory>(
    builder: IndexBuilder,
    directory: D,
    refused: crate::index::index::Refused<D>,
)
    requires
        builder.creation_refused(directory, refused),
    ensures
        builder.spec_schema() is None ==> refused.error == TantivyError::NoSchema
            && refused.directory == directory,
        builder.spec_schema() is Some ==> refused.error == TantivyError::WriteFailed
            && !directory.reliable(),
        refused.directory.state().managed.subset_of(directory.state().managed),
        refused.directory.state().locked == directory.state().locked,
{
}

/// A merge that fails leaves the description as it was, or as the merge would have left it: the
/// segments that were not merged are there in any case.
pub proof fn lemma_failed_merge_keeps_the_others(
    writer: IndexWriter,
    before: DirectoryState,
    reliable: bool,
    merged_ids: Seq<SegmentId>,
    merged: SegmentMeta,
    after: DirectoryState,
    error: TantivyError,
    segment: SegmentMeta,
)
    requires
        crate::index::index::update_failed(
            before,
            reliable,
            writer.merge_of(merged_ids, merged),
            after,
            error,
        ),
    ensures
        reliable ==> after == before,
        after.managed == before.managed,
        after.locked == before.locked,
        before.meta matches MetaFile::Valid(meta) && meta.segments.contains(segment)
            && !merged_ids.contains(segment.segment_id) ==> (
        after.meta matches MetaFile::Valid(new) && new.segments.contains(segment)
            && new.index_settings == (before.meta->Valid_0).index_settings),
{
    if let MetaFile::Valid(meta) = before.meta {
        if after.meta != before.meta {
            let flushed = before.written(writer.merged_meta(meta, merged_ids, merged)).flushed();
            lemma_merge_replaces_only_merged(writer, before, meta, merged_ids, merged, flushed);
        }
    }
}

/// A new directory in memory is empty, and nobody holds its lock.
pub proof fn lemma_new_directories(state: DirectoryState)
    requires
        crate::index::directory::is_new(state),
    ensures
        state.meta is Absent,
        !state.locked,
        state.managed == Set::<SegmentFile>::empty(),
        state.damaged == Set::<SegmentFile>::empty(),
{
}

/// The content of a description that was read is what it holds.
pub proof fn lemma_contents_show_descriptions(meta: IndexMeta)
    ensures
        crate::index::directory::MetaContent::Valid(meta)@ == MetaFile::Valid(meta@),
        crate::index::directory::MetaContent::NotUtf8@ == MetaFile::NotUtf8,
        crate::index::directory::MetaContent::Undecodable@ == MetaFile::Undecodable,
{
}

/// The segments that are loaded are those of the last commit, in their order.
pub proof fn lemma_loaded_segments<D: Directory>(
    index: Index<D>,
    result: Result<Vec<crate::index::meta::Segment>, TantivyError>,
)
    requires
        crate::index::index::segments_loaded(index, result),
    ensures
        result matches Ok(segments) ==> (index.dir().state().meta matches MetaFile::Valid(meta)
            && segments@.len() == meta.segments.len() && forall|i: int|
            0 <= i < segments@.len() ==> (#[trigger] segments@[i]).meta == meta.segments[i]
                && segments@[i].schema@ == index.spec_schema()),
        index.dir().reliable() ==> (result is Ok <==> index.dir().state().meta is Valid),
{
}

/// A plain builder asks for the schema and the settings given, and nothing else of its own.
pub proof fn lemma_plain_builders(
    builder: IndexBuilder,
    schema: Seq<FieldView>,
    settings: IndexSettings,
)
    requires
        crate::index::index::is_plain_builder(builder, schema, settings),
    ensures
        builder.spec_schema() == Some(schema),
        builder.spec_settings() == settings,
        builder.spec_tokenizers().spec_get("default"@) is Some,
        builder.spec_fast_field_tokenizers().spec_get("default"@) is Some,
{
}

} // verus!
