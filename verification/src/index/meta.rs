//! What is known of an index and its segments.

use vstd::prelude::*;

use crate::schema::{FieldView, Schema};
use crate::store::codec::Compressor;

verus! {

/// Settings that hold for a whole index.
#[derive(Clone, Copy, Debug, PartialEq, Eq, Structural)]
pub struct IndexSettings {
    /// The compression of stored documents.
    pub docstore_compression: Compressor,
    /// Whether a thread of its own compresses them.
    pub docstore_compress_dedicated_thread: bool,
    /// The size of their blocks.
    pub docstore_blocksize: usize,
}

/// The settings when none are given.
pub open spec fn default_settings() -> IndexSettings {
    IndexSettings {
        docstore_compression: Compressor::Lz4,
        docstore_compress_dedicated_thread: true,
        docstore_blocksize: 16_384,
    }
}

impl Default for IndexSettings {
    fn default() -> (settings: Self)
        ensures
            settings == default_settings(),
    {
        IndexSettings {
            docstore_compression: Compressor::default(),
            docstore_compress_dedicated_thread: true,
            docstore_blocksize: 16_384,
        }
    }
}

/// The id of a segment.
#[derive(Clone, Copy, Debug, PartialEq, Eq, Structural)]
pub struct SegmentId {
    pub uuid: u128,
}

/// The deletions of a segment.
#[derive(Clone, Copy, Debug, PartialEq, Eq, Structural)]
pub struct DeleteMeta {
    pub num_deleted_docs: u32,
    pub opstamp: u64,
}

/// What is known of a segment.
#[derive(Clone, Copy, Debug, PartialEq, Eq, Structural)]
pub struct SegmentMeta {
    pub segment_id: SegmentId,
    /// The number of documents, deleted ones included.
    pub max_doc: u32,
    pub deletes: Option<DeleteMeta>,
}

/// The parts that a segment is kept in.
#[derive(Clone, Copy, Debug, PartialEq, Eq, Structural)]
pub enum SegmentComponent {
    Postings,
    Positions,
    FastFields,
    FieldNorms,
    Terms,
    Store,
    TempStore,
    Delete,
}

/// A file of a segment.
#[derive(Clone, Copy, Debug, PartialEq, Eq, Structural)]
pub struct SegmentFile {
    pub segment_id: SegmentId,
    pub component: SegmentComponent,
    /// Which list of deletions it is; zero for the other components.
    pub opstamp: u64,
}

impl SegmentMeta {
    /// The id of the segment.
    pub fn id(&self) -> (segment_id: SegmentId)
        ensures
            segment_id == self.segment_id,
    {
        self.segment_id
    }

    /// The file of a component.
    pub open spec fn file(self, component: SegmentComponent) -> SegmentFile {
        SegmentFile {
            segment_id: self.segment_id,
            component,
            opstamp: match (component, self.deletes) {
                (SegmentComponent::Delete, Some(deletes)) => deletes.opstamp,
                _ => 0,
            },
        }
    }

    /// Some component of the segment is kept in `file`.
    pub open spec fn has_file(self, file: SegmentFile) -> bool {
        file == self.file(file.component)
    }

    /// The files of the segment, one for each component.
    pub fn list_files(&self) -> (files: Vec<SegmentFile>)
        ensures
            forall|file: SegmentFile| #[trigger] files@.contains(file) <==> self.has_file(file),
    {
        let opstamp: u64 = match self.deletes {
            Some(deletes) => deletes.opstamp,
            None => 0,
        };
        let segment_id: SegmentId = self.segment_id;
        let files: Vec<SegmentFile> = vec![
            SegmentFile { segment_id, component: SegmentComponent::Postings, opstamp: 0 },
            SegmentFile { segment_id, component: SegmentComponent::Positions, opstamp: 0 },
            SegmentFile { segment_id, component: SegmentComponent::FastFields, opstamp: 0 },
            SegmentFile { segment_id, component: SegmentComponent::FieldNorms, opstamp: 0 },
            SegmentFile { segment_id, component: SegmentComponent::Terms, opstamp: 0 },
            SegmentFile { segment_id, component: SegmentComponent::Store, opstamp: 0 },
            SegmentFile { segment_id, component: SegmentComponent::TempStore, opstamp: 0 },
            SegmentFile { segment_id, component: SegmentComponent::Delete, opstamp },
        ];
        proof {
            assert forall|file: SegmentFile| #[trigger] files@.contains(file) <==> self.has_file(
                file,
            ) by {
                if self.has_file(file) {
                    let position: int = match file.component {
                        SegmentComponent::Postings => 0,
                        SegmentComponent::Positions => 1,
                        SegmentComponent::FastFields => 2,
                        SegmentComponent::FieldNorms => 3,
                        SegmentComponent::Terms => 4,
                        SegmentComponent::Store => 5,
                        SegmentComponent::TempStore => 6,
                        SegmentComponent::Delete => 7,
                    };
                    assert(files@[position] == file);
                }
            }
        }
        files
    }
}

/// The description of an index.
#[derive(Debug)]
pub struct IndexMeta {
    pub index_settings: IndexSettings,
    pub segments: Vec<SegmentMeta>,
    pub schema: Schema,
    pub opstamp: u64,
    pub payload: Option<String>,
}

/// The description of an index, as a value of the logic.
#[verifier::ext_equal]
pub struct MetaView {
    pub index_settings: IndexSettings,
    pub segments: Seq<SegmentMeta>,
    pub schema: Seq<FieldView>,
    pub opstamp: u64,
    pub payload: Option<Seq<char>>,
}

impl View for IndexMeta {
    type V = MetaView;

    open spec fn view(&self) -> MetaView {
        MetaView {
            index_settings: self.index_settings,
            segments: self.segments@,
            schema: self.schema@,
            opstamp: self.opstamp,
            payload: match self.payload {
                Some(payload) => Some(payload@),
                None => None,
            },
        }
    }
}

/// The description of an index without segments.
pub open spec fn empty_meta(schema: Seq<FieldView>, index_settings: IndexSettings) -> MetaView {
    MetaView { index_settings, segments: Seq::empty(), schema, opstamp: 0, payload: None }
}

impl Clone for IndexMeta {
    fn clone(&self) -> (meta: IndexMeta)
        ensures
            meta@ == self@,
    {
        let payload: Option<String> = match &self.payload {
            Some(payload) => Some(payload.clone()),
            None => None,
        };
        IndexMeta {
            index_settings: self.index_settings,
            segments: vstd::slice::slice_to_vec(self.segments.as_slice()),
            schema: self.schema.clone(),
            opstamp: self.opstamp,
            payload,
        }
    }
}

impl IndexMeta {
    /// The description of an index without segments and with the default settings.
    pub fn with_schema(schema: Schema) -> (meta: IndexMeta)
        ensures
            meta@ == empty_meta(schema@, default_settings()),
    {
        IndexMeta {
            index_settings: IndexSettings::default(),
            segments: Vec::new(),
            schema,
            opstamp: 0,
            payload: None,
        }
    }
}

/// `after` is `before` without the first of the entries that are `meta`, if there is one.
pub open spec fn is_released(
    before: Seq<SegmentMeta>,
    meta: SegmentMeta,
    after: Seq<SegmentMeta>,
) -> bool {
    if before.contains(meta) {
        exists|first: int|
            0 <= first < before.len() && #[trigger] before[first] == meta && after == before.remove(
                first,
            ) && forall|i: int| 0 <= i < first ==> #[trigger] before[i] != meta
    } else {
        after == before
    }
}

/// The segments that are in use: those of the index, and those that are being written.
pub struct SegmentMetaInventory {
    in_use: Vec<SegmentMeta>,
}

impl View for SegmentMetaInventory {
    type V = Seq<SegmentMeta>;

    closed spec fn view(&self) -> Seq<SegmentMeta> {
        self.in_use@
    }
}

impl SegmentMetaInventory {
    /// No segments.
    pub fn new() -> (inventory: SegmentMetaInventory)
        ensures
            inventory@ == Seq::<SegmentMeta>::empty(),
    {
        SegmentMetaInventory { in_use: Vec::new() }
    }

    /// The segments that are in use.
    pub fn all(&self) -> (metas: Vec<SegmentMeta>)
        ensures
            metas@ == self@,
    {
        vstd::slice::slice_to_vec(self.in_use.as_slice())
    }

    /// A segment that is in use from now on.
    pub fn new_segment_meta(&mut self, segment_id: SegmentId, max_doc: u32) -> (meta: SegmentMeta)
        ensures
            meta == (SegmentMeta { segment_id, max_doc, deletes: None }),
            final(self)@ == old(self)@.push(meta),
    {
        let meta: SegmentMeta = SegmentMeta { segment_id, max_doc, deletes: None };
        self.in_use.push(meta);
        meta
    }

    /// Segments that are known already are in use once more from now on.
    pub fn track(&mut self, metas: &Vec<SegmentMeta>)
        ensures
            final(self)@ == old(self)@ + metas@,
    {
        self.in_use.extend_from_slice(metas.as_slice());
        assert(self.in_use@ =~= old(self).in_use@ + metas@);
    }

    /// Ends one use of a segment.
    pub fn release(&mut self, meta: SegmentMeta)
        ensures
            is_released(old(self)@, meta, final(self)@),
    {
        let mut next: usize = 0;
        while next < self.in_use.len()
            invariant
                next <= self.in_use@.len(),
                self.in_use@ == old(self).in_use@,
                forall|i: int| 0 <= i < next ==> #[trigger] self.in_use@[i] != meta,
            decreases self.in_use@.len() - next,
        {
            if self.in_use[next] == meta {
                assert(self.in_use@[next as int] == meta);
                self.in_use.remove(next);
                return;
            }
            next = next + 1;
        }
    }
}

/// A segment together with the schema and the settings of its index.
#[derive(Debug)]
pub struct Segment {
    pub schema: Schema,
    pub settings: IndexSettings,
    pub meta: SegmentMeta,
}

/// `segment` is the segment `meta` of an index with this schema and these settings.
pub open spec fn is_segment(
    segment: Segment,
    schema: Seq<FieldView>,
    settings: IndexSettings,
    meta: SegmentMeta,
) -> bool {
    segment.schema@ == schema && segment.settings == settings && segment.meta == meta
}

} // verus!
