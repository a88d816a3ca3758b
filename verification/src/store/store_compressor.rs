//! Writing blocks, and stacking the blocks of another store without decompressing them.

use vstd::prelude::*;

use crate::error::StoreError;
use crate::store::block_trailer::{write_block_trailer, BlockFieldRemap};
use crate::store::codec::{Compressor, Decompressor};
use crate::store::contents::StoreContents;
use crate::store::layout::{Checkpoint, DocStoreFooter, StoreFile, StoreLayout};
use crate::store::reader::StoreReader;
use crate::store::version::{DocStoreVersion, DOC_STORE_VERSION};

verus! {

/// What stands behind the payload of a block with remap `map`: nothing before version `V3`.
pub open spec fn trailer_for(version: DocStoreVersion, map: Map<u32, u32>) -> Seq<u8> {
    if version.spec_number() < 3 {
        Seq::empty()
    } else {
        crate::store::block_trailer::trailer_bytes(map)
    }
}

/// The remap of a copied block, for the remap of its source: composed with `renames` where
/// fields are renamed, else empty.
pub open spec fn copied_map(source: Map<u32, u32>, renames: Option<Map<u32, u32>>) -> Map<
    u32,
    u32,
> {
    match renames {
        Some(outer) => crate::store::block_trailer::composed_map(source, outer),
        None => Map::empty(),
    }
}

/// The layout so far, and the error that stopped the copying.
pub struct Stacked {
    pub layout: StoreLayout,
    pub error: Option<StoreError>,
}

/// `target` with the block of `source` at `checkpoint` copied behind it. Its trailer is replaced
/// by one of the format `version`.
pub open spec fn stack_block(
    target: StoreLayout,
    version: DocStoreVersion,
    source: StoreContents,
    renames: Option<Map<u32, u32>>,
    checkpoint: Checkpoint,
) -> Stacked {
    match crate::store::contents::split_block(source.version, source.block_at(checkpoint)) {
        Err(error) => Stacked { layout: target, error: Some(error) },
        Ok((payload, map)) => {
            let new_map = copied_map(map, renames);
            if version.spec_number() >= 3 && !crate::store::block_trailer::trailer_fits(new_map) {
                Stacked {
                    layout: StoreLayout { data: target.data + payload, ..target },
                    error: Some(
                        StoreError::TrailerTooLarge {
                            body_len: crate::store::block_trailer::body_bytes(
                                new_map,
                            ).len() as usize,
                        },
                    ),
                }
            } else {
                Stacked {
                    layout: target.append_block(
                        payload + trailer_for(version, new_map),
                        (checkpoint.doc_end - checkpoint.doc_start) as u32,
                    ),
                    error: None,
                }
            }
        },
    }
}

/// `target` with the first `count` blocks of `source` copied behind it, one by one, up to the
/// first error.
pub open spec fn stack_blocks(
    target: StoreLayout,
    version: DocStoreVersion,
    source: StoreContents,
    renames: Option<Map<u32, u32>>,
    count: nat,
) -> Stacked
    decreases count,
{
    if count == 0 {
        Stacked { layout: target, error: None }
    } else {
        let before = stack_blocks(target, version, source, renames, (count - 1) as nat);
        if before.error is Some {
            before
        } else {
            stack_block(
                before.layout,
                version,
                source,
                renames,
                source.layout.checkpoints[count - 1],
            )
        }
    }
}

/// `checkpoint`, `docs` documents and `bytes` bytes further on.
pub open spec fn shifted(checkpoint: Checkpoint, docs: u32, bytes: nat) -> Checkpoint {
    Checkpoint {
        doc_start: (checkpoint.doc_start + docs) as u32,
        doc_end: (checkpoint.doc_end + docs) as u32,
        byte_start: (checkpoint.byte_start + bytes) as usize,
        byte_end: (checkpoint.byte_end + bytes) as usize,
    }
}

/// `target` with all bytes of `source` behind it.
pub open spec fn stack_bytes(target: StoreLayout, source: StoreLayout) -> StoreLayout {
    StoreLayout {
        data: target.data + source.data,
        checkpoints: target.checkpoints + Seq::new(
            source.checkpoints.len(),
            |i: int| shifted(source.checkpoints[i], target.num_docs(), target.data.len()),
        ),
    }
}

/// What stacking `source` on `target` leads to: blocks that are already in the format of the
/// target are copied at once, others one by one.
pub open spec fn stack_result(
    target: StoreLayout,
    version: DocStoreVersion,
    source: StoreContents,
) -> Stacked {
    if source.version.spec_number() < 2 {
        Stacked {
            layout: target,
            error: Some(StoreError::SourceTooOld { number: source.version.spec_number() }),
        }
    } else if source.version.spec_number() >= 3 && version.spec_number() >= 3 {
        Stacked { layout: stack_bytes(target, source.layout), error: None }
    } else {
        stack_blocks(target, version, source, None, source.layout.checkpoints.len())
    }
}

/// What stacking `source` on `target` with renamed fields leads to.
pub open spec fn stack_with_remap_result(
    target: StoreLayout,
    version: DocStoreVersion,
    source: StoreContents,
    renames: Map<u32, u32>,
) -> Stacked {
    if version.spec_number() < 3 {
        Stacked {
            layout: target,
            error: Some(StoreError::TargetTooOld { number: version.spec_number() }),
        }
    } else if source.version.spec_number() < 2 {
        Stacked {
            layout: target,
            error: Some(StoreError::SourceTooOld { number: source.version.spec_number() }),
        }
    } else {
        stack_blocks(target, version, source, Some(renames), source.layout.checkpoints.len())
    }
}

/// The remap to apply on top of those of the source.
pub open spec fn renames_view(renames: Option<BlockFieldRemap>) -> Option<Map<u32, u32>> {
    match renames {
        Some(outer) => Some(outer@),
        None => None,
    }
}

/// The error of a result.
pub open spec fn outcome(result: Result<(), StoreError>) -> Option<StoreError> {
    match result {
        Ok(_) => None,
        Err(error) => Some(error),
    }
}

/// Once an error has stopped the copying, nothing changes any more.
proof fn lemma_stack_error_stays(
    target: StoreLayout,
    version: DocStoreVersion,
    source: StoreContents,
    renames: Option<Map<u32, u32>>,
    count: nat,
    later: nat,
)
    requires
        count <= later,
    ensures
        stack_blocks(target, version, source, renames, count).error is Some ==> stack_blocks(
            target,
            version,
            source,
            renames,
            later,
        ) == stack_blocks(target, version, source, renames, count),
    decreases later,
{
    if count < later {
        lemma_stack_error_stays(target, version, source, renames, count, (later - 1) as nat);
    }
}

/// Copying all bytes keeps the blocks in order.
pub(crate) proof fn lemma_stack_bytes_wf(target: StoreLayout, source: StoreLayout)
    requires
        target.wf(),
        source.wf(),
        target.num_docs() + source.num_docs() <= u32::MAX,
        target.data.len() + source.data.len() <= usize::MAX,
    ensures
        stack_bytes(target, source).wf(),
        stack_bytes(target, source).num_docs() == target.num_docs() + source.num_docs(),
        forall|i: int|
            0 <= i < target.checkpoints.len() ==> #[trigger] stack_bytes(
                target,
                source,
            ).checkpoints[i] == target.checkpoints[i],
        forall|i: int|
            0 <= i < source.checkpoints.len() ==> {
                let moved = stack_bytes(target, source).checkpoints[target.checkpoints.len() + i];
                let checkpoint = #[trigger] source.checkpoints[i];
                &&& moved.doc_start == checkpoint.doc_start + target.num_docs()
                &&& moved.doc_end == checkpoint.doc_end + target.num_docs()
                &&& moved.byte_start == checkpoint.byte_start + target.data.len()
                &&& moved.byte_end == checkpoint.byte_end + target.data.len()
            },
{
    let all = stack_bytes(target, source);
    let first = target.checkpoints.len() as int;
    let count = source.checkpoints.len() as int;
    assert forall|i: int| 0 <= i < count implies {
        let moved = all.checkpoints[first + i];
        let checkpoint = #[trigger] source.checkpoints[i];
        &&& moved.doc_start == checkpoint.doc_start + target.num_docs()
        &&& moved.doc_end == checkpoint.doc_end + target.num_docs()
        &&& moved.byte_start == checkpoint.byte_start + target.data.len()
        &&& moved.byte_end == checkpoint.byte_end + target.data.len()
    } by {
        assert(source.checkpoints[i].doc_end <= source.checkpoints[count - 1].doc_end);
    }
    assert forall|i: int| 0 <= i < all.checkpoints.len() implies {
        let checkpoint = #[trigger] all.checkpoints[i];
        &&& checkpoint.doc_start < checkpoint.doc_end
        &&& checkpoint.byte_start <= checkpoint.byte_end <= all.data.len()
    } by {
        if i < first {
            assert(all.checkpoints[i] == target.checkpoints[i]);
        } else {
            assert(source.checkpoints[i - first].doc_start < source.checkpoints[i - first].doc_end);
        }
    }
    assert forall|i: int, j: int| 0 <= i < j < all.checkpoints.len() implies {
        let earlier = #[trigger] all.checkpoints[i];
        let later = #[trigger] all.checkpoints[j];
        &&& earlier.doc_end <= later.doc_start
        &&& j == i + 1 ==> earlier.doc_end == later.doc_start
        &&& earlier.byte_end <= later.byte_start
    } by {
        if i < first {
            assert(all.checkpoints[i] == target.checkpoints[i]);
        } else {
            assert(source.checkpoints[i - first].doc_start >= 0);
        }
        if j < first {
            assert(all.checkpoints[j] == target.checkpoints[j]);
        } else {
            assert(source.checkpoints[j - first].doc_start >= 0);
        }
        if i < first <= j {
            assert(target.checkpoints[i].doc_end <= target.checkpoints[first - 1].doc_end);
            assert(target.checkpoints[i].byte_end <= target.data.len());
            if j == first {
                assert(source.checkpoints[0].doc_start == 0);
            }
        }
    }
    if first > 0 {
        assert(all.checkpoints[0] == target.checkpoints[0]);
    }
}

/// Compresses blocks and writes them one behind the other.
pub struct BlockCompressor {
    compressor: Compressor,
    first_doc_in_block: u32,
    checkpoints: Vec<Checkpoint>,
    data: Vec<u8>,
    output_version: DocStoreVersion,
}

impl View for BlockCompressor {
    type V = StoreLayout;

    closed spec fn view(&self) -> StoreLayout {
        StoreLayout { data: self.data@, checkpoints: self.checkpoints@ }
    }
}

impl BlockCompressor {
    /// The compression of new blocks.
    pub closed spec fn spec_compressor(self) -> Compressor {
        self.compressor
    }

    /// The format of the blocks.
    pub closed spec fn version(self) -> DocStoreVersion {
        self.output_version
    }

    /// The blocks are in order, and the next one continues after the last document.
    pub closed spec fn wf(self) -> bool {
        &&& self@.wf()
        &&& self.first_doc_in_block == self@.num_docs()
        &&& self.data@.len() <= usize::MAX
    }

    /// The blocks are in order, and their positions can be counted.
    pub proof fn lemma_wf(self)
        requires
            self.wf(),
        ensures
            self@.wf(),
            self@.data.len() <= usize::MAX,
    {
    }

    /// A compressor that has not written anything yet and uses the current format.
    pub fn new(compressor: Compressor) -> (block_compressor: BlockCompressor)
        ensures
            block_compressor.wf(),
            block_compressor@ == StoreLayout::empty(),
            block_compressor.spec_compressor() == compressor,
            block_compressor.version() == DOC_STORE_VERSION,
    {
        Self::new_with_version(compressor, DOC_STORE_VERSION)
    }

    /// A compressor that has not written anything yet and uses the format `output_version`.
    pub fn new_with_version(
        compressor: Compressor,
        output_version: DocStoreVersion,
    ) -> (block_compressor: BlockCompressor)
        ensures
            block_compressor.wf(),
            block_compressor@ == StoreLayout::empty(),
            block_compressor.spec_compressor() == compressor,
            block_compressor.version() == output_version,
    {
        let data: Vec<u8> = Vec::new();
        assert(data@.len() == data.len());
        BlockCompressor {
            compressor,
            first_doc_in_block: 0,
            checkpoints: Vec::new(),
            data,
            output_version,
        }
    }

    /// Registers a block of `num_docs_in_block` documents that starts at `start_offset` and ends
    /// where the data ends.
    fn register_checkpoint(&mut self, num_docs_in_block: u32, start_offset: usize)
        requires
            old(self).first_doc_in_block + num_docs_in_block <= u32::MAX,
        ensures
            final(self).data == old(self).data,
            final(self).compressor == old(self).compressor,
            final(self).output_version == old(self).output_version,
            final(self).first_doc_in_block == old(self).first_doc_in_block + num_docs_in_block,
            final(self).checkpoints@ == old(self).checkpoints@.push(
                Checkpoint {
                    doc_start: old(self).first_doc_in_block,
                    doc_end: (old(self).first_doc_in_block + num_docs_in_block) as u32,
                    byte_start: start_offset,
                    byte_end: old(self).data@.len() as usize,
                },
            ),
            final(self).data@.len() <= usize::MAX,
    {
        let doc_end: u32 = self.first_doc_in_block + num_docs_in_block;
        let end_offset: usize = self.data.len();
        self.checkpoints.push(
            Checkpoint {
                doc_start: self.first_doc_in_block,
                doc_end,
                byte_start: start_offset,
                byte_end: end_offset,
            },
        );
        self.first_doc_in_block = doc_end;
    }

    /// Compresses a block of `num_docs_in_block` documents and writes it, with an empty remap
    /// where the format has remaps.
    pub fn compress_block_and_write(&mut self, bytes: &[u8], num_docs_in_block: u32) -> (result:
        Result<(), StoreError>)
        requires
            old(self).wf(),
            num_docs_in_block > 0,
            old(self)@.num_docs() + num_docs_in_block <= u32::MAX,
            old(self).spec_compressor().accepts(bytes@.len()),
        ensures
            final(self).wf(),
            final(self).spec_compressor() == old(self).spec_compressor(),
            final(self).version() == old(self).version(),
            result is Ok,
            is_block_written(
                old(self)@,
                final(self)@,
                old(self).spec_compressor(),
                old(self).version(),
                bytes@,
                num_docs_in_block,
            ),
    {
        let ghost before = self@;
        let mut payload: Vec<u8> = Vec::new();
        self.compressor.compress_into(bytes, &mut payload);
        let ghost payload_bytes = payload@;
        let start_offset: usize = self.data.len();
        self.data.append(&mut payload);
        if self.output_version.number() >= 3 {
            let empty = BlockFieldRemap::new();
            proof {
                lemma_empty_trailer_fits();
            }
            let written = write_block_trailer(&mut self.data, &empty);
            assert(written is Ok);
        }
        let ghost block = written_block(self.output_version, payload_bytes);
        assert(self.data@ =~= before.data + block);
        self.register_checkpoint(num_docs_in_block, start_offset);
        proof {
            assert(self@.checkpoints =~= before.append_block(block, num_docs_in_block).checkpoints);
            before.lemma_append_block(block, num_docs_in_block);
        }
        Ok(())
    }

    /// Copies the block of `store_reader` at `checkpoint`. Its trailer is replaced by one of the
    /// format of this store, with the fields renamed if asked for.
    fn copy_block(
        &mut self,
        store_reader: &StoreReader,
        renames: &Option<BlockFieldRemap>,
        checkpoint: &Checkpoint,
    ) -> (result: Result<(), StoreError>)
        requires
            old(self).wf(),
            checkpoint.doc_start < checkpoint.doc_end,
            checkpoint.byte_start <= checkpoint.byte_end <= store_reader@.layout.data.len(),
            old(self)@.num_docs() + (checkpoint.doc_end - checkpoint.doc_start) <= u32::MAX,
        ensures
            final(self).wf(),
            final(self).spec_compressor() == old(self).spec_compressor(),
            final(self).version() == old(self).version(),
            ({
                let stacked = stack_block(
                    old(self)@,
                    old(self).version(),
                    store_reader@,
                    renames_view(*renames),
                    *checkpoint,
                );
                &&& final(self)@ == stacked.layout
                &&& outcome(result) == stacked.error
            }),
            result is Ok ==> final(self)@.num_docs() == old(self)@.num_docs() + (checkpoint.doc_end
                - checkpoint.doc_start),
    {
        let ghost before = self@;
        let (payload, source_remap): (&[u8], BlockFieldRemap) =
            match store_reader.split_block_trailer(
            store_reader.get_compressed_block(checkpoint),
        ) {
            Ok(parts) => parts,
            Err(error) => {
                return Err(error);
            },
        };
        let start_offset: usize = self.data.len();
        self.data.extend_from_slice(payload);
        assert(self.data@ =~= before.data + payload@);
        let ghost new_map = copied_map(source_remap@, renames_view(*renames));
        if self.output_version.number() >= 3 {
            let remap: BlockFieldRemap = match renames {
                Some(outer) => source_remap.compose(outer),
                None => BlockFieldRemap::new(),
            };
            assert(remap@ == new_map);
            if let Err(error) = write_block_trailer(&mut self.data, &remap) {
                assert(self.data@.len() == self.data.len());
                assert(self@.wf()) by {
                    assert(self@.checkpoints == before.checkpoints);
                }
                return Err(error);
            }
        }
        let ghost block = payload@ + trailer_for(self.output_version, new_map);
        let num_docs: u32 = checkpoint.doc_end - checkpoint.doc_start;
        assert(self.data@ =~= before.data + block);
        self.register_checkpoint(num_docs, start_offset);
        proof {
            assert(self@.checkpoints =~= before.append_block(block, num_docs).checkpoints);
            before.lemma_append_block(block, num_docs);
        }
        Ok(())
    }

    /// Copies the blocks of `store_reader` one by one, up to the first error.
    fn copy_blocks(&mut self, store_reader: &StoreReader, renames: Option<BlockFieldRemap>) -> (result:
        Result<(), StoreError>)
        requires
            old(self).wf(),
            store_reader@.layout.wf(),
            old(self)@.num_docs() + store_reader@.layout.num_docs() <= u32::MAX,
        ensures
            final(self).wf(),
            final(self).spec_compressor() == old(self).spec_compressor(),
            final(self).version() == old(self).version(),
            ({
                let stacked = stack_blocks(
                    old(self)@,
                    old(self).version(),
                    store_reader@,
                    renames_view(renames),
                    store_reader@.layout.checkpoints.len(),
                );
                &&& final(self)@ == stacked.layout
                &&& outcome(result) == stacked.error
            }),
    {
        let ghost target = self@;
        let ghost source = store_reader@;
        let checkpoints: &Vec<Checkpoint> = store_reader.block_checkpoints();
        let mut next: usize = 0;
        while next < checkpoints.len()
            invariant
                self.wf(),
                self.spec_compressor() == old(self).spec_compressor(),
                self.version() == old(self).version(),
                target == old(self)@,
                source == store_reader@,
                source.layout.wf(),
                checkpoints@ == source.layout.checkpoints,
                target.num_docs() + source.layout.num_docs() <= u32::MAX,
                next <= checkpoints@.len(),
                stack_blocks(
                    target,
                    old(self).version(),
                    source,
                    renames_view(renames),
                    next as nat,
                ) == (Stacked { layout: self@, error: None }),
                self@.num_docs() == target.num_docs() + (if next == 0 {
                    0
                } else {
                    source.layout.checkpoints[next - 1].doc_end as int
                }),
            decreases checkpoints@.len() - next,
        {
            let checkpoint: Checkpoint = checkpoints[next];
            proof {
                let count = source.layout.checkpoints.len() as int;
                assert(source.layout.checkpoints[next as int] == checkpoint);
                assert(checkpoint.doc_end <= source.layout.checkpoints[count - 1].doc_end);
                if next > 0 {
                    assert(source.layout.checkpoints[next - 1].doc_end == checkpoint.doc_start);
                }
                lemma_stack_error_stays(
                    target,
                    self.version(),
                    source,
                    renames_view(renames),
                    next as nat + 1,
                    count as nat,
                );
            }
            if let Err(error) = self.copy_block(store_reader, &renames, &checkpoint) {
                return Err(error);
            }
            next = next + 1;
        }
        Ok(())
    }

    /// Stacks the blocks of another store on those written so far, without decompressing them.
    /// After an error, the blocks before the one that caused it have been stacked.
    pub fn stack_reader(&mut self, store_reader: StoreReader) -> (result: Result<(), StoreError>)
        requires
            old(self).wf(),
            crate::store::laws::stacking_is_refused(
                old(self).version(),
                store_reader@.version,
                None,
            ) || old(self)@.num_docs() + store_reader@.layout.num_docs() <= u32::MAX,
        ensures
            final(self).wf(),
            final(self).spec_compressor() == old(self).spec_compressor(),
            final(self).version() == old(self).version(),
            ({
                let stacked = stack_result(old(self)@, old(self).version(), store_reader@);
                &&& final(self)@ == stacked.layout
                &&& outcome(result) == stacked.error
            }),
    {
        proof {
            use_type_invariant(&store_reader);
            store_reader.lemma_inv();
        }
        let source_version: u32 = store_reader.doc_store_version().number();
        if source_version < 2 {
            return Err(StoreError::SourceTooOld { number: source_version });
        }
        if source_version >= 3 && self.output_version.number() >= 3 {
            self.copy_bytes(&store_reader);
            return Ok(());
        }
        self.copy_blocks(&store_reader, None)
    }

    /// Stacks the blocks of another store on those written so far, without decompressing them,
    /// and renames the fields of their documents. After an error, the blocks before the one that
    /// caused it have been stacked.
    pub fn stack_reader_with_remap(
        &mut self,
        store_reader: StoreReader,
        remap: BlockFieldRemap,
    ) -> (result: Result<(), StoreError>)
        requires
            old(self).wf(),
            crate::store::laws::stacking_is_refused(
                old(self).version(),
                store_reader@.version,
                Some(remap@),
            ) || old(self)@.num_docs() + store_reader@.layout.num_docs() <= u32::MAX,
        ensures
            final(self).wf(),
            final(self).spec_compressor() == old(self).spec_compressor(),
            final(self).version() == old(self).version(),
            ({
                let stacked = stack_with_remap_result(
                    old(self)@,
                    old(self).version(),
                    store_reader@,
                    remap@,
                );
                &&& final(self)@ == stacked.layout
                &&& outcome(result) == stacked.error
            }),
    {
        proof {
            use_type_invariant(&store_reader);
            store_reader.lemma_inv();
        }
        if self.output_version.number() < 3 {
            return Err(StoreError::TargetTooOld { number: self.output_version.number() });
        }
        let source_version: u32 = store_reader.doc_store_version().number();
        if source_version < 2 {
            return Err(StoreError::SourceTooOld { number: source_version });
        }
        self.copy_blocks(&store_reader, Some(remap))
    }

    /// Copies all bytes of `store_reader`.
    fn copy_bytes(&mut self, store_reader: &StoreReader)
        requires
            old(self).wf(),
            store_reader@.layout.wf(),
            old(self)@.num_docs() + store_reader@.layout.num_docs() <= u32::MAX,
        ensures
            final(self).wf(),
            final(self).spec_compressor() == old(self).spec_compressor(),
            final(self).version() == old(self).version(),
            final(self)@ == stack_bytes(old(self)@, store_reader@.layout),
    {
        let ghost target = self@;
        let ghost source = store_reader@.layout;
        let start_shift: usize = self.data.len();
        let doc_shift: u32 = self.first_doc_in_block;
        self.data.extend_from_slice(store_reader.block_data().as_slice());
        assert(self.data@ =~= target.data + source.data);
        assert(self.data@.len() == self.data.len());
        let ghost expected = stack_bytes(target, source);
        proof {
            lemma_stack_bytes_wf(target, source);
        }
        let checkpoints: &Vec<Checkpoint> = store_reader.block_checkpoints();
        let mut next: usize = 0;
        while next < checkpoints.len()
            invariant
                self.data@ == expected.data,
                self.data@.len() <= usize::MAX,
                expected == stack_bytes(target, source),
                target == old(self)@,
                source == store_reader@.layout,
                source.wf(),
                target.num_docs() + source.num_docs() <= u32::MAX,
                start_shift == target.data.len(),
                doc_shift == target.num_docs(),
                checkpoints@ == source.checkpoints,
                next <= checkpoints@.len(),
                self.compressor == old(self).compressor,
                self.output_version == old(self).output_version,
                self.checkpoints@ == expected.checkpoints.take(target.checkpoints.len() + next),
                self.first_doc_in_block == doc_shift + (if next == 0 {
                    0
                } else {
                    source.checkpoints[next - 1].doc_end as int
                }),
            decreases checkpoints@.len() - next,
        {
            let checkpoint: Checkpoint = checkpoints[next];
            proof {
                let count = source.checkpoints.len() as int;
                assert(source.checkpoints[next as int] == checkpoint);
                assert(checkpoint.doc_end <= source.checkpoints[count - 1].doc_end);
            }
            let moved: Checkpoint = Checkpoint {
                doc_start: checkpoint.doc_start + doc_shift,
                doc_end: checkpoint.doc_end + doc_shift,
                byte_start: checkpoint.byte_start + start_shift,
                byte_end: checkpoint.byte_end + start_shift,
            };
            self.checkpoints.push(moved);
            self.first_doc_in_block = moved.doc_end;
            next = next + 1;
            assert(self.checkpoints@ =~= expected.checkpoints.take(
                target.checkpoints.len() + next,
            ));
        }
        assert(self.checkpoints@ =~= expected.checkpoints);
    }

    /// Ends the store.
    pub fn close(self) -> (store_file: StoreFile)
        requires
            self.wf(),
        ensures
            store_file@ == self@,
            store_file.contents() == (StoreContents {
                layout: self@,
                decompressor: self.spec_compressor().spec_decompressor(),
                version: self.version(),
            }),
            store_file.footer.offset == self@.data.len(),
    {
        let offset: u64 = self.data.len() as u64;
        StoreFile {
            footer: DocStoreFooter {
                offset,
                decompressor: Decompressor::from(self.compressor),
                doc_store_version: self.output_version,
            },
            data: self.data,
            checkpoints: self.checkpoints,
        }
    }
}

/// A block that is written with this payload: its remap is empty.
pub open spec fn written_block(version: DocStoreVersion, payload: Seq<u8>) -> Seq<u8> {
    payload + trailer_for(version, Map::empty())
}

/// `after` is `before` with a block behind it whose payload decompresses to `data`.
pub open spec fn is_block_written(
    before: StoreLayout,
    after: StoreLayout,
    compressor: Compressor,
    version: DocStoreVersion,
    data: Seq<u8>,
    num_docs: u32,
) -> bool {
    exists|payload: Seq<u8>| #[trigger]
        compressor.is_payload(payload, data) && after == before.append_block(
            written_block(version, payload),
            num_docs,
        )
}

/// What is written as a block is read back from it, with an empty remap.
pub proof fn lemma_written_block(
    compressor: Compressor,
    version: DocStoreVersion,
    payload: Seq<u8>,
    data: Seq<u8>,
)
    requires
        compressor.is_payload(payload, data),
    ensures
        crate::store::contents::split_block(version, written_block(version, payload)) == Ok::<
            _,
            StoreError,
        >((payload, Map::<u32, u32>::empty())),
        crate::store::contents::load_block(
            version,
            compressor.spec_decompressor(),
            written_block(version, payload),
        ) == Ok::<_, StoreError>((data, Map::<u32, u32>::empty())),
{
    let map = Map::<u32, u32>::empty();
    let block = written_block(version, payload);
    if version.spec_number() >= 3 {
        lemma_empty_trailer_fits();
        crate::store::block_trailer::lemma_trailer_roundtrip(payload, map);
        assert(block.take(payload.len() as int) =~= payload);
    } else {
        assert(block =~= payload);
    }
}

pub(crate) proof fn lemma_empty_trailer_fits()
    ensures
        crate::store::block_trailer::trailer_fits(Map::<u32, u32>::empty()),
        crate::store::block_trailer::trailer_bytes(Map::<u32, u32>::empty()).len() == 4,
{
    vstd::bytes::lemma_auto_spec_u32_to_from_le_bytes();
}

} // verus!
