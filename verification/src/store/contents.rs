//! What the bytes of a store mean.

use vstd::prelude::*;

use crate::error::{StoreError, TantivyError};
use crate::store::block_cache::CacheState;
use crate::store::codec::Decompressor;
use crate::store::layout::{Checkpoint, StoreFile, StoreLayout};
use crate::store::version::DocStoreVersion;

verus! {

/// The little-endian integer at `position`.
pub open spec fn u32_at(bytes: Seq<u8>, position: int) -> u32 {
    vstd::bytes::spec_u32_from_le_bytes(bytes.subrange(position, position + 4))
}

/// The number of documents that a decompressed block says it holds.
pub open spec fn index_len(block: Seq<u8>) -> nat {
    u32_at(block, block.len() - 4) as nat
}

/// Where the documents of a decompressed block end and the list of their positions starts.
pub open spec fn index_start(block: Seq<u8>) -> int {
    block.len() - (index_len(block) + 1) * 4
}

/// Where document number `doc_pos` of a decompressed block starts.
pub open spec fn doc_offset(block: Seq<u8>, doc_pos: int) -> u32 {
    u32_at(block, index_start(block) + 4 * doc_pos)
}

/// A decompressed block is long enough for its list of positions.
pub open spec fn has_index(block: Seq<u8>) -> bool {
    block.len() >= 4 && index_start(block) >= 0
}

/// In addition, the documents follow each other in front of the list.
pub open spec fn is_readable_block(block: Seq<u8>) -> bool {
    &&& has_index(block)
    &&& index_start(block) <= u32::MAX
    &&& forall|i: int|
        0 <= i < index_len(block) ==> #[trigger] doc_offset(block, i) <= index_start(block)
    &&& forall|i: int, j: int|
        0 <= i < j < index_len(block) ==> #[trigger] doc_offset(block, i) <= #[trigger] doc_offset(
            block,
            j,
        )
}

/// Where document number `doc_pos` is inside a decompressed block.
pub open spec fn doc_range(block: Seq<u8>, doc_pos: u32) -> Result<(usize, usize), TantivyError> {
    if doc_pos > index_len(block) {
        Err(TantivyError::WrongBlock)
    } else if doc_pos == index_len(block) {
        Err(TantivyError::IoError(StoreError::UnexpectedEof))
    } else if doc_pos + 1 == index_len(block) {
        Ok((doc_offset(block, doc_pos as int) as usize, (index_start(block) as u32) as usize))
    } else {
        Ok((doc_offset(block, doc_pos as int) as usize, doc_offset(block, doc_pos + 1) as usize))
    }
}

/// Document number `doc_pos` of a decompressed block.
pub open spec fn doc_in_block(block: Seq<u8>, doc_pos: u32) -> Result<Seq<u8>, TantivyError> {
    match doc_range(block, doc_pos) {
        Ok((start, end)) => Ok(block.subrange(start as int, end as int)),
        Err(error) => Err(error),
    }
}

/// A decompressed block is long enough for its number of documents, and for the list of their
/// positions if it is needed to look document number `doc_pos` up.
pub open spec fn can_look_up(block: Seq<u8>, doc_pos: u32) -> bool {
    block.len() >= 4 && (doc_pos <= index_len(block) ==> index_start(block) >= 0)
}

/// Document number `doc_pos` of a decompressed block can be looked up, and is inside the block if
/// it is there.
pub open spec fn can_cut(block: Seq<u8>, doc_pos: u32) -> bool {
    &&& can_look_up(block, doc_pos)
    &&& doc_range(block, doc_pos) matches Ok((start, end)) ==> start <= end <= block.len()
}

/// A stored block cut into payload and field-id remap. Blocks of the versions before `V3` have
/// no trailer.
pub open spec fn split_block(version: DocStoreVersion, block: Seq<u8>) -> Result<
    (Seq<u8>, Map<u32, u32>),
    StoreError,
> {
    if version.spec_number() < 3 {
        Ok((block, Map::empty()))
    } else {
        match crate::store::block_trailer::trailer_read(block) {
            Ok((map, len)) => Ok((block.take(block.len() - len), map)),
            Err(error) => Err(error),
        }
    }
}

/// A stored block as it is read: the decompressed data and the field-id remap.
pub open spec fn load_block(
    version: DocStoreVersion,
    decompressor: Decompressor,
    block: Seq<u8>,
) -> Result<(Seq<u8>, Map<u32, u32>), StoreError> {
    match split_block(version, block) {
        Err(error) => Err(error),
        Ok((payload, map)) => match decompressor.data_of(payload) {
            Err(error) => Err(error),
            Ok(data) => Ok((data, map)),
        },
    }
}

/// Document number `doc_pos` of a block that was loaded, with the remap of the block.
pub open spec fn doc_of_loaded(
    loaded: Result<(Seq<u8>, Map<u32, u32>), StoreError>,
    doc_pos: u32,
) -> Result<(Seq<u8>, Map<u32, u32>), TantivyError> {
    match loaded {
        Err(error) => Err(TantivyError::IoError(error)),
        Ok((data, map)) => match doc_in_block(data, doc_pos) {
            Err(error) => Err(error),
            Ok(bytes) => Ok((bytes, map)),
        },
    }
}

/// Document `doc` is alive; without a bit set, all documents are.
pub open spec fn is_alive(alive: Option<Seq<bool>>, doc: u32) -> bool {
    alive matches Some(bits) ==> bits[doc as int]
}

/// Everything that a store holds.
#[verifier::ext_equal]
pub struct StoreContents {
    /// The blocks.
    pub layout: StoreLayout,
    /// Their compression.
    pub decompressor: Decompressor,
    /// Their format.
    pub version: DocStoreVersion,
}

impl StoreContents {
    /// The stored bytes of the block at `checkpoint`.
    pub open spec fn block_at(self, checkpoint: Checkpoint) -> Seq<u8> {
        self.layout.data.subrange(checkpoint.byte_start as int, checkpoint.byte_end as int)
    }

    /// The block at `checkpoint` as it is read.
    pub open spec fn load(self, checkpoint: Checkpoint) -> Result<
        (Seq<u8>, Map<u32, u32>),
        StoreError,
    > {
        load_block(self.version, self.decompressor, self.block_at(checkpoint))
    }

    /// The block at `checkpoint` is not empty, and has a payload if it can be cut.
    pub open spec fn has_payload(self, checkpoint: Checkpoint) -> bool {
        &&& checkpoint.byte_start < checkpoint.byte_end
        &&& split_block(self.version, self.block_at(checkpoint)) matches Ok((payload, _))
            ==> payload.len() > 0
    }

    /// No other block that starts where the one at `checkpoint` does can be loaded. (Blocks are
    /// cached by where they start, and an empty block starts where the next one does.)
    pub open spec fn unambiguous(self, checkpoint: Checkpoint) -> bool {
        forall|i: int|
            0 <= i < self.layout.checkpoints.len() && (
            #[trigger] self.layout.checkpoints[i]).byte_start == checkpoint.byte_start
                && self.layout.checkpoints[i] != checkpoint ==> self.load(
                self.layout.checkpoints[i],
            ) is Err
    }

    /// Blocks are in order, and none is empty or without payload.
    pub open spec fn sound(self) -> bool {
        &&& self.layout.wf()
        &&& forall|i: int|
            0 <= i < self.layout.checkpoints.len() ==> self.has_payload(
                #[trigger] self.layout.checkpoints[i],
            )
    }

    /// In addition, the blocks that decompress can be cut into documents.
    pub open spec fn valid(self) -> bool {
        &&& self.sound()
        &&& forall|i: int|
            0 <= i < self.layout.checkpoints.len() ==> (self.load(
                #[trigger] self.layout.checkpoints[i],
            ) matches Ok((data, _)) ==> is_readable_block(data))
    }

    /// Document `doc` is not there, or its block cannot be taken for another one and does not
    /// decompress or has the document where it can be looked up.
    pub open spec fn doc_readable(self, doc: u32) -> bool {
        doc < self.layout.num_docs() ==> {
            let checkpoint = self.checkpoint_of(doc);
            &&& self.unambiguous(checkpoint)
            &&& self.load(checkpoint) matches Ok((data, _)) ==> can_cut(
                data,
                (doc - checkpoint.doc_start) as u32,
            )
        }
    }

    /// This holds of all documents that are alive.
    pub open spec fn docs_readable(self, alive: Option<Seq<bool>>) -> bool {
        forall|doc: u32|
            doc < self.layout.num_docs() && is_alive(alive, doc) ==> #[trigger] self.doc_readable(
                doc,
            )
    }

    /// The checkpoint of the block that holds `doc`.
    pub open spec fn checkpoint_of(self, doc: u32) -> Checkpoint {
        self.layout.checkpoints[self.layout.block_of(doc)]
    }

    /// The bytes of `doc` and the field-id remap of its block.
    pub open spec fn doc(self, doc: u32) -> Result<(Seq<u8>, Map<u32, u32>), TantivyError> {
        if doc >= self.layout.num_docs() {
            Err(TantivyError::DocNotFound { doc_id: doc })
        } else {
            let checkpoint = self.checkpoint_of(doc);
            doc_of_loaded(self.load(checkpoint), (doc - checkpoint.doc_start) as u32)
        }
    }

    /// The same when all documents are listed, where only the class of a failure to load a block
    /// is kept.
    pub open spec fn listed_doc(self, doc: u32) -> Result<
        (Seq<u8>, Map<u32, u32>),
        TantivyError,
    > {
        match self.doc(doc) {
            Err(TantivyError::IoError(error)) => if self.load(self.checkpoint_of(doc)) is Err {
                Err(TantivyError::BlockRead(error.spec_kind()))
            } else {
                Err(TantivyError::IoError(error))
            },
            other => other,
        }
    }

    /// The documents below `end` that are alive, in their order.
    pub open spec fn listed(self, alive: Option<Seq<bool>>, end: nat) -> Seq<
        Result<(Seq<u8>, Map<u32, u32>), TantivyError>,
    >
        decreases end,
    {
        if end == 0 {
            Seq::empty()
        } else {
            let rest = self.listed(alive, (end - 1) as nat);
            if is_alive(alive, (end - 1) as u32) {
                rest.push(self.listed_doc((end - 1) as u32))
            } else {
                rest
            }
        }
    }

    /// The state of a cache after `doc` was read.
    pub open spec fn cache_after_doc(
        self,
        cache: CacheState,
        doc: u32,
    ) -> CacheState {
        if doc >= self.layout.num_docs() {
            cache
        } else {
            let checkpoint = self.checkpoint_of(doc);
            cache.after_read(checkpoint.byte_start, self.load(checkpoint) is Ok)
        }
    }

    /// The state of a cache after the first `count` blocks were read one after the other.
    pub open spec fn cache_after_blocks(
        self,
        cache: CacheState,
        count: nat,
    ) -> CacheState
        decreases count,
    {
        if count == 0 {
            cache
        } else {
            let checkpoint = self.layout.checkpoints[count - 1];
            self.cache_after_blocks(cache, (count - 1) as nat).after_read(
                checkpoint.byte_start,
                self.load(checkpoint) is Ok,
            )
        }
    }

    /// Some block is unreadable or renames fields.
    pub open spec fn may_rename_fields(self) -> bool {
        self.version.spec_number() >= 3 && exists|i: int|
            0 <= i < self.layout.checkpoints.len() && match split_block(
                self.version,
                self.block_at(#[trigger] self.layout.checkpoints[i]),
            ) {
                Ok((_, map)) => !crate::store::block_trailer::is_identity_map(map),
                Err(_) => true,
            }
    }
}

impl StoreFile {
    /// Everything that the file holds.
    pub open spec fn contents(self) -> StoreContents {
        StoreContents {
            layout: self@,
            decompressor: self.footer.decompressor,
            version: self.footer.doc_store_version,
        }
    }
}

} // verus!
