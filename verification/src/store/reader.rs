//! Reading documents from a store.

use std::sync::Arc;

use vstd::bytes::u32_from_le_bytes;
use vstd::prelude::*;

use crate::error::{ErrorKind, StoreError, TantivyError};
use crate::schema::{FieldView, Schema};
use crate::shared::share;
use crate::store::alive::AliveBitSet;
use crate::store::block_cache::{BlockCache, CacheStats, CachedBlock, MAX_CACHE_BLOCKS};
use crate::store::block_trailer::{read_block_trailer, BlockFieldRemap};
use crate::store::codec::Decompressor;
use crate::store::contents::StoreContents;
use crate::store::layout::{seek, Checkpoint, StoreFile};
use crate::store::translate::translate_fields;
use crate::store::version::DocStoreVersion;

verus! {

/// The number of blocks that a reader usually caches.
pub const DOCSTORE_CACHE_CAPACITY: usize = 100;

/// A block that was cut into payload and field-id remap, or the error.
pub open spec fn cut_view(result: Result<(&[u8], BlockFieldRemap), StoreError>) -> Result<
    (Seq<u8>, Map<u32, u32>),
    StoreError,
> {
    match result {
        Ok((payload, remap)) => Ok((payload@, remap@)),
        Err(error) => Err(error),
    }
}

/// A block that was decompressed and its field-id remap, or the error.
pub open spec fn decoded_view(result: Result<(Vec<u8>, BlockFieldRemap), StoreError>) -> Result<
    (Seq<u8>, Map<u32, u32>),
    StoreError,
> {
    match result {
        Ok((data, remap)) => Ok((data@, remap@)),
        Err(error) => Err(error),
    }
}

/// Cuts a stored block into its payload and its field-id remap.
fn cut_block<'a>(version: DocStoreVersion, block_bytes: &'a [u8]) -> (result: Result<
    (&'a [u8], BlockFieldRemap),
    StoreError,
>)
    ensures
        cut_view(result) == crate::store::contents::split_block(version, block_bytes@),
{
    if version.number() < 3 {
        return Ok((block_bytes, BlockFieldRemap::new()));
    }
    match read_block_trailer(block_bytes) {
        Ok((remap, trailer_byte_len)) => {
            let payload_end: usize = block_bytes.len() - trailer_byte_len;
            let payload: &[u8] = vstd::slice::slice_subrange(block_bytes, 0, payload_end);
            assert(payload@ =~= block_bytes@.take(payload_end as int));
            Ok((payload, remap))
        },
        Err(error) => Err(error),
    }
}

/// Reads a stored block: its data and its field-id remap.
fn decode_block(
    version: DocStoreVersion,
    decompressor: Decompressor,
    block_bytes: &[u8],
) -> (result: Result<(Vec<u8>, BlockFieldRemap), StoreError>)
    ensures
        decoded_view(result) == crate::store::contents::load_block(
            version,
            decompressor,
            block_bytes@,
        ),
{
    match cut_block(version, block_bytes) {
        Ok((payload, remap)) => match decompressor.decompress(payload) {
            Ok(data) => Ok((data, remap)),
            Err(error) => Err(error),
        },
        Err(error) => Err(error),
    }
}

fn read_u32_at(bytes: &[u8], position: usize) -> (value: u32)
    requires
        position + 4 <= bytes@.len(),
    ensures
        value == crate::store::contents::u32_at(bytes@, position as int),
{
    assert(bytes@.len() == bytes.len());
    let field: &[u8] = vstd::slice::slice_subrange(bytes, position, position + 4);
    u32_from_le_bytes(field)
}

/// Where document number `doc_pos` is inside a decompressed block: start and end.
pub fn block_read_index(block: &[u8], doc_pos: u32) -> (result: Result<
    (usize, usize),
    TantivyError,
>)
    requires
        crate::store::contents::can_look_up(block@, doc_pos),
    ensures
        result == crate::store::contents::doc_range(block@, doc_pos),
{
    let doc_pos_in_list: usize = doc_pos as usize;
    let index_len_pos: usize = block.len() - 4;
    let index_len: usize = read_u32_at(block, index_len_pos) as usize;
    if doc_pos_in_list > index_len {
        return Err(TantivyError::WrongBlock);
    }
    let index_start: usize = block.len() - (index_len + 1) * 4;
    if doc_pos_in_list == index_len {
        return Err(TantivyError::IoError(StoreError::UnexpectedEof));
    }
    let start_offset: usize = read_u32_at(block, index_start + 4 * doc_pos_in_list) as usize;
    let end_offset: usize = if doc_pos_in_list + 1 < index_len {
        read_u32_at(block, index_start + 4 * (doc_pos_in_list + 1)) as usize
    } else {
        (#[verifier::truncate] (index_start as u32)) as usize
    };
    Ok((start_offset, end_offset))
}

/// Whether document number `doc_pos` of a decompressed block can be looked up and is inside the
/// block.
fn can_cut_doc(block: &[u8], doc_pos: u32) -> (can_cut: bool)
    ensures
        can_cut == crate::store::contents::can_cut(block@, doc_pos),
{
    if block.len() < 4 {
        return false;
    }
    let index_len: usize = read_u32_at(block, block.len() - 4) as usize;
    if doc_pos as usize <= index_len && index_len > (block.len() - 4) / 4 {
        return false;
    }
    match block_read_index(block, doc_pos) {
        Ok((start, end)) => start <= end && end <= block.len(),
        Err(_) => true,
    }
}

impl StoreFile {
    /// The blocks are in order.
    pub fn is_ordered(&self) -> (ordered: bool)
        ensures
            ordered == self@.wf(),
    {
        let mut next: usize = 0;
        let mut doc_end: u32 = 0;
        let mut byte_end: usize = 0;
        while next < self.checkpoints.len()
            invariant
                next <= self.checkpoints@.len(),
                next == 0 ==> doc_end == 0 && byte_end == 0,
                next > 0 ==> doc_end == self.checkpoints@[next - 1].doc_end && byte_end
                    == self.checkpoints@[next - 1].byte_end,
                next > 0 ==> self.checkpoints@[0].doc_start == 0,
                forall|i: int|
                    0 <= i < next ==> {
                        let checkpoint = #[trigger] self.checkpoints@[i];
                        &&& checkpoint.doc_start < checkpoint.doc_end <= doc_end
                        &&& checkpoint.byte_start <= checkpoint.byte_end <= byte_end
                        &&& checkpoint.byte_end <= self.data@.len()
                    },
                forall|i: int, j: int|
                    0 <= i < j < next ==> {
                        let earlier = #[trigger] self.checkpoints@[i];
                        let later = #[trigger] self.checkpoints@[j];
                        &&& earlier.doc_end <= later.doc_start
                        &&& j == i + 1 ==> earlier.doc_end == later.doc_start
                        &&& earlier.byte_end <= later.byte_start
                    },
            decreases self.checkpoints@.len() - next,
        {
            let checkpoint: Checkpoint = self.checkpoints[next];
            if checkpoint.doc_start != doc_end || checkpoint.doc_start >= checkpoint.doc_end
                || checkpoint.byte_start < byte_end || checkpoint.byte_start > checkpoint.byte_end
                || checkpoint.byte_end > self.data.len() {
                proof {
                    assert(self@.checkpoints[next as int] == checkpoint);
                    if next > 0 {
                        assert(self@.checkpoints[next - 1] == self.checkpoints@[next - 1]);
                    }
                }
                return false;
            }
            doc_end = checkpoint.doc_end;
            byte_end = checkpoint.byte_end;
            next = next + 1;
        }
        true
    }

    /// Blocks are in order, and none is empty or without payload.
    pub fn is_sound(&self) -> (sound: bool)
        ensures
            sound == self.contents().sound(),
    {
        if !self.is_ordered() {
            return false;
        }
        let ghost contents = self.contents();
        let mut next: usize = 0;
        while next < self.checkpoints.len()
            invariant
                next <= self.checkpoints@.len(),
                contents == self.contents(),
                contents.layout.wf(),
                forall|i: int|
                    0 <= i < next ==> contents.has_payload(#[trigger] contents.layout.checkpoints[i]),
            decreases self.checkpoints@.len() - next,
        {
            let checkpoint: Checkpoint = self.checkpoints[next];
            assert(contents.layout.checkpoints[next as int] == checkpoint);
            if checkpoint.byte_start == checkpoint.byte_end {
                return false;
            }
            let block: &[u8] = vstd::slice::slice_subrange(
                self.data.as_slice(),
                checkpoint.byte_start,
                checkpoint.byte_end,
            );
            if let Ok((payload, _)) = cut_block(self.footer.doc_store_version, block) {
                if payload.len() == 0 {
                    return false;
                }
            }
            next = next + 1;
        }
        true
    }
}

/// The contents of a document that was read, or the error.
pub open spec fn bytes_view(result: Result<Vec<u8>, TantivyError>) -> Result<
    Seq<u8>,
    TantivyError,
> {
    match result {
        Ok(bytes) => Ok(bytes@),
        Err(error) => Err(error),
    }
}

/// The contents of a document that was read together with its remap, or the error.
pub open spec fn raw_view(
    result: Result<(Vec<u8>, Arc<BlockFieldRemap>), TantivyError>,
) -> Result<(Seq<u8>, Map<u32, u32>), TantivyError> {
    match result {
        Ok((bytes, remap)) => Ok((bytes@, remap@)),
        Err(error) => Err(error),
    }
}

/// The contents of documents that were read together with their remaps.
pub open spec fn raw_views(
    results: Seq<Result<(Vec<u8>, Arc<BlockFieldRemap>), TantivyError>>,
) -> Seq<Result<(Seq<u8>, Map<u32, u32>), TantivyError>> {
    Seq::new(results.len(), |i: int| raw_view(results[i]))
}

/// Which documents are alive; without a bit set, all of them.
pub open spec fn alive_view(alive_bitset: Option<&AliveBitSet>) -> Option<Seq<bool>> {
    match alive_bitset {
        Some(alive) => Some(alive@),
        None => None,
    }
}

/// The contents of a loaded block.
pub open spec fn loaded_view(block: CachedBlock) -> (Seq<u8>, Map<u32, u32>) {
    (block.0@, block.1@)
}

/// `block` is what the store gives for some block that starts at `byte_start`.
pub open spec fn is_loaded_at(
    contents: StoreContents,
    byte_start: usize,
    block: CachedBlock,
) -> bool {
    exists|i: int|
        0 <= i < contents.layout.checkpoints.len() && (
        #[trigger] contents.layout.checkpoints[i]).byte_start == byte_start && contents.load(
            contents.layout.checkpoints[i],
        ) == Ok::<_, StoreError>(loaded_view(block))
}

/// `data` is the data of a block that was loaded.
pub open spec fn is_data_of(
    loaded: Result<(Seq<u8>, Map<u32, u32>), StoreError>,
    data: Seq<u8>,
) -> bool {
    loaded matches Ok((expected, _)) && data == expected
}

/// `data` is the data of some block that starts at `byte_start`.
pub open spec fn is_data_at(contents: StoreContents, byte_start: usize, data: Seq<u8>) -> bool {
    exists|i: int|
        0 <= i < contents.layout.checkpoints.len() && (
        #[trigger] contents.layout.checkpoints[i]).byte_start == byte_start && is_data_of(
            contents.load(contents.layout.checkpoints[i]),
            data,
        )
}

/// The entries of a cache hold what the store gives for blocks that start at their keys.
pub open spec fn coherent(entries: Seq<(usize, CachedBlock)>, contents: StoreContents) -> bool {
    forall|i: int|
        0 <= i < entries.len() ==> is_loaded_at(
            contents,
            (#[trigger] entries[i]).0,
            entries[i].1,
        )
}

/// Looking a block up leaves the cache coherent.
proof fn lemma_coherent_after_get(
    entries: Seq<(usize, CachedBlock)>,
    contents: StoreContents,
    key: usize,
)
    requires
        coherent(entries, contents),
        crate::store::block_cache::has_key(entries, key),
    ensures
        coherent(crate::store::block_cache::after_get(entries, key), contents),
        is_loaded_at(
            contents,
            key,
            entries[crate::store::block_cache::index_of_key(entries, key)].1,
        ),
{
    let found = crate::store::block_cache::index_of_key(entries, key);
    assert(entries[found].0 == key);
    let after = crate::store::block_cache::after_get(entries, key);
    assert forall|i: int| 0 <= i < after.len() implies is_loaded_at(
        contents,
        (#[trigger] after[i]).0,
        after[i].1,
    ) by {
        let from = if i == after.len() - 1 {
            found
        } else if i < found {
            i
        } else {
            i + 1
        };
        assert(after[i] == entries[from]);
    }
}

/// Putting a block that was loaded leaves the cache coherent.
proof fn lemma_coherent_after_put(
    entries: Seq<(usize, CachedBlock)>,
    contents: StoreContents,
    capacity: nat,
    checkpoint: Checkpoint,
    block: CachedBlock,
)
    requires
        coherent(entries, contents),
        contents.layout.checkpoints.contains(checkpoint),
        !crate::store::block_cache::has_key(entries, checkpoint.byte_start),
        entries.len() <= capacity,
        contents.load(checkpoint) == Ok::<_, StoreError>(loaded_view(block)),
    ensures
        capacity > 0 ==> coherent(
            crate::store::block_cache::after_put(entries, capacity, checkpoint.byte_start, block),
            contents,
        ),
{
    let k = choose|k: int|
        0 <= k < contents.layout.checkpoints.len() && contents.layout.checkpoints[k] == checkpoint;
    assert(contents.layout.checkpoints[k].byte_start == checkpoint.byte_start);
    if capacity > 0 {
        let after = crate::store::block_cache::after_put(
            entries,
            capacity,
            checkpoint.byte_start,
            block,
        );
        assert forall|i: int| 0 <= i < after.len() implies is_loaded_at(
            contents,
            (#[trigger] after[i]).0,
            after[i].1,
        ) by {
            if i < after.len() - 1 {
                let from = if entries.len() == capacity { i + 1 } else { i };
                assert(after[i] == entries[from]);
            }
        }
    }
}

/// A document as it was stored, with what is needed to decode it.
pub struct StoredDocument {
    /// The encoded document.
    pub bytes: Vec<u8>,
    /// The format that it is encoded in.
    pub doc_store_version: DocStoreVersion,
    /// The field-id remap to apply, if there is anything to rename.
    pub remap: Option<Arc<BlockFieldRemap>>,
}

impl StoredDocument {
    /// The field-id remap to apply.
    pub open spec fn renames(self) -> Map<u32, u32> {
        match self.remap {
            Some(remap) => remap@,
            None => Map::empty(),
        }
    }

    /// A document from a block with this remap.
    pub fn new(
        bytes: Vec<u8>,
        doc_store_version: DocStoreVersion,
        remap: Arc<BlockFieldRemap>,
    ) -> (document: StoredDocument)
        ensures
            is_stored_doc(
                Ok(document),
                doc_store_version,
                Ok((bytes@, remap@)),
            ),
    {
        let remap: Option<Arc<BlockFieldRemap>> = if remap.is_empty() {
            None
        } else {
            Some(remap)
        };
        StoredDocument { bytes, doc_store_version, remap }
    }
}

/// `result` is the document that `expected` describes, with a remap exactly when there is
/// something in it.
pub open spec fn is_stored_doc(
    result: Result<StoredDocument, TantivyError>,
    version: DocStoreVersion,
    expected: Result<(Seq<u8>, Map<u32, u32>), TantivyError>,
) -> bool {
    match (result, expected) {
        (Ok(document), Ok((bytes, map))) => {
            &&& document.bytes@ == bytes
            &&& document.renames() == map
            &&& document.remap is Some <==> map != Map::<u32, u32>::empty()
            &&& document.doc_store_version == version
        },
        (Err(error), Err(expected_error)) => error == expected_error,
        _ => false,
    }
}

/// `result` holds the bytes of the document that `expected` describes, for a store without
/// remaps. They are the stored ones where the block renames nothing. Else they are what `encode`
/// makes of the fields that `decode` found, after renaming; all of these have to be stored fields
/// of `schema`.
pub open spec fn is_translation<V, Dec, Enc>(
    result: Result<Vec<u8>, TantivyError>,
    expected: Result<(Seq<u8>, Map<u32, u32>), TantivyError>,
    version: DocStoreVersion,
    schema: Seq<FieldView>,
    decode: Dec,
    encode: Enc,
) -> bool where
    Dec: Fn(Vec<u8>, DocStoreVersion) -> Result<Vec<(u32, V)>, TantivyError>,
    Enc: Fn(Vec<(u32, V)>) -> Result<Vec<u8>, TantivyError>,
 {
    match expected {
        Err(error) => result == Err::<Vec<u8>, TantivyError>(error),
        Ok((bytes, map)) => if crate::store::block_trailer::is_identity_map(map) {
            result matches Ok(copied) && copied@ == bytes
        } else {
            exists|stored: Vec<u8>, decoded: Result<Vec<(u32, V)>, TantivyError>|
                stored@ == bytes && #[trigger] call_ensures(decode, (stored, version), decoded)
                    && match decoded {
                    Err(error) => result == Err::<Vec<u8>, TantivyError>(error),
                    Ok(fields) => is_reencoded(result, fields@, map, schema, encode),
                }
        },
    }
}

/// `result` is what `encode` makes of the renamed fields, or what is wrong with these.
pub open spec fn is_reencoded<V, Enc>(
    result: Result<Vec<u8>, TantivyError>,
    fields: Seq<(u32, V)>,
    renames: Map<u32, u32>,
    schema: Seq<FieldView>,
    encode: Enc,
) -> bool where Enc: Fn(Vec<(u32, V)>) -> Result<Vec<u8>, TantivyError> {
    match crate::store::translate::fields_flaw(schema, renames, fields) {
        Some(error) => result == Err::<Vec<u8>, TantivyError>(error),
        None => exists|renamed: Vec<(u32, V)>|
            renamed@ == crate::store::translate::renamed_fields(fields, renames)
                && #[trigger] call_ensures(encode, (renamed,), result),
    }
}

/// A document without the remap of its block.
pub open spec fn without_remap(
    document: Result<(Seq<u8>, Map<u32, u32>), TantivyError>,
) -> Result<Seq<u8>, TantivyError> {
    match document {
        Ok((bytes, _)) => Ok(bytes),
        Err(error) => Err(error),
    }
}

/// Each block starts behind the start of the one before it.
pub open spec fn starts_increase(checkpoints: Seq<Checkpoint>) -> bool {
    forall|i: int, j: int|
        0 <= i && j == i + 1 && j < checkpoints.len() ==> (#[trigger] checkpoints[i]).byte_start < (
        #[trigger] checkpoints[j]).byte_start
}

fn do_starts_increase(checkpoints: &Vec<Checkpoint>) -> (increase: bool)
    ensures
        increase == starts_increase(checkpoints@),
{
    let mut next: usize = 1;
    while next < checkpoints.len()
        invariant
            1 <= next,
            forall|i: int, j: int|
                0 <= i && j == i + 1 && j < next && j < checkpoints@.len() ==> (
                #[trigger] checkpoints@[i]).byte_start < (#[trigger] checkpoints@[j]).byte_start,
        decreases checkpoints@.len() - next,
    {
        if checkpoints[next - 1].byte_start >= checkpoints[next].byte_start {
            assert(checkpoints@[next - 1].byte_start >= checkpoints@[next as int].byte_start);
            return false;
        }
        next = next + 1;
    }
    true
}

/// Reads documents from a store.
pub struct StoreReader {
    decompressor: Decompressor,
    doc_store_version: DocStoreVersion,
    data: Vec<u8>,
    checkpoints: Vec<Checkpoint>,
    /// No two blocks start at the same byte.
    starts_differ: bool,
    cache: BlockCache,
}

impl View for StoreReader {
    type V = StoreContents;

    closed spec fn view(&self) -> StoreContents {
        StoreContents {
            layout: crate::store::layout::StoreLayout {
                data: self.data@,
                checkpoints: self.checkpoints@,
            },
            decompressor: self.decompressor,
            version: self.doc_store_version,
        }
    }
}

impl StoreReader {
    #[verifier::type_invariant]
    pub closed spec fn inv(self) -> bool {
        &&& self@.layout.wf()
        &&& self.starts_differ ==> starts_increase(self.checkpoints@)
        &&& self.cache.wf()
        &&& coherent(self.cache.entries(), self@)
    }

    /// The blocks of a store that is being read are in order.
    pub(crate) proof fn lemma_inv(self)
        requires
            self.inv(),
        ensures
            self@.layout.wf(),
    {
    }

    /// What can be seen of the cache without looking into its blocks.
    pub closed spec fn cache_state(self) -> crate::store::block_cache::CacheState {
        self.cache.state()
    }

    /// Opens a store whose blocks are in order.
    ///
    /// At most `cache_num_blocks` decompressed blocks are kept.
    pub fn open(store_file: StoreFile, cache_num_blocks: usize) -> (reader: StoreReader)
        requires
            store_file@.wf(),
            cache_num_blocks <= MAX_CACHE_BLOCKS,
        ensures
            reader@ == store_file.contents(),
            reader.cache_state() == (crate::store::block_cache::CacheState {
                keys: Seq::empty(),
                capacity: cache_num_blocks as nat,
                hits: 0,
                misses: 0,
            }),
    {
        let cache = BlockCache::new(cache_num_blocks);
        assert(crate::store::block_cache::keys_of(cache.entries()) =~= Seq::empty());
        let starts_differ: bool = do_starts_increase(&store_file.checkpoints);
        StoreReader {
            decompressor: store_file.footer.decompressor,
            doc_store_version: store_file.footer.doc_store_version,
            data: store_file.data,
            checkpoints: store_file.checkpoints,
            starts_differ,
            cache,
        }
    }

    /// Loads the block at `checkpoint` and its field-id remap, from the cache where possible.
    pub fn read_block_with_remap(&mut self, checkpoint: &Checkpoint) -> (result: Result<
        CachedBlock,
        StoreError,
    >)
        requires
            old(self)@.layout.checkpoints.contains(*checkpoint),
        ensures
            final(self)@ == old(self)@,
            match result {
                Ok(block) => {
                    &&& is_loaded_at(old(self)@, checkpoint.byte_start, block)
                    &&& old(self)@.unambiguous(*checkpoint) ==> old(self)@.load(*checkpoint)
                        == Ok::<_, StoreError>(loaded_view(block))
                },
                Err(error) => old(self)@.load(*checkpoint) == Err::<
                    (Seq<u8>, Map<u32, u32>),
                    StoreError,
                >(error),
            },
            final(self).cache_state() == old(self).cache_state().after_read(
                checkpoint.byte_start,
                old(self)@.load(*checkpoint) is Ok,
            ),
    {
        proof {
            use_type_invariant(&*self);
        }
        let cache_key: usize = checkpoint.byte_start;
        let ghost contents = self@;
        let ghost entries = self.cache.entries();
        let ghost capacity = self.cache.capacity();
        let mut cache = BlockCache::new(0);
        std::mem::swap(&mut cache, &mut self.cache);
        let found = cache.get_from_cache(cache_key);
        if let Some(block) = found {
            proof {
                crate::store::block_cache::lemma_keys(entries, capacity, cache_key, block);
                lemma_coherent_after_get(entries, contents, cache_key);
            }
            self.cache = cache;
            return Ok(block);
        }
        proof {
            self@.layout.lemma_block_bounds(*checkpoint);
        }
        let loaded: Result<CachedBlock, StoreError> = match decode_block(
            self.doc_store_version,
            self.decompressor,
            self.get_compressed_block(checkpoint),
        ) {
            Ok((block, remap)) => Ok((Arc::new(block), Arc::new(remap))),
            Err(error) => Err(error),
        };
        if let Ok((block, remap)) = &loaded {
            cache.put_into_cache(cache_key, share(block), share(remap));
            proof {
                lemma_coherent_after_put(entries, contents, capacity, *checkpoint, (*block, *remap));
            }
        }
        proof {
            crate::store::block_cache::lemma_keys(entries, capacity, cache_key, loaded->Ok_0);
        }
        self.cache = cache;
        loaded
    }

    /// The stored bytes of the block at `checkpoint`.
    pub fn get_compressed_block(&self, checkpoint: &Checkpoint) -> (block: &[u8])
        requires
            checkpoint.byte_start <= checkpoint.byte_end <= self@.layout.data.len(),
        ensures
            block@ == self@.block_at(*checkpoint),
    {
        vstd::slice::slice_subrange(
            self.data.as_slice(),
            checkpoint.byte_start,
            checkpoint.byte_end,
        )
    }

    /// Cuts a stored block into its payload and its field-id remap.
    pub fn split_block_trailer<'a>(&self, block_bytes: &'a [u8]) -> (result: Result<
        (&'a [u8], BlockFieldRemap),
        StoreError,
    >)
        ensures
            cut_view(result) == crate::store::contents::split_block(self@.version, block_bytes@),
    {
        cut_block(self.doc_store_version, block_bytes)
    }

    /// Loads the block at `checkpoint`, from the cache where possible.
    pub fn read_block(&mut self, checkpoint: &Checkpoint) -> (result: Result<
        Arc<Vec<u8>>,
        StoreError,
    >)
        requires
            old(self)@.layout.checkpoints.contains(*checkpoint),
        ensures
            final(self)@ == old(self)@,
            match result {
                Ok(block) => {
                    &&& is_data_at(old(self)@, checkpoint.byte_start, block@)
                    &&& old(self)@.unambiguous(*checkpoint) ==> is_data_of(
                        old(self)@.load(*checkpoint),
                        block@,
                    )
                },
                Err(error) => old(self)@.load(*checkpoint) == Err::<
                    (Seq<u8>, Map<u32, u32>),
                    StoreError,
                >(error),
            },
            final(self).cache_state() == old(self).cache_state().after_read(
                checkpoint.byte_start,
                old(self)@.load(*checkpoint) is Ok,
            ),
    {
        match self.read_block_with_remap(checkpoint) {
            Ok((block, remap)) => {
                proof {
                    let contents = old(self)@;
                    let i = choose|i: int|
                        0 <= i < contents.layout.checkpoints.len() && (
                        #[trigger] contents.layout.checkpoints[i]).byte_start
                            == checkpoint.byte_start && contents.load(
                            contents.layout.checkpoints[i],
                        ) == Ok::<_, StoreError>(loaded_view((block, remap)));
                    assert(is_data_of(contents.load(contents.layout.checkpoints[i]), block@));
                }
                Ok(block)
            },
            Err(error) => Err(error),
        }
    }

    /// The blocks of the store, in their order.
    pub fn block_checkpoints(&self) -> (checkpoints: &Vec<Checkpoint>)
        ensures
            checkpoints@ == self@.layout.checkpoints,
    {
        &self.checkpoints
    }

    /// The compression of the blocks.
    pub fn decompressor(&self) -> (decompressor: Decompressor)
        ensures
            decompressor == self@.decompressor,
    {
        self.decompressor
    }

    /// The format of the blocks.
    pub fn doc_store_version(&self) -> (version: DocStoreVersion)
        ensures
            version == self@.version,
    {
        self.doc_store_version
    }

    /// The bytes of all blocks.
    pub fn block_data(&self) -> (data: &Vec<u8>)
        ensures
            data@ == self@.layout.data,
    {
        &self.data
    }

    /// Hits, misses and size of the cache.
    pub fn cache_stats(&self) -> (stats: CacheStats)
        ensures
            stats.cache_hits == self.cache_state().hits,
            stats.cache_misses == self.cache_state().misses,
            stats.num_entries == self.cache_state().keys.len(),
    {
        self.cache.stats()
    }

    /// Where the cached block starts that would make room first.
    pub fn least_recently_used(&self) -> (byte_start: Option<usize>)
        ensures
            byte_start == (if self.cache_state().keys.len() == 0 {
                None
            } else {
                Some(self.cache_state().keys[0])
            }),
    {
        self.cache.peek_lru()
    }

    /// The checkpoint of the block that holds `doc_id`.
    pub fn block_checkpoint(&self, doc_id: u32) -> (result: Result<Checkpoint, TantivyError>)
        ensures
            result == (if doc_id < self@.layout.num_docs() {
                Ok(self@.checkpoint_of(doc_id))
            } else {
                Err(TantivyError::DocNotFound { doc_id })
            }),
            result matches Ok(checkpoint) ==> {
                &&& self@.layout.checkpoints.contains(checkpoint)
                &&& checkpoint.doc_start <= doc_id < checkpoint.doc_end
            },
    {
        proof {
            use_type_invariant(self);
        }
        match seek(&self.checkpoints, doc_id, Ghost(self.data@)) {
            Some(checkpoint) => Ok(checkpoint),
            None => Err(TantivyError::DocNotFound { doc_id }),
        }
    }

    /// Cuts `doc_id` out of the decompressed block at `checkpoint`.
    pub fn get_document_bytes_from_block(
        block: &[u8],
        doc_id: u32,
        checkpoint: &Checkpoint,
    ) -> (result: Result<Vec<u8>, TantivyError>)
        requires
            checkpoint.doc_start <= doc_id,
            crate::store::contents::can_cut(block@, (doc_id - checkpoint.doc_start) as u32),
        ensures
            bytes_view(result) == crate::store::contents::doc_in_block(
                block@,
                (doc_id - checkpoint.doc_start) as u32,
            ),
    {
        let doc_pos: u32 = doc_id - checkpoint.doc_start;
        match block_read_index(block, doc_pos) {
            Ok((start, end)) => Ok(
                vstd::slice::slice_to_vec(vstd::slice::slice_subrange(block, start, end)),
            ),
            Err(error) => Err(error),
        }
    }

    /// Whether no other block that starts where the one at `checkpoint` does can be loaded.
    fn is_unambiguous(&self, checkpoint: &Checkpoint) -> (unambiguous: bool)
        requires
            self@.layout.checkpoints.contains(*checkpoint),
        ensures
            unambiguous == self@.unambiguous(*checkpoint),
    {
        proof {
            use_type_invariant(self);
        }
        if self.starts_differ {
            proof {
                let k = choose|k: int|
                    0 <= k < self@.layout.checkpoints.len() && self@.layout.checkpoints[k]
                        == *checkpoint;
                assert forall|i: int| 0 <= i < self@.layout.checkpoints.len() && i != k implies (
                #[trigger] self@.layout.checkpoints[i]).byte_start != checkpoint.byte_start by {
                    let (low, high) = if i < k {
                        (i, k)
                    } else {
                        (k, i)
                    };
                    assert(self.checkpoints@[low].byte_start < self.checkpoints@[low + 1].byte_start);
                    assert(self@.layout.checkpoints[low + 1].byte_start
                        <= self@.layout.checkpoints[high].byte_start);
                }
            }
            return true;
        }
        let mut next: usize = 0;
        while next < self.checkpoints.len()
            invariant
                next <= self.checkpoints@.len(),
                self@.layout.wf(),
                self@.layout.checkpoints == self.checkpoints@,
                forall|i: int|
                    0 <= i < next && (#[trigger] self@.layout.checkpoints[i]).byte_start
                        == checkpoint.byte_start && self@.layout.checkpoints[i] != *checkpoint
                        ==> self@.load(self@.layout.checkpoints[i]) is Err,
            decreases self.checkpoints@.len() - next,
        {
            let other: Checkpoint = self.checkpoints[next];
            assert(self@.layout.checkpoints[next as int] == other);
            if other.byte_start == checkpoint.byte_start && other != *checkpoint && decode_block(
                self.doc_store_version,
                self.decompressor,
                self.get_compressed_block(&other),
            ).is_ok() {
                return false;
            }
            next = next + 1;
        }
        true
    }

    /// Reads a document with the field-id remap of its block, unless it is not readable.
    fn get_with_remap(&mut self, doc_id: u32) -> (result: Option<
        Result<(Vec<u8>, Arc<BlockFieldRemap>), TantivyError>,
    >)
        ensures
            final(self)@ == old(self)@,
            match result {
                Some(document) => {
                    &&& old(self)@.doc_readable(doc_id)
                    &&& raw_view(document) == old(self)@.doc(doc_id)
                },
                None => !old(self)@.doc_readable(doc_id),
            },
            final(self).cache_state() == old(self)@.cache_after_doc(
                old(self).cache_state(),
                doc_id,
            ),
    {
        proof {
            use_type_invariant(&*self);
        }
        let checkpoint: Checkpoint = match self.block_checkpoint(doc_id) {
            Ok(checkpoint) => checkpoint,
            Err(error) => {
                return Some(Err(error));
            },
        };
        let loaded: Result<CachedBlock, StoreError> = self.read_block_with_remap(&checkpoint);
        if !self.is_unambiguous(&checkpoint) {
            return None;
        }
        match loaded {
            Err(error) => Some(Err(TantivyError::IoError(error))),
            Ok((block, remap)) => {
                if !can_cut_doc(block.as_slice(), doc_id - checkpoint.doc_start) {
                    return None;
                }
                match Self::get_document_bytes_from_block(block.as_slice(), doc_id, &checkpoint) {
                    Ok(bytes) => Some(Ok((bytes, remap))),
                    Err(error) => Some(Err(error)),
                }
            },
        }
    }

    /// Reads a document, if it is readable: what its decoder takes.
    pub fn get_checked(&mut self, doc_id: u32) -> (result: Option<
        Result<StoredDocument, TantivyError>,
    >)
        ensures
            final(self)@ == old(self)@,
            match result {
                Some(document) => {
                    &&& old(self)@.doc_readable(doc_id)
                    &&& is_stored_doc(document, old(self)@.version, old(self)@.doc(doc_id))
                },
                None => !old(self)@.doc_readable(doc_id),
            },
            final(self).cache_state() == old(self)@.cache_after_doc(
                old(self).cache_state(),
                doc_id,
            ),
    {
        match self.get_with_remap(doc_id) {
            None => None,
            Some(Ok((bytes, remap))) => Some(
                Ok(StoredDocument::new(bytes, self.doc_store_version, remap)),
            ),
            Some(Err(error)) => Some(Err(error)),
        }
    }

    /// Reads a document: what its decoder takes.
    pub fn get(&mut self, doc_id: u32) -> (result: Result<StoredDocument, TantivyError>)
        requires
            old(self)@.doc_readable(doc_id),
        ensures
            final(self)@ == old(self)@,
            is_stored_doc(result, old(self)@.version, old(self)@.doc(doc_id)),
            old(self)@.doc(doc_id) matches Ok((bytes, _)) ==> (result matches Ok(document)
                && document.bytes@ == bytes),
            old(self)@.doc(doc_id) matches Err(error) ==> result == Err::<
                StoredDocument,
                TantivyError,
            >(error),
            final(self).cache_state() == old(self)@.cache_after_doc(
                old(self).cache_state(),
                doc_id,
            ),
    {
        self.get_checked(doc_id).unwrap()
    }

    /// Reads the bytes of a document, if it is readable.
    pub fn get_document_bytes_checked(&mut self, doc_id: u32) -> (result: Option<
        Result<Vec<u8>, TantivyError>,
    >)
        ensures
            final(self)@ == old(self)@,
            match result {
                Some(bytes) => {
                    &&& old(self)@.doc_readable(doc_id)
                    &&& bytes_view(bytes) == without_remap(old(self)@.doc(doc_id))
                },
                None => !old(self)@.doc_readable(doc_id),
            },
            final(self).cache_state() == old(self)@.cache_after_doc(
                old(self).cache_state(),
                doc_id,
            ),
    {
        match self.get_with_remap(doc_id) {
            None => None,
            Some(Ok((bytes, _))) => Some(Ok(bytes)),
            Some(Err(error)) => Some(Err(error)),
        }
    }

    /// Reads the bytes of a document.
    pub fn get_document_bytes(&mut self, doc_id: u32) -> (result: Result<Vec<u8>, TantivyError>)
        requires
            old(self)@.doc_readable(doc_id),
        ensures
            final(self)@ == old(self)@,
            bytes_view(result) == without_remap(old(self)@.doc(doc_id)),
            old(self)@.doc(doc_id) matches Ok((bytes, _)) ==> (result matches Ok(document)
                && document@ == bytes),
            old(self)@.doc(doc_id) matches Err(error) ==> result == Err::<Vec<u8>, TantivyError>(
                error,
            ),
            final(self).cache_state() == old(self)@.cache_after_doc(
                old(self).cache_state(),
                doc_id,
            ),
    {
        self.get_document_bytes_checked(doc_id).unwrap()
    }

    /// Some block may rename fields: its trailer is unreadable or maps a field to another one.
    pub fn has_non_identity_remap(&self) -> (renames: bool)
        ensures
            renames == self@.may_rename_fields(),
    {
        proof {
            use_type_invariant(self);
        }
        if self.doc_store_version.number() < 3 {
            return false;
        }
        let mut next: usize = 0;
        while next < self.checkpoints.len()
            invariant
                next <= self.checkpoints@.len(),
                self@.layout.wf(),
                self@.version.spec_number() >= 3,
                self@.layout.checkpoints == self.checkpoints@,
                forall|i: int|
                    0 <= i < next ==> match crate::store::contents::split_block(
                        self@.version,
                        self@.block_at(#[trigger] self@.layout.checkpoints[i]),
                    ) {
                        Ok((_, map)) => crate::store::block_trailer::is_identity_map(map),
                        Err(_) => false,
                    },
            decreases self.checkpoints@.len() - next,
        {
            let checkpoint: Checkpoint = self.checkpoints[next];
            assert(self@.layout.checkpoints[next as int] == checkpoint);
            match self.split_block_trailer(self.get_compressed_block(&checkpoint)) {
                Ok((_, remap)) => {
                    if !remap.is_identity() {
                        return true;
                    }
                },
                Err(_) => {
                    return true;
                },
            }
            next = next + 1;
        }
        false
    }

    /// All documents that are alive, in their order, each with the field-id remap of its block, if
    /// all of them are readable. The blocks are read once, from the cache where possible.
    pub fn iter_raw_with_remap_checked(&mut self, alive_bitset: Option<&AliveBitSet>) -> (result:
        Option<Vec<Result<(Vec<u8>, Arc<BlockFieldRemap>), TantivyError>>>)
        requires
            alive_bitset matches Some(alive) ==> alive@.len() >= old(self)@.layout.num_docs(),
        ensures
            final(self)@ == old(self)@,
            match result {
                Some(documents) => {
                    &&& old(self)@.docs_readable(alive_view(alive_bitset))
                    &&& documents@.len() == (match alive_bitset {
                        Some(bits) => Set::new(
                            |doc: u32| doc < old(self)@.layout.num_docs() && bits@[doc as int],
                        ).len(),
                        None => old(self)@.layout.num_docs() as nat,
                    })
                    &&& raw_views(documents@) == old(self)@.listed(
                        alive_view(alive_bitset),
                        old(self)@.layout.num_docs() as nat,
                    )
                },
                None => !old(self)@.docs_readable(alive_view(alive_bitset)),
            },
            final(self).cache_state() == old(self)@.cache_after_blocks(
                old(self).cache_state(),
                old(self)@.layout.checkpoints.len(),
            ),
    {
        proof {
            use_type_invariant(&*self);
        }
        let ghost contents = self@;
        let ghost alive = alive_view(alive_bitset);
        let mut documents: Vec<Result<(Vec<u8>, Arc<BlockFieldRemap>), TantivyError>> = Vec::new();
        let mut readable: bool = true;
        let mut next: usize = 0;
        let mut doc_id: u32 = 0;
        assert(raw_views(documents@) =~= contents.listed(alive, 0));
        while next < self.checkpoints.len()
            invariant
                contents == self@,
                contents == old(self)@,
                contents.layout.wf(),
                contents.layout.checkpoints == self.checkpoints@,
                next <= contents.layout.checkpoints.len(),
                doc_id == (if next == 0 {
                    0
                } else {
                    contents.layout.checkpoints[next - 1].doc_end
                }),
                alive == alive_view(alive_bitset),
                alive matches Some(bits) ==> bits.len() >= contents.layout.num_docs(),
                readable ==> raw_views(documents@) == contents.listed(alive, doc_id as nat),
                readable ==> forall|doc: u32|
                    doc < doc_id && crate::store::contents::is_alive(alive, doc)
                        ==> #[trigger] contents.doc_readable(doc),
                !readable ==> !contents.docs_readable(alive),
                self.cache_state() == contents.cache_after_blocks(
                    old(self).cache_state(),
                    next as nat,
                ),
            decreases contents.layout.checkpoints.len() - next,
        {
            let checkpoint: Checkpoint = self.checkpoints[next];
            let ghost last = contents.layout.checkpoints.len() - 1;
            assert(contents.layout.checkpoints[next as int] == checkpoint);
            assert(contents.layout.checkpoints[last].doc_end >= checkpoint.doc_end);
            let loaded: Result<CachedBlock, StoreError> = self.read_block_with_remap(&checkpoint);
            let unambiguous: bool = self.is_unambiguous(&checkpoint);
            assert(doc_id == checkpoint.doc_start) by {
                if next > 0 {
                    assert(contents.layout.checkpoints[next - 1].doc_end == checkpoint.doc_start);
                }
            }
            while doc_id < checkpoint.doc_end
                invariant
                    contents == self@,
                    contents == old(self)@,
                    contents.layout.wf(),
                    next < contents.layout.checkpoints.len(),
                    contents.layout.checkpoints[next as int] == checkpoint,
                    checkpoint.doc_start <= doc_id <= checkpoint.doc_end
                        <= contents.layout.num_docs(),
                    alive == alive_view(alive_bitset),
                    alive matches Some(bits) ==> bits.len() >= contents.layout.num_docs(),
                    readable ==> raw_views(documents@) == contents.listed(alive, doc_id as nat),
                    readable ==> forall|doc: u32|
                        doc < doc_id && crate::store::contents::is_alive(alive, doc)
                            ==> #[trigger] contents.doc_readable(doc),
                    !readable ==> !contents.docs_readable(alive),
                    unambiguous == contents.unambiguous(checkpoint),
                    unambiguous ==> match loaded {
                        Ok(block) => contents.load(checkpoint) == Ok::<_, StoreError>(
                            loaded_view(block),
                        ),
                        Err(error) => contents.load(checkpoint) == Err::<
                            (Seq<u8>, Map<u32, u32>),
                            StoreError,
                        >(error),
                    },
                decreases checkpoint.doc_end - doc_id,
            {
                let is_alive: bool = match alive_bitset {
                    Some(bits) => bits.is_alive(doc_id),
                    None => true,
                };
                proof {
                    assert(contents.layout.doc_in_block(doc_id, next as int));
                    contents.layout.lemma_block_of_unique(doc_id, next as int);
                }
                if is_alive && readable {
                    let doc_pos: u32 = doc_id - checkpoint.doc_start;
                    let can_read: bool = unambiguous && match &loaded {
                        Ok((block, _)) => can_cut_doc(block.as_slice(), doc_pos),
                        Err(_) => true,
                    };
                    assert(can_read == contents.doc_readable(doc_id));
                    if can_read {
                        let document: Result<(Vec<u8>, Arc<BlockFieldRemap>), TantivyError> =
                            match &loaded {
                            Ok((block, remap)) => {
                                match Self::get_document_bytes_from_block(
                                    block.as_slice(),
                                    doc_id,
                                    &checkpoint,
                                ) {
                                    Ok(bytes) => Ok((bytes, share(remap))),
                                    Err(error) => Err(error),
                                }
                            },
                            Err(error) => Err(TantivyError::BlockRead(error.kind())),
                        };
                        let ghost before = documents@;
                        documents.push(document);
                        assert(raw_views(documents@) =~= raw_views(before).push(
                            contents.listed_doc(doc_id),
                        ));
                    } else {
                        readable = false;
                    }
                }
                doc_id = doc_id + 1;
            }
            next = next + 1;
        }
        if readable {
            proof {
                crate::store::doc_laws::lemma_deleted_documents_are_not_listed(
                    contents,
                    alive_bitset,
                    0,
                );
            }
            Some(documents)
        } else {
            None
        }
    }

    /// All documents that are alive, in their order, each with the field-id remap of its block.
    pub fn iter_raw_with_remap(&mut self, alive_bitset: Option<&AliveBitSet>) -> (documents: Vec<
        Result<(Vec<u8>, Arc<BlockFieldRemap>), TantivyError>,
    >)
        requires
            alive_bitset matches Some(alive) ==> alive@.len() >= old(self)@.layout.num_docs(),
            old(self)@.docs_readable(alive_view(alive_bitset)),
        ensures
            final(self)@ == old(self)@,
            documents@.len() == (match alive_bitset {
                Some(bits) => Set::new(
                    |doc: u32| doc < old(self)@.layout.num_docs() && bits@[doc as int],
                ).len(),
                None => old(self)@.layout.num_docs() as nat,
            }),
            raw_views(documents@) == old(self)@.listed(
                alive_view(alive_bitset),
                old(self)@.layout.num_docs() as nat,
            ),
            final(self).cache_state() == old(self)@.cache_after_blocks(
                old(self).cache_state(),
                old(self)@.layout.checkpoints.len(),
            ),
    {
        self.iter_raw_with_remap_checked(alive_bitset).unwrap()
    }

    /// All documents that are alive, in their order, if all of them are readable: what their
    /// decoder takes.
    pub fn iter_checked(
        &mut self,
        alive_bitset: Option<&AliveBitSet>,
    ) -> (result: Option<Vec<Result<StoredDocument, TantivyError>>>)
        requires
            alive_bitset matches Some(alive) ==> alive@.len() >= old(self)@.layout.num_docs(),
        ensures
            final(self)@ == old(self)@,
            match result {
                Some(documents) => {
                    &&& old(self)@.docs_readable(alive_view(alive_bitset))
                    &&& documents@.len() == (match alive_bitset {
                        Some(bits) => Set::new(
                            |doc: u32| doc < old(self)@.layout.num_docs() && bits@[doc as int],
                        ).len(),
                        None => old(self)@.layout.num_docs() as nat,
                    })
                    &&& are_stored_docs(
                        documents@,
                        old(self)@.version,
                        old(self)@.listed(
                            alive_view(alive_bitset),
                            old(self)@.layout.num_docs() as nat,
                        ),
                    )
                },
                None => !old(self)@.docs_readable(alive_view(alive_bitset)),
            },
            final(self).cache_state() == old(self)@.cache_after_blocks(
                old(self).cache_state(),
                old(self)@.layout.checkpoints.len(),
            ),
    {
        match self.iter_raw_with_remap_checked(alive_bitset) {
            Some(raw) => Some(stored_documents(raw, self.doc_store_version)),
            None => None,
        }
    }

    /// All documents that are alive, in their order: what their decoder takes.
    pub fn iter(
        &mut self,
        alive_bitset: Option<&AliveBitSet>,
    ) -> (documents: Vec<Result<StoredDocument, TantivyError>>)
        requires
            alive_bitset matches Some(alive) ==> alive@.len() >= old(self)@.layout.num_docs(),
            old(self)@.docs_readable(alive_view(alive_bitset)),
        ensures
            final(self)@ == old(self)@,
            documents@.len() == (match alive_bitset {
                Some(bits) => Set::new(
                    |doc: u32| doc < old(self)@.layout.num_docs() && bits@[doc as int],
                ).len(),
                None => old(self)@.layout.num_docs() as nat,
            }),
            are_stored_docs(
                documents@,
                old(self)@.version,
                old(self)@.listed(
                    alive_view(alive_bitset),
                    old(self)@.layout.num_docs() as nat,
                ),
            ),
            final(self).cache_state() == old(self)@.cache_after_blocks(
                old(self).cache_state(),
                old(self)@.layout.checkpoints.len(),
            ),
    {
        self.iter_checked(alive_bitset).unwrap()
    }

    /// The bytes of all documents that are alive, in their order, if all of them are readable.
    pub fn iter_raw_checked(
        &mut self,
        alive_bitset: Option<&AliveBitSet>,
    ) -> (result: Option<Vec<Result<Vec<u8>, TantivyError>>>)
        requires
            alive_bitset matches Some(alive) ==> alive@.len() >= old(self)@.layout.num_docs(),
        ensures
            final(self)@ == old(self)@,
            match result {
                Some(documents) => {
                    &&& old(self)@.docs_readable(alive_view(alive_bitset))
                    &&& documents@.len() == (match alive_bitset {
                        Some(bits) => Set::new(
                            |doc: u32| doc < old(self)@.layout.num_docs() && bits@[doc as int],
                        ).len(),
                        None => old(self)@.layout.num_docs() as nat,
                    })
                    &&& are_doc_bytes(
                        documents@,
                        old(self)@.listed(
                            alive_view(alive_bitset),
                            old(self)@.layout.num_docs() as nat,
                        ),
                    )
                },
                None => !old(self)@.docs_readable(alive_view(alive_bitset)),
            },
            final(self).cache_state() == old(self)@.cache_after_blocks(
                old(self).cache_state(),
                old(self)@.layout.checkpoints.len(),
            ),
    {
        match self.iter_raw_with_remap_checked(alive_bitset) {
            Some(raw) => Some(document_bytes(raw)),
            None => None,
        }
    }

    /// The bytes of all documents that are alive, in their order.
    pub fn iter_raw(
        &mut self,
        alive_bitset: Option<&AliveBitSet>,
    ) -> (documents: Vec<Result<Vec<u8>, TantivyError>>)
        requires
            alive_bitset matches Some(alive) ==> alive@.len() >= old(self)@.layout.num_docs(),
            old(self)@.docs_readable(alive_view(alive_bitset)),
        ensures
            final(self)@ == old(self)@,
            documents@.len() == (match alive_bitset {
                Some(bits) => Set::new(
                    |doc: u32| doc < old(self)@.layout.num_docs() && bits@[doc as int],
                ).len(),
                None => old(self)@.layout.num_docs() as nat,
            }),
            are_doc_bytes(
                documents@,
                old(self)@.listed(
                    alive_view(alive_bitset),
                    old(self)@.layout.num_docs() as nat,
                ),
            ),
            final(self).cache_state() == old(self)@.cache_after_blocks(
                old(self).cache_state(),
                old(self)@.layout.checkpoints.len(),
            ),
    {
        self.iter_raw_checked(alive_bitset).unwrap()
    }

    /// The bytes of all documents that are alive, in their order, for a store without remaps, if all
    /// of them are readable. Those of a document whose block renames nothing are copied. The others
    /// are decoded and encoded again with their fields renamed, which have to be stored fields of
    /// `target_schema`.
    pub fn iter_doc_bytes_translated_checked<V, Dec, Enc>(
        &mut self,
        target_schema: &Schema,
        alive_bitset: Option<&AliveBitSet>,
        decode: Dec,
        encode: Enc,
    ) -> (result: Option<Vec<Result<Vec<u8>, TantivyError>>>) where
        Dec: Fn(Vec<u8>, DocStoreVersion) -> Result<Vec<(u32, V)>, TantivyError>,
        Enc: Fn(Vec<(u32, V)>) -> Result<Vec<u8>, TantivyError>,

        requires
            alive_bitset matches Some(alive) ==> alive@.len() >= old(self)@.layout.num_docs(),
            forall|stored: Vec<u8>| #[trigger]
                call_requires(decode, (stored, old(self)@.version)),
            forall|fields: Vec<(u32, V)>| #[trigger] call_requires(encode, (fields,)),
        ensures
            final(self)@ == old(self)@,
            match result {
                Some(documents) => {
                    &&& old(self)@.docs_readable(alive_view(alive_bitset))
                    &&& documents@.len() == (match alive_bitset {
                        Some(bits) => Set::new(
                            |doc: u32| doc < old(self)@.layout.num_docs() && bits@[doc as int],
                        ).len(),
                        None => old(self)@.layout.num_docs() as nat,
                    })
                    &&& are_translations(
                        documents@,
                        old(self)@.listed(
                            alive_view(alive_bitset),
                            old(self)@.layout.num_docs() as nat,
                        ),
                        old(self)@.version,
                        target_schema@,
                        decode,
                        encode,
                    )
                },
                None => !old(self)@.docs_readable(alive_view(alive_bitset)),
            },
            final(self).cache_state() == old(self)@.cache_after_blocks(
                old(self).cache_state(),
                old(self)@.layout.checkpoints.len(),
            ),
    {
        match self.iter_raw_with_remap_checked(alive_bitset) {
            Some(raw) => Some(translate_documents(
                raw,
                self.doc_store_version,
                target_schema,
                decode,
                encode,
            )),
            None => None,
        }
    }

    /// The bytes of all documents that are alive, in their order, for a store without remaps.
    pub fn iter_doc_bytes_translated<V, Dec, Enc>(
        &mut self,
        target_schema: &Schema,
        alive_bitset: Option<&AliveBitSet>,
        decode: Dec,
        encode: Enc,
    ) -> (documents: Vec<Result<Vec<u8>, TantivyError>>) where
        Dec: Fn(Vec<u8>, DocStoreVersion) -> Result<Vec<(u32, V)>, TantivyError>,
        Enc: Fn(Vec<(u32, V)>) -> Result<Vec<u8>, TantivyError>,

        requires
            alive_bitset matches Some(alive) ==> alive@.len() >= old(self)@.layout.num_docs(),
            old(self)@.docs_readable(alive_view(alive_bitset)),
            forall|stored: Vec<u8>| #[trigger]
                call_requires(decode, (stored, old(self)@.version)),
            forall|fields: Vec<(u32, V)>| #[trigger] call_requires(encode, (fields,)),
        ensures
            final(self)@ == old(self)@,
            documents@.len() == (match alive_bitset {
                Some(bits) => Set::new(
                    |doc: u32| doc < old(self)@.layout.num_docs() && bits@[doc as int],
                ).len(),
                None => old(self)@.layout.num_docs() as nat,
            }),
            are_translations(
                documents@,
                old(self)@.listed(
                    alive_view(alive_bitset),
                    old(self)@.layout.num_docs() as nat,
                ),
                old(self)@.version,
                target_schema@,
                decode,
                encode,
            ),
            final(self).cache_state() == old(self)@.cache_after_blocks(
                old(self).cache_state(),
                old(self)@.layout.checkpoints.len(),
            ),
    {
        self.iter_doc_bytes_translated_checked(target_schema, alive_bitset, decode, encode).unwrap()
    }
}

/// The items of `documents` are the documents that `listed` describes.
pub open spec fn are_stored_docs(
    documents: Seq<Result<StoredDocument, TantivyError>>,
    version: DocStoreVersion,
    listed: Seq<Result<(Seq<u8>, Map<u32, u32>), TantivyError>>,
) -> bool {
    &&& documents.len() == listed.len()
    &&& forall|i: int|
        0 <= i < documents.len() ==> is_stored_doc(#[trigger] documents[i], version, listed[i])
}

/// The items of `documents` are the bytes of the documents that `listed` describes.
pub open spec fn are_doc_bytes(
    documents: Seq<Result<Vec<u8>, TantivyError>>,
    listed: Seq<Result<(Seq<u8>, Map<u32, u32>), TantivyError>>,
) -> bool {
    &&& documents.len() == listed.len()
    &&& forall|i: int|
        0 <= i < documents.len() ==> bytes_view(#[trigger] documents[i]) == without_remap(listed[i])
}

/// The items of `documents` are translations of the documents that `listed` describes.
pub open spec fn are_translations<V, Dec, Enc>(
    documents: Seq<Result<Vec<u8>, TantivyError>>,
    listed: Seq<Result<(Seq<u8>, Map<u32, u32>), TantivyError>>,
    version: DocStoreVersion,
    schema: Seq<FieldView>,
    decode: Dec,
    encode: Enc,
) -> bool where
    Dec: Fn(Vec<u8>, DocStoreVersion) -> Result<Vec<(u32, V)>, TantivyError>,
    Enc: Fn(Vec<(u32, V)>) -> Result<Vec<u8>, TantivyError>,
 {
    &&& documents.len() == listed.len()
    &&& forall|i: int|
        0 <= i < documents.len() ==> is_translation(
            #[trigger] documents[i],
            listed[i],
            version,
            schema,
            decode,
            encode,
        )
}

fn stored_documents(
    raw: Vec<Result<(Vec<u8>, Arc<BlockFieldRemap>), TantivyError>>,
    version: DocStoreVersion,
) -> (documents: Vec<Result<StoredDocument, TantivyError>>)
    ensures
        are_stored_docs(documents@, version, raw_views(raw@)),
{
    let ghost all = raw@;
    let mut documents: Vec<Result<StoredDocument, TantivyError>> = Vec::new();
    for result in results: raw.into_iter()
        invariant
            results.seq() == all,
            documents@.len() == results.index(),
            forall|i: int|
                0 <= i < documents@.len() ==> is_stored_doc(
                    #[trigger] documents@[i],
                    version,
                    raw_view(all[i]),
                ),
    {
        let document: Result<StoredDocument, TantivyError> = match result {
            Ok((bytes, remap)) => Ok(StoredDocument::new(bytes, version, remap)),
            Err(error) => Err(error),
        };
        documents.push(document);
    }
    documents
}

fn document_bytes(raw: Vec<Result<(Vec<u8>, Arc<BlockFieldRemap>), TantivyError>>) -> (documents:
    Vec<Result<Vec<u8>, TantivyError>>)
    ensures
        are_doc_bytes(documents@, raw_views(raw@)),
{
    let ghost all = raw@;
    let mut documents: Vec<Result<Vec<u8>, TantivyError>> = Vec::new();
    for result in results: raw.into_iter()
        invariant
            results.seq() == all,
            documents@.len() == results.index(),
            forall|i: int|
                0 <= i < documents@.len() ==> bytes_view(#[trigger] documents@[i])
                    == without_remap(raw_view(all[i])),
    {
        let document: Result<Vec<u8>, TantivyError> = match result {
            Ok((bytes, _)) => Ok(bytes),
            Err(error) => Err(error),
        };
        documents.push(document);
    }
    documents
}

fn translate_documents<V, Dec, Enc>(
    raw: Vec<Result<(Vec<u8>, Arc<BlockFieldRemap>), TantivyError>>,
    version: DocStoreVersion,
    target_schema: &Schema,
    decode: Dec,
    encode: Enc,
) -> (documents: Vec<Result<Vec<u8>, TantivyError>>) where
    Dec: Fn(Vec<u8>, DocStoreVersion) -> Result<Vec<(u32, V)>, TantivyError>,
    Enc: Fn(Vec<(u32, V)>) -> Result<Vec<u8>, TantivyError>,

    requires
        forall|stored: Vec<u8>| #[trigger] call_requires(decode, (stored, version)),
        forall|fields: Vec<(u32, V)>| #[trigger] call_requires(encode, (fields,)),
    ensures
        are_translations(
            documents@,
            raw_views(raw@),
            version,
            target_schema@,
            decode,
            encode,
        ),
{
    let ghost all = raw@;
    let mut documents: Vec<Result<Vec<u8>, TantivyError>> = Vec::new();
    for result in results: raw.into_iter()
        invariant
            results.seq() == all,
            documents@.len() == results.index(),
            forall|stored: Vec<u8>| #[trigger] call_requires(decode, (stored, version)),
            forall|fields: Vec<(u32, V)>| #[trigger] call_requires(encode, (fields,)),
            forall|i: int|
                0 <= i < documents@.len() ==> is_translation(
                    #[trigger] documents@[i],
                    raw_view(all[i]),
                    version,
                    target_schema@,
                    decode,
                    encode,
                ),
    {
        let document: Result<Vec<u8>, TantivyError> = match result {
            Ok((bytes, remap)) => if remap.is_identity() {
                Ok(bytes)
            } else {
                match decode(bytes, version) {
                    Ok(fields) => match translate_fields(fields, &remap, target_schema) {
                        Ok(renamed) => encode(renamed),
                        Err(error) => Err(error),
                    },
                    Err(error) => Err(error),
                }
            },
            Err(error) => Err(error),
        };
        documents.push(document);
    }
    documents
}

} // verus!
