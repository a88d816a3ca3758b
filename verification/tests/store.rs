use docstore::error::{ErrorKind, StoreError, TantivyError};
use docstore::schema::{NumericOptions, PlainType, Schema, TextOptions};
use docstore::store::reader::{block_read_index, DOCSTORE_CACHE_CAPACITY};
use docstore::store::version::DOC_STORE_VERSION;
use docstore::store::{
    translate_fields, AliveBitSet, BlockCompressor, BlockFieldRemap, CacheStats, Checkpoint,
    Compressor, Decompressor, DocStoreFooter, DocStoreVersion, StoreFile, StoreReader, StoreWriter,
};

const LOREM: &str = "Doc Lorem ipsum dolor sit amet, consectetur adipiscing elit, sed do \
                     eiusmod tempor incididunt ut labore et dolore magna aliqua. Ut enim ad \
                     minim veniam, quis nostrud exercitation ullamco laboris nisi ut aliquip \
                     ex ea commodo consequat. Duis aute irure dolor in reprehenderit in \
                     voluptate velit esse cillum dolore eu fugiat nulla pariatur. Excepteur \
                     sint occaecat cupidatat non proident, sunt in culpa qui officia deserunt \
                     mollit anim id est laborum.";

const BLOCK_SIZE: usize = 16_384;
const NUM_DOCS: usize = 1_000;
const BODY: u32 = 0;
const TITLE: u32 = 1;

fn vint(mut value: usize, out: &mut Vec<u8>) {
    while value >= 128 {
        out.push((value % 128) as u8);
        value /= 128;
    }
    out.push(value as u8 | 128);
}

fn read_vint(bytes: &[u8], position: &mut usize) -> usize {
    let mut value = 0;
    let mut shift = 0;
    loop {
        let byte = bytes[*position];
        *position += 1;
        value |= ((byte & 127) as usize) << shift;
        if byte >= 128 {
            return value;
        }
        shift += 7;
    }
}

/// The number of fields; then for each its id, a type and the text.
fn encode(fields: &[(u32, &str)]) -> Vec<u8> {
    let mut out = Vec::new();
    vint(fields.len(), &mut out);
    for (id, text) in fields {
        out.extend_from_slice(&id.to_le_bytes());
        out.push(0);
        vint(text.len(), &mut out);
        out.extend_from_slice(text.as_bytes());
    }
    out
}

fn decode(bytes: &[u8], remap: Option<&BlockFieldRemap>) -> Vec<(u32, String)> {
    let mut position = 0;
    let mut fields = Vec::new();
    for _ in 0..read_vint(bytes, &mut position) {
        let mut id = [0u8; 4];
        id.copy_from_slice(&bytes[position..position + 4]);
        position += 5;
        let len = read_vint(bytes, &mut position);
        let text = String::from_utf8(bytes[position..position + len].to_vec()).unwrap();
        position += len;
        let id = u32::from_le_bytes(id);
        fields.push((remap.map_or(id, |remap| remap.lookup(id)), text));
    }
    fields
}

/// The fields of a document, for a store that renames them.
fn decode_fields(
    bytes: Vec<u8>,
    _version: DocStoreVersion,
) -> Result<Vec<(u32, String)>, TantivyError> {
    Ok(decode(&bytes, None))
}

fn encode_fields(fields: Vec<(u32, String)>) -> Result<Vec<u8>, TantivyError> {
    let fields: Vec<(u32, &str)> = fields.iter().map(|(id, text)| (*id, text.as_str())).collect();
    Ok(encode(&fields))
}

/// A schema of `num_fields` fields of text. All but `not_stored` are stored.
fn text_schema(num_fields: u32, not_stored: Option<u32>) -> Schema {
    let mut builder = Schema::builder();
    for id in 0..num_fields {
        let options = TextOptions::text();
        let options = if not_stored == Some(id) { options } else { options.set_stored() };
        builder.add_text_field(&format!("field {id}"), options);
    }
    builder.build()
}

fn get_fields(store: &mut StoreReader, doc: u32) -> Vec<(u32, String)> {
    let document = store.get(doc).unwrap();
    decode(&document.bytes, document.remap.as_ref().map(|remap| remap.as_ref()))
}

fn get_first(fields: &[(u32, String)], field: u32) -> Option<&str> {
    fields.iter().find(|(id, _)| *id == field).map(|(_, text)| text.as_str())
}

fn all_titles(store: &mut StoreReader, alive: Option<&AliveBitSet>) -> Vec<String> {
    store
        .iter(alive)
        .into_iter()
        .map(|document| {
            let document = document.unwrap();
            let fields =
                decode(&document.bytes, document.remap.as_ref().map(|remap| remap.as_ref()));
            get_first(&fields, TITLE).unwrap().to_string()
        })
        .collect()
}

fn write_lorem_ipsum_store(num_docs: usize, compressor: Compressor, blocksize: usize) -> StoreFile {
    let mut store_writer = StoreWriter::new(compressor, blocksize);
    for i in 0..num_docs {
        let title = format!("Doc {i}");
        store_writer.store_bytes(&encode(&[(BODY, LOREM), (TITLE, &title)])).unwrap();
    }
    store_writer.close().unwrap()
}

fn open(file: StoreFile, cache_num_blocks: usize) -> StoreReader {
    assert!(file.is_sound());
    StoreReader::open(file, cache_num_blocks)
}

#[test]
fn test_doc_store_iter_with_delete_bug_1077() {
    // this will cover deletion of the first element in a checkpoint
    let deleted_doc_ids: Vec<u32> = (200..300).collect();
    let alive_bitset = AliveBitSet::from_deleted_docs(&deleted_doc_ids, NUM_DOCS as u32);
    let mut store =
        open(write_lorem_ipsum_store(NUM_DOCS, Compressor::default(), BLOCK_SIZE), 10);
    for i in 0..NUM_DOCS as u32 {
        let fields = get_fields(&mut store, i);
        assert_eq!(get_first(&fields, TITLE).unwrap(), format!("Doc {i}"));
    }
    let titles = all_titles(&mut store, Some(&alive_bitset));
    assert_eq!(titles.len(), 900);
    for title_content in titles {
        if !title_content.starts_with("Doc ") {
            panic!("unexpected title_content {title_content}");
        }
        let id = title_content.strip_prefix("Doc ").unwrap().parse::<u32>().unwrap();
        if alive_bitset.is_deleted(id) {
            panic!("unexpected deleted document {id}");
        }
    }
}

fn check_store(compressor: Compressor, blocksize: usize) {
    let mut store = open(write_lorem_ipsum_store(NUM_DOCS, compressor, blocksize), 10);
    for i in 0..NUM_DOCS as u32 {
        let fields = get_fields(&mut store, i);
        assert_eq!(get_first(&fields, TITLE).unwrap(), format!("Doc {i}"));
        assert_eq!(get_first(&fields, BODY).unwrap(), LOREM);
    }
    for (i, title) in all_titles(&mut store, None).into_iter().enumerate() {
        assert_eq!(title, format!("Doc {i}"));
    }
}

#[test]
fn test_store_no_compression_same_thread() {
    check_store(Compressor::Uncompressed, BLOCK_SIZE);
}

#[test]
fn test_store_no_compression() {
    check_store(Compressor::Uncompressed, BLOCK_SIZE);
}

#[test]
fn test_store_lz4_block() {
    check_store(Compressor::Lz4, BLOCK_SIZE);
}

#[test]
fn lz4_blocks_are_smaller_than_their_data() {
    let plain = write_lorem_ipsum_store(100, Compressor::Uncompressed, BLOCK_SIZE);
    let packed = write_lorem_ipsum_store(100, Compressor::Lz4, BLOCK_SIZE);
    assert_eq!(plain.checkpoints.len(), packed.checkpoints.len());
    assert!(packed.data.len() * 4 < plain.data.len());
}

#[test]
fn test_store_with_delete() {
    let text_field = 0;
    let mut store_writer = StoreWriter::new(Compressor::default(), BLOCK_SIZE);
    let texts = ["deleteme", "deletemenot", "deleteme", "deletemenot", "deleteme"];
    let mut deleted = Vec::new();
    for (doc, text) in texts.iter().enumerate() {
        store_writer.store_bytes(&encode(&[(text_field, text)])).unwrap();
        if *text == "deleteme" {
            deleted.push(doc as u32);
        }
    }
    let alive_bitset = AliveBitSet::from_deleted_docs(&deleted, texts.len() as u32);
    let mut store = open(store_writer.close().unwrap(), 10);
    let documents = store.iter(Some(&alive_bitset));
    assert_eq!(documents.len(), 2);
    for document in documents {
        let fields = decode(&document.unwrap().bytes, None);
        assert_eq!(get_first(&fields, text_field).unwrap(), "deletemenot".to_string());
    }
}

#[test]
fn test_stack_v2_source_into_v3_target() {
    const NUM_LEGACY: usize = 250;
    let mut store_writer =
        StoreWriter::new_with_version(Compressor::Lz4, BLOCK_SIZE, DocStoreVersion::V2);
    for i in 0..NUM_LEGACY {
        let title = format!("legacy doc {i}");
        store_writer.store_bytes(&encode(&[(TITLE, &title)])).unwrap();
    }
    let legacy_reader = open(store_writer.close().unwrap(), 10);
    assert_eq!(legacy_reader.doc_store_version(), DocStoreVersion::V2);

    let mut target_writer = StoreWriter::new(Compressor::Lz4, BLOCK_SIZE);
    target_writer.stack(legacy_reader).unwrap();
    let mut v3_reader = open(target_writer.close().unwrap(), 10);
    assert_eq!(v3_reader.doc_store_version(), DocStoreVersion::V3);
    for i in 0..NUM_LEGACY as u32 {
        let fields = get_fields(&mut v3_reader, i);
        assert_eq!(get_first(&fields, TITLE), Some(format!("legacy doc {i}").as_str()));
    }
    let titles = all_titles(&mut v3_reader, None);
    assert_eq!(titles.len(), NUM_LEGACY);
    for (i, title) in titles.iter().enumerate() {
        assert_eq!(title, &format!("legacy doc {i}"));
    }
}

#[test]
fn test_merge_of_small_segments() {
    // Few documents are copied one by one, and end up in a single block.
    let mut merged = StoreWriter::new(Compressor::Lz4, BLOCK_SIZE);
    for text in ["1", "2", "3", "4", "5"] {
        let mut segment = StoreWriter::new(Compressor::Lz4, BLOCK_SIZE);
        segment.store_bytes(&encode(&[(0, text)])).unwrap();
        let mut reader = open(segment.close().unwrap(), 10);
        assert!(!reader.has_non_identity_remap());
        for bytes in reader.iter_raw(None) {
            merged.store_bytes(&bytes.unwrap()).unwrap();
        }
    }
    let mut store = open(merged.close().unwrap(), 10);
    assert_eq!(store.block_checkpoints().len(), 1);
    assert_eq!(decode(&store.get_document_bytes(4).unwrap(), None), vec![(0, "5".to_string())]);
}

#[test]
fn test_doc_store_version_ord() {
    assert!(DocStoreVersion::V1 < DocStoreVersion::V2);
}

#[test]
fn versions_are_written_as_numbers() {
    for (version, number, name) in [
        (DocStoreVersion::V1, 1u8, "V1"),
        (DocStoreVersion::V2, 2, "V2"),
        (DocStoreVersion::V3, 3, "V3"),
    ] {
        let mut bytes = Vec::new();
        version.serialize(&mut bytes);
        assert_eq!(bytes, vec![number, 0, 0, 0]);
        assert_eq!(DocStoreVersion::deserialize(&bytes), Ok(version));
        assert_eq!(version.name(), name);
    }
    assert_eq!(
        DocStoreVersion::deserialize(&[4, 0, 0, 0]),
        Err(StoreError::InvalidDocStoreVersion { number: 4 })
    );
    assert_eq!(DocStoreVersion::deserialize(&[1, 0]), Err(StoreError::UnexpectedEof));
    assert_eq!(DOC_STORE_VERSION, DocStoreVersion::V3);
}

#[test]
fn test_store_lru_cache() {
    let mut store = open(
        write_lorem_ipsum_store(500, Compressor::Uncompressed, BLOCK_SIZE),
        DOCSTORE_CACHE_CAPACITY,
    );
    let check = |store: &StoreReader, entries: usize, hits: usize, misses: usize| {
        assert_eq!(
            store.cache_stats(),
            CacheStats { num_entries: entries, cache_hits: hits, cache_misses: misses }
        );
    };
    check(&store, 0, 0, 0);

    let fields = get_fields(&mut store, 0);
    assert_eq!(get_first(&fields, TITLE), Some("Doc 0"));
    check(&store, 1, 0, 1);
    assert_eq!(store.least_recently_used(), Some(0));

    let fields = get_fields(&mut store, 499);
    assert_eq!(get_first(&fields, TITLE), Some("Doc 499"));
    check(&store, 2, 0, 2);
    assert_eq!(store.least_recently_used(), Some(0));

    let fields = get_fields(&mut store, 0);
    assert_eq!(get_first(&fields, TITLE), Some("Doc 0"));
    check(&store, 2, 1, 2);

    // Each V3 block carries an extra 4-byte trailer (empty remap),
    // shifting every block's start offset by 4 bytes per preceding block.
    assert_eq!(store.least_recently_used(), Some(232262));
}

#[test]
fn full_caches_drop_the_least_recently_used_block() {
    let mut store = open(write_lorem_ipsum_store(200, Compressor::Lz4, BLOCK_SIZE), 2);
    let starts: Vec<(u32, usize)> =
        store.block_checkpoints().iter().map(|cp| (cp.doc_start, cp.byte_start)).collect();
    assert!(starts.len() >= 3);
    for (doc, _) in &starts[..3] {
        store.get_document_bytes(*doc).unwrap();
    }
    assert_eq!(store.cache_stats().num_entries, 2);
    assert_eq!(store.least_recently_used(), Some(starts[1].1));

    let mut uncached = open(write_lorem_ipsum_store(200, Compressor::Lz4, BLOCK_SIZE), 0);
    uncached.get_document_bytes(0).unwrap();
    uncached.get_document_bytes(0).unwrap();
    assert_eq!(uncached.cache_stats().cache_misses, 2);
    assert_eq!(uncached.cache_stats().num_entries, 0);
    assert_eq!(uncached.least_recently_used(), None);
}

#[test]
fn cache_stats_add_up() {
    let one = CacheStats { num_entries: 1, cache_hits: 2, cache_misses: 3 };
    let two = CacheStats { num_entries: 10, cache_hits: 20, cache_misses: 30 };
    assert_eq!(
        CacheStats::sum(&[one, two]),
        CacheStats { num_entries: 11, cache_hits: 22, cache_misses: 33 }
    );
    assert_eq!(CacheStats::sum(&[]), CacheStats::default());
}

fn populate_block_compressor(mut block_compressor: BlockCompressor) -> StoreFile {
    block_compressor.compress_block_and_write(b"hello", 1).unwrap();
    block_compressor.compress_block_and_write(b"happy", 1).unwrap();
    block_compressor.close()
}

#[test]
fn test_block_store_compressor_impls_yield_the_same_result() {
    let implicit = populate_block_compressor(BlockCompressor::new(Compressor::Uncompressed));
    let explicit = populate_block_compressor(BlockCompressor::new_with_version(
        Compressor::Uncompressed,
        DOC_STORE_VERSION,
    ));
    assert_eq!(implicit.data, explicit.data);
    assert_eq!(implicit.checkpoints, explicit.checkpoints);
    assert_eq!(implicit.footer, explicit.footer);
}

#[test]
fn written_blocks_have_the_documented_layout() {
    let file = populate_block_compressor(BlockCompressor::new(Compressor::Uncompressed));
    assert_eq!(file.data, b"hello\x04\0\0\0happy\x04\0\0\0");
    assert_eq!(
        file.checkpoints,
        vec![
            Checkpoint { doc_start: 0, doc_end: 1, byte_start: 0, byte_end: 9 },
            Checkpoint { doc_start: 1, doc_end: 2, byte_start: 9, byte_end: 18 },
        ]
    );
    assert_eq!(
        file.footer,
        DocStoreFooter {
            offset: 18,
            decompressor: Decompressor::Uncompressed,
            doc_store_version: DocStoreVersion::V3,
        }
    );
    let legacy = populate_block_compressor(BlockCompressor::new_with_version(
        Compressor::Uncompressed,
        DocStoreVersion::V2,
    ));
    assert_eq!(legacy.data, b"hellohappy");
}

#[test]
fn documents_are_cut_out_of_their_block() {
    // Two documents, their positions and their number.
    let block = b"abcde\0\0\0\0\x02\0\0\0\x02\0\0\0";
    assert_eq!(block_read_index(block, 0), Ok((0, 2)));
    assert_eq!(block_read_index(block, 1), Ok((2, 5)));
    assert_eq!(
        block_read_index(block, 2),
        Err(TantivyError::IoError(StoreError::UnexpectedEof))
    );
    let wrong = block_read_index(block, 3).unwrap_err();
    assert_eq!(wrong, TantivyError::WrongBlock);
    assert_eq!(wrong.message(), "Attempted to read doc from wrong block");
}

#[test]
fn missing_documents_are_reported() {
    let mut store = open(write_lorem_ipsum_store(3, Compressor::Lz4, BLOCK_SIZE), 10);
    assert_eq!(
        store.get_document_bytes(3),
        Err(TantivyError::DocNotFound { doc_id: 3 })
    );
    assert_eq!(store.cache_stats().cache_misses, 0);
    let mut nothing = open(StoreWriter::new(Compressor::Lz4, BLOCK_SIZE).close().unwrap(), 10);
    assert!(nothing.get(0).is_err());
    assert!(nothing.iter_raw(None).is_empty());
}

#[test]
fn damaged_blocks_are_reported() {
    let mut file = write_lorem_ipsum_store(3, Compressor::Lz4, BLOCK_SIZE);
    let end = file.data.len();
    // The length of the trailer is below its own four bytes.
    file.data[end - 4] = 1;
    let len = file.checkpoints[0].byte_end;
    let mut store = open(file, 10);
    let error = StoreError::InvalidTrailerLength { trailer_byte_len: 1, block_len: len };
    assert_eq!(store.get_document_bytes(0), Err(TantivyError::IoError(error)));
    for document in store.iter_raw(None) {
        assert_eq!(document, Err(TantivyError::BlockRead(ErrorKind::InvalidData)));
    }
    assert!(store.has_non_identity_remap());

    let mut file = write_lorem_ipsum_store(3, Compressor::Lz4, BLOCK_SIZE);
    // Fewer bytes are announced than the payload holds.
    file.data[0] = 0;
    file.data[1] = 0;
    let mut store = open(file, 10);
    assert_eq!(
        store.get_document_bytes(0),
        Err(TantivyError::IoError(StoreError::Decompression))
    );
}

#[test]
fn unsound_files_are_recognised() {
    // Overlapping blocks.
    let mut file = write_lorem_ipsum_store(100, Compressor::Lz4, BLOCK_SIZE);
    assert!(file.is_sound());
    file.checkpoints[1].byte_start -= 1;
    assert!(!file.is_sound());
    // A gap between documents.
    let mut file = write_lorem_ipsum_store(100, Compressor::Lz4, BLOCK_SIZE);
    file.checkpoints[1].doc_start += 1;
    assert!(!file.is_sound());
    // A block that ends behind the data.
    let mut file = write_lorem_ipsum_store(100, Compressor::Lz4, BLOCK_SIZE);
    file.data.pop();
    assert!(!file.is_sound());
}

#[test]
fn one_unreadable_block_does_not_hide_the_others() {
    let mut file = write_lorem_ipsum_store(100, Compressor::Uncompressed, BLOCK_SIZE);
    let first = file.checkpoints[0];
    let second = file.checkpoints[1];
    // The first block says that it holds more documents than fit.
    file.data[first.byte_end - 5] = 0xff;
    let mut store = open(file, 10);
    let schema = text_schema(2, None);
    assert!(store.get_checked(0).is_none());
    assert!(store.get_document_bytes_checked(first.doc_end - 1).is_none());
    assert_eq!(store.cache_stats().cache_misses, 1);
    assert!(store.iter_checked(None).is_none());
    assert!(store.iter_raw_checked(None).is_none());
    assert!(store
        .iter_doc_bytes_translated_checked(&schema, None, decode_fields, encode_fields)
        .is_none());
    // Each block was decompressed once, and found in the cache from then on.
    assert_eq!(store.cache_stats().cache_misses, store.block_checkpoints().len());
    assert_eq!(store.cache_stats().cache_hits, 2 + 2 * store.block_checkpoints().len());

    let bytes = store.get_document_bytes_checked(second.doc_start).unwrap().unwrap();
    let title = format!("Doc {}", second.doc_start);
    assert_eq!(decode(&bytes, None)[1].1, title);
    assert!(store.get_checked(second.doc_start).unwrap().is_ok());
    assert!(store.get_checked(100).unwrap().is_err());

    // Without the documents of that block, all are readable.
    let deleted: Vec<u32> = (0..first.doc_end).collect();
    let alive = AliveBitSet::from_deleted_docs(&deleted, 100);
    let num_alive = 100 - deleted.len();
    assert_eq!(store.iter_checked(Some(&alive)).unwrap().len(), num_alive);
    assert_eq!(store.iter_raw_checked(Some(&alive)).unwrap().len(), num_alive);
    let translated = store
        .iter_doc_bytes_translated_checked(&schema, Some(&alive), decode_fields, encode_fields)
        .unwrap();
    assert_eq!(translated.len(), num_alive);

    // Its bytes can be copied all the same.
    let size = store.block_data().len();
    let mut writer = StoreWriter::new(Compressor::Uncompressed, BLOCK_SIZE);
    writer.stack(store).unwrap();
    assert_eq!(writer.close().unwrap().data.len(), size);
}

fn small_store(version: DocStoreVersion, texts: &[&str]) -> StoreReader {
    let mut writer = StoreWriter::new_with_version(Compressor::Lz4, 64, version);
    for text in texts {
        writer.store_bytes(&encode(&[(0, text), (1, "x")])).unwrap();
    }
    open(writer.close().unwrap(), 10)
}

#[test]
fn stacking_renames_fields_step_by_step() {
    let source = small_store(DocStoreVersion::V2, &["a", "b", "c"]);
    let mut first = StoreWriter::new(Compressor::Lz4, 64);
    first.stack_with_remap(source, BlockFieldRemap::from_pairs(vec![(0, 5), (1, 6)])).unwrap();
    let mut renamed = open(first.close().unwrap(), 10);
    assert!(renamed.has_non_identity_remap());
    assert_eq!(
        get_fields(&mut renamed, 1),
        vec![(5, "b".to_string()), (6, "x".to_string())]
    );

    let mut second = StoreWriter::new(Compressor::Lz4, 64);
    second.store_bytes(&encode(&[(2, "own")])).unwrap();
    second.stack_with_remap(renamed, BlockFieldRemap::from_pairs(vec![(5, 9), (0, 3)])).unwrap();
    let mut twice = open(second.close().unwrap(), 10);
    assert_eq!(get_fields(&mut twice, 0), vec![(2, "own".to_string())]);
    assert_eq!(
        get_fields(&mut twice, 3),
        vec![(9, "c".to_string()), (6, "x".to_string())]
    );

    // The bytes themselves are copied: only the remap tells the new names.
    let bytes = twice.get_document_bytes(3).unwrap();
    assert_eq!(decode(&bytes, None), vec![(0, "c".to_string()), (1, "x".to_string())]);

    // Copying whole stores keeps the remaps.
    let mut third = StoreWriter::new(Compressor::Lz4, 64);
    third.stack(twice).unwrap();
    let mut thrice = open(third.close().unwrap(), 10);
    assert_eq!(
        get_fields(&mut thrice, 2),
        vec![(9, "b".to_string()), (6, "x".to_string())]
    );
    let alive = AliveBitSet::from_deleted_docs(&[1, 2], 4);
    let schema = text_schema(10, None);
    let translated =
        thrice.iter_doc_bytes_translated(&schema, Some(&alive), decode_fields, encode_fields);
    // The first block renames nothing, the others do.
    assert_eq!(
        translated,
        vec![Ok(encode(&[(2, "own")])), Ok(encode(&[(9, "c"), (6, "x")]))]
    );
}

#[test]
fn translated_documents_need_stored_fields() {
    let source = small_store(DocStoreVersion::V3, &["a"]);
    let mut writer = StoreWriter::new(Compressor::Lz4, 64);
    writer.store_bytes(&encode(&[(7, "own")])).unwrap();
    writer.stack_with_remap(source, BlockFieldRemap::from_pairs(vec![(0, 3), (1, 4)])).unwrap();
    let mut store = open(writer.close().unwrap(), 10);
    let own = || Ok(encode(&[(7, "own")]));
    let mut translate = |schema: &Schema| {
        store.iter_doc_bytes_translated(schema, None, decode_fields, encode_fields)
    };
    // What is copied as it is, is not looked into.
    assert_eq!(
        translate(&text_schema(5, None)),
        vec![own(), Ok(encode(&[(3, "a"), (4, "x")]))]
    );
    assert_eq!(
        translate(&text_schema(4, None)),
        vec![own(), Err(TantivyError::FieldOutOfRange { field_id: 4 })]
    );
    assert_eq!(
        translate(&text_schema(5, Some(3))),
        vec![own(), Err(TantivyError::FieldNotStored { field_id: 3 })]
    );
    // The first flaw is reported.
    assert_eq!(
        translate(&text_schema(4, Some(3))),
        vec![own(), Err(TantivyError::FieldNotStored { field_id: 3 })]
    );
}

#[test]
fn translation_reports_what_the_coders_report() {
    let source = small_store(DocStoreVersion::V3, &["a"]);
    let mut writer = StoreWriter::new(Compressor::Lz4, 64);
    writer.stack_with_remap(source, BlockFieldRemap::from_pairs(vec![(0, 1)])).unwrap();
    let mut store = open(writer.close().unwrap(), 10);
    let schema = text_schema(2, None);
    let broken = TantivyError::IoError(StoreError::UnexpectedEof);
    let no_fields = |_: Vec<u8>, version: DocStoreVersion| {
        assert_eq!(version, DocStoreVersion::V3);
        Err(broken)
    };
    assert_eq!(
        store.iter_doc_bytes_translated(&schema, None, no_fields, encode_fields),
        vec![Err(broken)]
    );
    let no_bytes = |fields: Vec<(u32, String)>| {
        assert_eq!(fields, vec![(1, "a".to_string()), (1, "x".to_string())]);
        Err(TantivyError::WriteFailed)
    };
    assert_eq!(
        store.iter_doc_bytes_translated(&schema, None, decode_fields, no_bytes),
        vec![Err(TantivyError::WriteFailed)]
    );
}

#[test]
fn stacking_into_an_old_format_drops_the_trailers() {
    let source = small_store(DocStoreVersion::V3, &["a", "b", "c"]);
    let blocks = source.block_checkpoints().len();
    let size = source.block_data().len();
    let mut writer = StoreWriter::new_with_version(Compressor::Lz4, 64, DocStoreVersion::V2);
    writer.stack(source).unwrap();
    let file = writer.close().unwrap();
    assert_eq!(file.data.len(), size - 4 * blocks);
    let mut store = open(file, 10);
    assert_eq!(store.doc_store_version(), DocStoreVersion::V2);
    assert!(!store.has_non_identity_remap());
    assert_eq!(
        get_fields(&mut store, 2),
        vec![(0, "c".to_string()), (1, "x".to_string())]
    );
}

#[test]
fn stacking_rejects_what_it_cannot_copy() {
    let mut writer = StoreWriter::new(Compressor::Lz4, 64);
    let error = writer.stack(small_store(DocStoreVersion::V1, &["a"])).unwrap_err();
    assert_eq!(error, StoreError::SourceTooOld { number: 1 });
    assert_eq!(error.kind(), ErrorKind::InvalidInput);
    assert_eq!(
        writer.stack_with_remap(small_store(DocStoreVersion::V1, &["a"]), BlockFieldRemap::new()),
        Err(StoreError::SourceTooOld { number: 1 })
    );
    assert!(writer.close().unwrap().checkpoints.is_empty());

    let mut old = StoreWriter::new_with_version(Compressor::Lz4, 64, DocStoreVersion::V2);
    assert_eq!(
        old.stack_with_remap(small_store(DocStoreVersion::V3, &["a"]), BlockFieldRemap::new()),
        Err(StoreError::TargetTooOld { number: 2 })
    );
}

#[test]
fn identity_remaps_need_no_translation() {
    let source = small_store(DocStoreVersion::V3, &["a"]);
    let mut writer = StoreWriter::new(Compressor::Lz4, 64);
    writer.stack_with_remap(source, BlockFieldRemap::from_pairs(vec![(0, 0), (1, 1)])).unwrap();
    let mut store = open(writer.close().unwrap(), 10);
    assert!(!store.has_non_identity_remap());
    // The schema has no field at all, but nothing is renamed.
    assert_eq!(
        store.iter_doc_bytes_translated(
            &text_schema(0, None),
            None,
            decode_fields,
            encode_fields
        ),
        vec![Ok(encode(&[(0, "a"), (1, "x")]))]
    );
}

#[test]
fn renamed_fields_have_to_be_stored_fields() {
    let mut builder = Schema::builder();
    builder.add_text_field("title", TextOptions::text().set_stored());
    builder.add_plain_field(
        "rank",
        PlainType::U64(NumericOptions {
            indexed: true,
            fieldnorms: false,
            stored: false,
            fast: false,
            coerce: false,
        }),
    );
    let schema = builder.build();
    let remap = BlockFieldRemap::from_pairs(vec![(7, 0), (8, 1)]);
    assert_eq!(
        translate_fields(vec![(7, 'a'), (0, 'b')], &remap, &schema),
        Ok(vec![(0, 'a'), (0, 'b')])
    );
    assert_eq!(
        translate_fields(vec![(7, 'a'), (8, 'b')], &remap, &schema),
        Err(TantivyError::FieldNotStored { field_id: 1 })
    );
    assert_eq!(
        translate_fields(vec![(9, 'a')], &remap, &schema),
        Err(TantivyError::FieldOutOfRange { field_id: 9 })
    );
}

#[test]
fn alive_bit_sets_know_deleted_documents() {
    let alive = AliveBitSet::from_deleted_docs(&[1, 3], 5);
    assert_eq!(alive.max_doc(), 5);
    let deleted: Vec<u32> = (0..5).filter(|doc| alive.is_deleted(*doc)).collect();
    assert_eq!(deleted, vec![1, 3]);
    assert!(alive.is_alive(4));
}

#[test]
fn decompressors_follow_their_compressor() {
    assert_eq!(Compressor::default(), Compressor::Lz4);
    assert_eq!(Decompressor::from(Compressor::Lz4), Decompressor::Lz4);
    assert_eq!(Decompressor::from(Compressor::Uncompressed), Decompressor::Uncompressed);
    assert_eq!(
        Decompressor::Lz4.decompress(&[1, 2]),
        Err(StoreError::Decompression)
    );
}

#[test]
fn payloads_with_uncountable_lengths_are_refused() {
    // One byte of data is announced, and a length of literals that four bytes cannot hold.
    let mut payload = vec![1, 0, 0, 0, 0xf0];
    payload.resize(5 + 16_843_010, 0xff);
    payload.push(0);
    assert_eq!(Decompressor::Lz4.decompress(&payload), Err(StoreError::Decompression));
    // A shorter run is counted, and does not fit the data.
    payload.drain(5..5 + 16_000_000);
    assert_eq!(Decompressor::Lz4.decompress(&payload), Err(StoreError::Decompression));
    // The same behind a match.
    let mut payload = vec![9, 0, 0, 0, 0x1f, 7, 1, 0];
    payload.resize(8 + 16_843_010, 0xff);
    assert_eq!(Decompressor::Lz4.decompress(&payload), Err(StoreError::Decompression));
}

#[test]
fn long_literals_are_no_lengths() {
    // Literals of 255 only, more of them than a length could have bytes.
    let len: usize = 17_000_000;
    let mut payload = (len as u32).to_le_bytes().to_vec();
    payload.push(0xf0);
    payload.resize(5 + (len - 15) / 255, 0xff);
    payload.push(((len - 15) % 255) as u8);
    payload.resize(payload.len() + len, 0xff);
    assert_eq!(Decompressor::Lz4.decompress(&payload), Ok(vec![0xff; len]));
}

#[test]
fn long_blocks_are_compressed() {
    for data in [vec![0xff; 40_000_000], (0..40_000_000u32).map(|i| (i * i >> 7) as u8).collect()] {
        let mut compressed = vec![9, 9];
        Compressor::Lz4.compress_into(&data, &mut compressed);
        assert_eq!(Decompressor::Lz4.decompress(&compressed), Ok(data));
    }
    assert!(Compressor::Lz4.fits(300_000));
    assert!(!Compressor::Lz4.fits(usize::MAX));
    assert!(Compressor::Uncompressed.fits(usize::MAX));
}

#[test]
fn blocks_without_payload_are_opened_and_stacked() {
    let mut compressor = BlockCompressor::new(Compressor::Uncompressed);
    compressor.compress_block_and_write(b"", 1).unwrap();
    // One document, its position and its number.
    compressor.compress_block_and_write(b"abc\0\0\0\0\x01\0\0\0", 1).unwrap();
    let file = compressor.close();
    assert!(file.is_ordered());
    assert!(!file.is_sound());
    let mut store = StoreReader::open(file, 10);
    assert!(store.get_checked(0).is_none());
    assert_eq!(store.get_document_bytes_checked(1), Some(Ok(b"abc".to_vec())));
    // Without the trailers, the first block starts where the second one does.
    let mut writer =
        StoreWriter::new_with_version(Compressor::Uncompressed, 64, DocStoreVersion::V2);
    writer.stack(store).unwrap();
    let file = writer.close().unwrap();
    assert!(file.is_ordered());
    assert_eq!(file.checkpoints[0].byte_start, file.checkpoints[1].byte_start);
    let mut store = StoreReader::open(file, 10);
    assert!(store.get_checked(0).is_none());
    assert!(store.get_checked(1).is_none());
    assert!(store.get_checked(2).unwrap().is_err());
}

#[test]
fn documents_beyond_the_list_need_no_list() {
    // Nine documents, says the block, which is too short for a list of them.
    assert_eq!(block_read_index(b"\x09\0\0\0", 10), Err(TantivyError::WrongBlock));
}

#[test]
fn old_sources_are_refused_before_anything_is_counted() {
    let mut file = StoreWriter::new_with_version(Compressor::Uncompressed, 64, DocStoreVersion::V1)
        .close()
        .unwrap();
    file.data = vec![0; 8];
    file.checkpoints =
        vec![Checkpoint { doc_start: 0, doc_end: u32::MAX, byte_start: 0, byte_end: 8 }];
    let mut writer = StoreWriter::new(Compressor::Uncompressed, 64);
    writer.store_bytes(b"x").unwrap();
    assert_eq!(writer.stack(open(file, 1)), Err(StoreError::SourceTooOld { number: 1 }));
    assert_eq!(writer.close().unwrap().checkpoints.len(), 1);
}

#[test]
fn stacked_stores_add_up() {
    let mut writer = StoreWriter::new(Compressor::Lz4, 64);
    writer.store_bytes(&encode(&[(0, "first"), (1, "x")])).unwrap();
    writer.stack(small_store(DocStoreVersion::V2, &["a", "b"])).unwrap();
    // Too old a source changes nothing, but the pending documents are written.
    writer.store_bytes(&encode(&[(0, "second"), (1, "x")])).unwrap();
    assert!(writer.stack(small_store(DocStoreVersion::V1, &["c"])).is_err());
    let file = writer.close().unwrap();
    assert_eq!(file.checkpoints.last().unwrap().doc_end, 4);
    let mut store = open(file, 10);
    let texts: Vec<String> = (0..4).map(|doc| get_fields(&mut store, doc)[0].1.clone()).collect();
    assert_eq!(texts, vec!["first", "a", "b", "second"]);
}

#[test]
fn listings_agree_with_single_reads() {
    let mut file = write_lorem_ipsum_store(100, Compressor::Lz4, BLOCK_SIZE);
    let second = file.checkpoints[1];
    // The trailer of the second block is longer than the block.
    file.data[second.byte_end - 1] = 0xff;
    let mut store = open(file, 10);
    let deleted = [0, second.doc_start];
    let alive = AliveBitSet::from_deleted_docs(&deleted, 100);
    let listed = store.iter_raw(Some(&alive));
    assert_eq!(listed.len(), 98);
    let mut position = 0;
    for doc in 0..100 {
        if deleted.contains(&doc) {
            continue;
        }
        let single = store.get_document_bytes(doc);
        if (second.doc_start..second.doc_end).contains(&doc) {
            assert!(matches!(single, Err(TantivyError::IoError(_))));
            assert_eq!(listed[position], Err(TantivyError::BlockRead(ErrorKind::InvalidData)));
        } else {
            assert!(single.is_ok());
            assert_eq!(listed[position], single);
        }
        position += 1;
    }
}
