use docstore::error::{LockError, LockPurpose, OpenReadError, TantivyError};
use docstore::index::directory::DirectoryState;
use docstore::index::writer::{MEMORY_BUDGET_NUM_BYTES_MAX, MEMORY_BUDGET_NUM_BYTES_MIN};
use docstore::index::{
    DeleteMeta, Directory, Executor, Index, IndexBuilder, IndexMeta, IndexSettings, IndexWriter,
    IndexWriterOptions, MetaContent, RamDirectory, Refused, ReloadPolicy, SegmentComponent,
    SegmentFile, SegmentId, SegmentMeta, TextAnalyzer, TokenizerManager,
};
use docstore::schema::{
    Field, JsonObjectOptions, NumericOptions, PlainType, Schema, SchemaBuilder, TextOptions,
};
use docstore::store::{Compressor, StoreFile, StoreReader, StoreWriter};

fn numeric() -> NumericOptions {
    NumericOptions { indexed: true, fieldnorms: false, stored: true, fast: false, coerce: false }
}

fn add_v1_fields(sb: &mut SchemaBuilder) {
    sb.add_text_field("title", TextOptions::text().set_stored());
    sb.add_plain_field("price", PlainType::F64(numeric()));
}

fn build_schema_v1() -> Schema {
    let mut sb = Schema::builder();
    add_v1_fields(&mut sb);
    sb.build()
}

fn build_schema_v2_add_color() -> Schema {
    let mut sb = Schema::builder();
    add_v1_fields(&mut sb);
    sb.add_text_field("color", TextOptions::string().set_stored());
    sb.build()
}

/// Why an index was not created or opened.
fn refusal<T, D: Directory>(result: Result<T, Refused<D>>) -> Option<TantivyError> {
    result.err().map(|refused| refused.error)
}

fn segment_id(uuid: u128) -> SegmentId {
    SegmentId { uuid }
}

/// A segment of the test: its stored documents, each a list of field ids and texts.
struct TestSegment {
    file: StoreFile,
}

fn write_segment(docs: &[Vec<(Field, String)>]) -> TestSegment {
    let mut writer = StoreWriter::new(Compressor::Lz4, 1024);
    for doc in docs {
        let mut bytes = Vec::new();
        for (field, text) in doc {
            bytes.extend_from_slice(&field.field_id().to_le_bytes());
            bytes.extend_from_slice(&(text.len() as u32).to_le_bytes());
            bytes.extend_from_slice(text.as_bytes());
        }
        writer.store_bytes(&bytes).unwrap();
    }
    TestSegment { file: writer.close().unwrap() }
}

fn read_u32(bytes: &[u8]) -> u32 {
    let mut word = [0u8; 4];
    word.copy_from_slice(&bytes[..4]);
    u32::from_le_bytes(word)
}

/// The titles of the documents that have `word` in `field`.
fn search(segments: &[TestSegment], field: Field, word: &str) -> Vec<String> {
    let mut found = Vec::new();
    for segment in segments {
        let mut reader = StoreReader::open(segment.file.clone(), 10);
        for document in reader.iter_raw(None) {
            let bytes = document.unwrap();
            let mut rest: &[u8] = &bytes;
            let mut title = String::new();
            let mut matches = false;
            while !rest.is_empty() {
                let id = read_u32(rest);
                let len = read_u32(&rest[4..]) as usize;
                let text = String::from_utf8(rest[8..8 + len].to_vec()).unwrap();
                rest = &rest[8 + len..];
                if id == field.field_id() && text.split(' ').any(|part| part == word) {
                    matches = true;
                }
                if id == 0 {
                    title = text;
                }
            }
            if matches {
                found.push(title);
            }
        }
    }
    found
}

#[test]
fn extends_with_new_field_at_end() {
    let mut index = Index::create_in_ram(build_schema_v1());
    let title_v1 = index.schema().get_field("title").unwrap();
    let price_v1 = index.schema().get_field("price").unwrap();

    // Write some docs under v1.
    let mut segments = Vec::new();
    {
        let mut writer = index.writer_for_tests().unwrap();
        writer.add_document().unwrap();
        writer.add_document().unwrap();
        segments.push(write_segment(&[
            vec![
                (title_v1, "wireless headphones".to_string()),
                (price_v1, format!("{}", 79.99_f64)),
            ],
            vec![(title_v1, "usb cable".to_string()), (price_v1, format!("{}", 12.0_f64))],
        ]));
        writer.commit(index.directory_mut(), segment_id(1)).unwrap();
        writer.close(index.directory_mut());
    }

    // Extend the schema in place.
    let v2 = build_schema_v2_add_color();
    index.extend_schema(v2.clone()).unwrap();
    assert_eq!(index.schema().num_fields(), 3);

    // Old segments still query correctly under the extended schema.
    let title = index.schema().get_field("title").unwrap();
    let color = index.schema().get_field("color").unwrap();
    let top = search(&segments, title, "wireless");
    assert_eq!(top.len(), 1, "old segment still queryable on existing field");

    // New field returns zero hits from old segment (sparse).
    let top = search(&segments, color, "red");
    assert!(top.is_empty(), "old segment has no values for the new field");

    // New writes can use the extended schema.
    {
        let mut writer = index.writer_for_tests().unwrap();
        assert_eq!(writer.schema().num_fields(), 3);
        writer.add_document().unwrap();
        segments.push(write_segment(&[vec![
            (title, "bluetooth speaker".to_string()),
            (index.schema().get_field("price").unwrap(), format!("{}", 49.5_f64)),
            (color, "red".to_string()),
        ]]));
        writer.commit(index.directory_mut(), segment_id(2)).unwrap();
        writer.close(index.directory_mut());
    }
    assert_eq!(index.reader().unwrap().num_docs(), 3);
    assert_eq!(search(&segments, color, "red").len(), 1);
}

#[test]
fn rejects_removing_a_field() {
    let mut index = Index::create_in_ram(build_schema_v2_add_color());
    let err = index.extend_schema(build_schema_v1()).unwrap_err();
    let msg = err.message();
    assert!(
        msg.contains("fewer fields") || msg.contains("removing"),
        "expected shrink-rejection error, got: {msg}"
    );
    assert_eq!(err, TantivyError::SchemaFewerFields { proposed: 2, current: 3 });
}

#[test]
fn rejects_reordering_an_existing_field() {
    let mut index = Index::create_in_ram(build_schema_v1());
    // Swap title and price.
    let mut sb = Schema::builder();
    sb.add_plain_field("price", PlainType::F64(numeric()));
    sb.add_text_field("title", TextOptions::text().set_stored());
    let err = index.extend_schema(sb.build()).unwrap_err();
    let msg = err.message();
    assert!(
        msg.contains("modified") || msg.contains("changed") || msg.contains("position"),
        "expected reorder-rejection error, got: {msg}"
    );
    assert_eq!(err, TantivyError::SchemaFieldModified { position: 0 });
}

#[test]
fn rejects_changing_an_existing_field_options() {
    let mut index = Index::create_in_ram(build_schema_v1());
    let mut sb = Schema::builder();
    sb.add_text_field("title", TextOptions::string().set_stored());
    sb.add_plain_field("price", PlainType::F64(numeric()));
    let err = index.extend_schema(sb.build()).unwrap_err();
    let msg = err.message();
    assert!(
        msg.contains("modified") || msg.contains("changed") || msg.contains("options"),
        "expected option-change rejection error, got: {msg}"
    );
    // Nothing has changed, neither here nor in the directory.
    assert!(index.schema().same(&build_schema_v1()));
    assert!(index.load_metas().unwrap().schema.same(&build_schema_v1()));
}

fn text_docs(title: Field, prefix: &str, count: usize) -> Vec<Vec<(Field, String)>> {
    (0..count).map(|i| vec![(title, format!("{prefix} {i}"))]).collect()
}

#[test]
fn index_writer_extend_schema_mid_batch() {
    let mut index = Index::create_in_ram(build_schema_v1());
    let title_v1 = index.schema().get_field("title").unwrap();
    let mut writer: IndexWriter = index.writer_for_tests().unwrap();
    for _ in 0..50 {
        writer.add_document().unwrap();
    }
    let mut segments = vec![write_segment(&text_docs(title_v1, "old doc", 50))];

    // No explicit commit: extending the schema flushes the documents itself.
    let new_schema = writer
        .extend_schema(index.directory_mut(), build_schema_v2_add_color(), segment_id(1))
        .unwrap();
    let title = new_schema.get_field("title").unwrap();
    let color = new_schema.get_field("color").unwrap();
    let mut docs = text_docs(title, "new doc", 30);
    for (i, doc) in docs.iter_mut().enumerate() {
        doc.push((color, if i % 2 == 0 { "red" } else { "blue" }.to_string()));
        writer.add_document().unwrap();
    }
    segments.push(write_segment(&docs));
    writer.commit(index.directory_mut(), segment_id(2)).unwrap();
    writer.close(index.directory_mut());

    // The index itself still has the old schema, the directory has the new one.
    assert_eq!(index.schema().num_fields(), 2);
    let reopened = Index::open(index.into_directory()).ok().unwrap();
    assert_eq!(reopened.reader().unwrap().num_docs(), 80);
    assert_eq!(search(&segments, title, "old").len(), 50);
    assert_eq!(
        search(&segments, color, "red").len(),
        15,
        "new field 'color=red' matches half the new docs"
    );
    for color_value in ["red", "blue", "green"] {
        for title_text in search(&segments, color, color_value) {
            assert!(
                !title_text.starts_with("old "),
                "old doc should not match color={color_value}"
            );
        }
    }
}

#[test]
fn index_writer_extend_schema_persists_to_meta_json() {
    let directory = RamDirectory::create();
    let mut index =
        Index::create(directory, build_schema_v1(), IndexSettings::default()).ok().unwrap();
    let title_v1 = index.schema().get_field("title").unwrap();
    let mut writer: IndexWriter = index.writer_for_tests().unwrap();
    for _ in 0..30 {
        writer.add_document().unwrap();
    }
    let mut segments = vec![write_segment(&text_docs(title_v1, "old doc", 30))];
    let new_schema = writer
        .extend_schema(index.directory_mut(), build_schema_v2_add_color(), segment_id(1))
        .unwrap();
    let color = new_schema.get_field("color").unwrap();
    let mut docs = text_docs(new_schema.get_field("title").unwrap(), "new doc", 10);
    for doc in docs.iter_mut() {
        doc.push((color, "red".to_string()));
        writer.add_document().unwrap();
    }
    segments.push(write_segment(&docs));
    writer.commit(index.directory_mut(), segment_id(2)).unwrap();
    writer.close(index.directory_mut());

    // Reopen the index from the directory: what it describes is the only source of truth here.
    let reopened = Index::open(index.into_directory()).ok().unwrap();
    let schema_on_disk = reopened.schema();
    assert!(
        schema_on_disk.get_field("color").is_ok(),
        "extend_schema-added field must survive in meta.json after commit"
    );
    assert_eq!(
        schema_on_disk.num_fields(),
        3,
        "reopened schema should have all 3 fields (title, price, color)"
    );
    assert_eq!(reopened.reader().unwrap().num_docs(), 40);
    let color = schema_on_disk.get_field("color").unwrap();
    let top = search(&segments, color, "red");
    assert_eq!(top.len(), 10, "new field is queryable after reopen");
}

#[test]
fn index_writer_extend_schema_survives_merge() {
    let directory = RamDirectory::create();
    let mut index =
        Index::create(directory, build_schema_v1(), IndexSettings::default()).ok().unwrap();
    let title_v1 = index.schema().get_field("title").unwrap();
    let mut writer: IndexWriter = index.writer_for_tests().unwrap();
    let mut all_docs = text_docs(title_v1, "old", 20);
    for _ in 0..20 {
        writer.add_document().unwrap();
    }
    let new_schema = writer
        .extend_schema(index.directory_mut(), build_schema_v2_add_color(), segment_id(1))
        .unwrap();
    let new_title = new_schema.get_field("title").unwrap();
    let color = new_schema.get_field("color").unwrap();
    for (i, mut doc) in text_docs(new_title, "new", 15).into_iter().enumerate() {
        doc.push((color, if i % 3 == 0 { "red" } else { "blue" }.to_string()));
        writer.add_document().unwrap();
        all_docs.push(doc);
    }
    writer.commit(index.directory_mut(), segment_id(2)).unwrap();
    for mut doc in text_docs(new_title, "third", 15) {
        doc.push((color, "green".to_string()));
        writer.add_document().unwrap();
        all_docs.push(doc);
    }
    writer.commit(index.directory_mut(), segment_id(3)).unwrap();

    // Run a merge over every committed segment.
    let segment_ids = index.searchable_segment_ids().unwrap();
    assert!(segment_ids.len() >= 2, "expected at least 2 segments to merge");
    let merged = SegmentMeta { segment_id: segment_id(4), max_doc: 50, deletes: None };
    writer.end_merge(index.directory_mut(), &segment_ids, merged).unwrap();
    let segments = vec![write_segment(&all_docs)];
    writer.close(index.directory_mut());

    let reopened = Index::open(index.into_directory()).ok().unwrap();
    let on_disk_schema = reopened.schema();
    assert!(
        on_disk_schema.get_field("color").is_ok(),
        "the extended `color` field must persist through commit + merge"
    );
    assert_eq!(on_disk_schema.num_fields(), 3);
    let reader = reopened.reader().unwrap();
    assert_eq!(reader.segments.len(), 1);
    assert_eq!(reader.num_docs(), 50);
    let color = on_disk_schema.get_field("color").unwrap();
    for (color_value, expected_count) in [("green", 15usize), ("blue", 10), ("red", 5)] {
        assert_eq!(
            search(&segments, color, color_value).len(),
            expected_count,
            "color={color_value} should match {expected_count} docs after merge"
        );
    }
}

#[test]
fn only_one_writer_at_a_time() {
    let mut index = Index::create_in_ram(build_schema_v1());
    let writer = index.writer_for_tests().unwrap();
    let busy = TantivyError::LockFailure(LockError::LockBusy, LockPurpose::Write);
    assert_eq!(index.writer_for_tests().err(), Some(busy));
    assert!(busy.message().contains("already an `IndexWriter` working on this `Directory`"));
    let busy = TantivyError::LockFailure(LockError::LockBusy, LockPurpose::ExtendSchema);
    assert_eq!(index.extend_schema(build_schema_v2_add_color()), Err(busy));
    assert!(busy.message().starts_with("extend_schema: could not acquire INDEX_WRITER_LOCK"));
    assert_eq!(index.load_metas().unwrap().schema.num_fields(), 2);
    writer.close(index.directory_mut());
    index.extend_schema(build_schema_v2_add_color()).unwrap();
    assert!(index.writer_for_tests().is_ok());
}

#[test]
fn writer_budgets_are_checked() {
    let mut index = Index::create_in_ram(build_schema_v1());
    let too_small = MEMORY_BUDGET_NUM_BYTES_MIN - 1;
    assert_eq!(
        index.writer_with_num_threads(1, too_small).err(),
        Some(TantivyError::MemoryBudgetOutOfRange { per_thread: too_small })
    );
    assert_eq!(
        index
            .writer_with_options(IndexWriterOptions {
                num_worker_threads: 0,
                memory_budget_per_thread: MEMORY_BUDGET_NUM_BYTES_MIN,
            })
            .err(),
        Some(TantivyError::NoWorkerThread)
    );
    assert_eq!(
        index.writer_with_num_threads(1, MEMORY_BUDGET_NUM_BYTES_MAX).err(),
        Some(TantivyError::MemoryBudgetOutOfRange { per_thread: MEMORY_BUDGET_NUM_BYTES_MAX })
    );
    // The lock is free again after each failure. 50 MB are enough for three threads.
    assert!(index.writer(50_000_000, 16).is_ok());
    let mut other = Index::create_in_ram(build_schema_v1());
    assert_eq!(
        other.writer(1_000, 16).err(),
        Some(TantivyError::MemoryBudgetOutOfRange { per_thread: 1_000 })
    );
}

#[test]
fn indexes_are_created_once_and_opened_later() {
    let directory = RamDirectory::create();
    assert_eq!(Index::index_exists(&directory), Ok(false));
    assert_eq!(
        refusal(Index::open(directory)),
        Some(TantivyError::OpenRead(OpenReadError::FileDoesNotExist))
    );

    let index = Index::open_or_create(RamDirectory::create(), build_schema_v1()).ok().unwrap();
    let directory = index.into_directory();
    assert_eq!(Index::index_exists(&directory), Ok(true));
    let index = Index::open_or_create(directory, build_schema_v1()).ok().unwrap();
    assert_eq!(index.settings().docstore_blocksize, 16_384);
    let refused =
        Index::open_or_create(index.into_directory(), build_schema_v2_add_color()).err().unwrap();
    assert_eq!(refused.error, TantivyError::SchemaMismatch);
    // The index is as it was.
    let index = Index::open(refused.directory).ok().unwrap();
    assert!(index.schema().same(&build_schema_v1()));
}

#[test]
fn builders_need_a_schema() {
    assert_eq!(Index::builder().create_in_ram().err(), Some(TantivyError::NoSchema));
    let directory = Index::create_in_ram(build_schema_v1()).into_directory();
    assert_eq!(
        refusal(IndexBuilder::default().open_or_create(directory)),
        Some(TantivyError::BuilderMissingSchema)
    );
    let settings = IndexSettings { docstore_blocksize: 100_000, ..IndexSettings::default() };
    let index = Index::builder().schema(build_schema_v1()).settings(settings).create_in_ram();
    let mut index = index.ok().unwrap();
    assert_eq!(index.load_metas().unwrap().index_settings, settings);
    let writer = Index::builder().schema(build_schema_v1()).single_segment_index_writer(
        RamDirectory::create(),
        15_000_000,
        segment_id(1),
    );
    assert!(writer.is_ok());
}

/// A directory whose file is broken, or that does not answer at all.
struct BrokenDirectory {
    content: u8,
}

impl Directory for BrokenDirectory {
    // Only proofs look at these two.
    fn state(&self) -> DirectoryState {
        unreachable!()
    }
    fn reliable(&self) -> bool {
        unreachable!()
    }
    fn meta_exists(&self) -> Result<bool, OpenReadError> {
        if self.content == 3 {
            return Err(OpenReadError::IoError);
        }
        Ok(true)
    }
    fn read_meta(&self) -> Result<MetaContent, OpenReadError> {
        match self.content {
            0 => Ok(MetaContent::NotUtf8),
            1 => Ok(MetaContent::Undecodable),
            _ => Err(OpenReadError::IoError),
        }
    }
    fn write_meta(&mut self, _meta: &IndexMeta) -> Result<(), ()> {
        Err(())
    }
    fn sync_directory(&mut self) -> Result<(), ()> {
        Ok(())
    }
    fn acquire_lock(&mut self) -> Result<(), LockError> {
        Err(LockError::IoError)
    }
    fn release_lock(&mut self) {}
    fn erase_segments(&mut self) -> Result<(), ()> {
        Err(())
    }
    fn list_managed_files(&self) -> Result<Vec<SegmentFile>, OpenReadError> {
        Err(OpenReadError::IoError)
    }
    fn validate_checksum(&self, _file: SegmentFile) -> Result<bool, OpenReadError> {
        Ok(true)
    }
}

#[test]
fn broken_directories_are_reported() {
    let open = |content: u8| refusal(Index::open(BrokenDirectory { content }));
    assert_eq!(open(0), Some(TantivyError::MetaNotUtf8));
    assert_eq!(open(1), Some(TantivyError::MetaUndecodable));
    assert_eq!(open(2), Some(TantivyError::OpenRead(OpenReadError::IoError)));
    assert_eq!(
        refusal(Index::create(
            BrokenDirectory { content: 0 },
            build_schema_v1(),
            IndexSettings::default()
        )),
        Some(TantivyError::WriteFailed)
    );
}

#[test]
fn tokenizers_are_found_by_field() {
    let mut sb = Schema::builder();
    let title = sb.add_text_field("title", TextOptions::text());
    let plain = sb.add_text_field("plain", TextOptions::new());
    let price = sb.add_plain_field("price", PlainType::F64(numeric()));
    let nested = sb.add_json_field(
        "nested",
        JsonObjectOptions {
            indexing: TextOptions::string().indexing,
            stored: false,
            fast: false,
            expand_dots_enabled: false,
        },
    );
    let mut index = Index::create_in_ram(sb.build());
    assert_eq!(index.tokenizer_for_field(title), Ok(TextAnalyzer { number: 1 }));
    assert_eq!(index.tokenizer_for_field(nested), Ok(TextAnalyzer { number: 0 }));
    assert_eq!(
        index.tokenizer_for_field(price),
        Err(TantivyError::NotATextField { field_id: 2 })
    );
    assert_eq!(
        index.tokenizer_for_field(plain),
        Err(TantivyError::NoIndexingOptions { field_id: 1 })
    );
    let mut tokenizers = TokenizerManager::new();
    tokenizers.register("raw", TextAnalyzer { number: 5 });
    tokenizers.register("raw", TextAnalyzer { number: 6 });
    index.set_tokenizers(tokenizers);
    assert_eq!(
        index.tokenizer_for_field(title),
        Err(TantivyError::NoTokenizer { field_id: 0 })
    );
    assert_eq!(index.tokenizer_for_field(nested), Ok(TextAnalyzer { number: 6 }));
    assert!(index.fast_field_tokenizer().get("default").is_some());
    assert_eq!(index.tokenizers().get("default"), None);
}

#[test]
fn damaged_files_of_active_segments_are_found() {
    let mut index = Index::create_in_ram(build_schema_v1());
    let mut writer = index.writer_for_tests().unwrap();
    writer.add_document().unwrap();
    writer.commit(index.directory_mut(), segment_id(1)).unwrap();
    let file = |uuid: u128, component: SegmentComponent| SegmentFile {
        segment_id: segment_id(uuid),
        component,
        opstamp: 0,
    };
    let directory = index.directory_mut();
    directory.add_file(file(1, SegmentComponent::Store), false);
    directory.add_file(file(1, SegmentComponent::Store), false);
    directory.add_file(file(1, SegmentComponent::Terms), true);
    // Not a segment of the index.
    directory.add_file(file(2, SegmentComponent::Store), false);
    assert_eq!(index.validate_checksum(), Ok(vec![file(1, SegmentComponent::Store)]));
}

#[test]
fn segments_have_one_file_per_component() {
    let meta = SegmentMeta {
        segment_id: segment_id(3),
        max_doc: 9,
        deletes: Some(DeleteMeta { num_deleted_docs: 2, opstamp: 77 }),
    };
    let files = meta.list_files();
    assert_eq!(files.len(), 8);
    let deletes = files.iter().find(|file| file.component == SegmentComponent::Delete).unwrap();
    assert_eq!(deletes.opstamp, 77);
    assert!(files.iter().all(|file| file.segment_id == segment_id(3)));
}

#[test]
fn segments_of_an_index_carry_its_schema() {
    let mut index = Index::create_in_ram(build_schema_v1());
    let segment = index.new_segment(segment_id(8));
    assert_eq!(segment.meta.max_doc, 0);
    assert_eq!(segment.schema.num_fields(), 2);
    assert_eq!(index.list_all_segment_metas(), vec![segment.meta]);
    let meta = index.new_segment_meta(segment_id(9), 12);
    assert_eq!(index.list_all_segment_metas(), vec![segment.meta, meta]);
    index.release_segment_meta(segment.meta);
    index.release_segment_meta(segment.meta);
    assert_eq!(index.list_all_segment_metas(), vec![meta]);
    assert!(index.searchable_segments().unwrap().is_empty());
    let reader = index.reader_builder().reload_policy(ReloadPolicy::Manual).open_reader().unwrap();
    assert_eq!(reader.reload_policy, ReloadPolicy::Manual);
}

#[test]
fn configuration_can_be_changed() {
    let mut index = Index::create_in_ram(build_schema_v1());
    assert_eq!(*index.search_executor(), Executor::SingleThread);
    assert_eq!(
        index.set_multithread_executor(4, false),
        Err(TantivyError::ThreadPoolNotStarted)
    );
    assert_eq!(*index.search_executor(), Executor::SingleThread);
    index.set_multithread_executor(4, true).unwrap();
    assert_eq!(*index.search_executor(), Executor::ThreadPool { num_threads: 4 });
    index.set_default_multithread_executor(12, true).unwrap();
    assert_eq!(*index.search_executor(), Executor::ThreadPool { num_threads: 12 });
    index.set_executor(Executor::SingleThread);
    assert_eq!(*index.search_executor(), Executor::SingleThread);
    index.settings_mut().docstore_compression = Compressor::Uncompressed;
    assert_eq!(index.settings().docstore_compression, Compressor::Uncompressed);
    index.set_schema_in_memory(build_schema_v2_add_color());
    assert_eq!(index.schema().num_fields(), 3);
    assert_eq!(index.load_metas().unwrap().schema.num_fields(), 2);
}

#[test]
fn merges_need_their_segments() {
    let mut index = Index::create_in_ram(build_schema_v1());
    let mut writer = index.writer_for_tests().unwrap();
    writer.add_document().unwrap();
    assert_eq!(writer.commit(index.directory_mut(), segment_id(1)), Ok(1));
    let merged = SegmentMeta { segment_id: segment_id(4), max_doc: 1, deletes: None };
    assert_eq!(
        writer.end_merge(index.directory_mut(), &[segment_id(1), segment_id(2)], merged),
        Err(TantivyError::SegmentNotFound)
    );
    assert_eq!(index.searchable_segment_ids(), Ok(vec![segment_id(1)]));
    // A commit without documents adds no segment.
    assert_eq!(writer.commit(index.directory_mut(), segment_id(5)), Ok(2));
    assert_eq!(index.searchable_segment_metas().unwrap().len(), 1);
}

#[test]
fn fields_are_found_by_name() {
    let schema = build_schema_v2_add_color();
    assert_eq!(schema.get_field("color").unwrap().field_id(), 2);
    assert_eq!(schema.get_field("colour"), Err(TantivyError::FieldNotFound));
    let entry = schema.get_field_entry(Field::from_field_id(1));
    assert_eq!(entry.name, "price");
    assert!(entry.is_stored());
}

#[test]
fn extended_schemas_keep_field_ids() {
    let (short, long) = (build_schema_v1(), build_schema_v2_add_color());
    assert!(short.check_extension(&long).is_ok());
    assert!(short.check_extension(&short).is_ok());
    for name in ["title", "price"] {
        let field = short.get_field(name).unwrap();
        assert_eq!(long.get_field(name).unwrap(), field);
        assert!(long.get_field_entry(field).same(short.get_field_entry(field)));
    }
}

#[test]
fn refused_extensions_keep_the_pending_documents() {
    let mut index = Index::create_in_ram(build_schema_v2_add_color());
    let mut writer = index.writer_for_tests().unwrap();
    writer.add_document().unwrap();
    assert_eq!(
        writer.extend_schema(index.directory_mut(), build_schema_v1(), segment_id(1)).err(),
        Some(TantivyError::SchemaFewerFields { proposed: 2, current: 3 })
    );
    assert_eq!(index.reader().unwrap().num_docs(), 1);
    assert_eq!(index.load_metas().unwrap().schema.num_fields(), 3);
}

#[test]
fn new_indexes_do_not_replace_others() {
    let index = Index::create_new(RamDirectory::create(), build_schema_v1()).ok().unwrap();
    assert!(index.fast_field_tokenizer().get("default").is_some());
    let refused =
        Index::create_new(index.into_directory(), build_schema_v2_add_color()).err().unwrap();
    assert_eq!(refused.error, TantivyError::IndexAlreadyExists);
    assert_eq!(refused.error.message(), "Index already exists");
    assert_eq!(Index::open(refused.directory).ok().unwrap().schema().num_fields(), 2);
    // Without a schema, what is there is looked at first.
    let directory = Index::create_in_ram(build_schema_v1()).into_directory();
    assert_eq!(
        refusal(IndexBuilder::new().create_new(directory)),
        Some(TantivyError::IndexAlreadyExists)
    );
    assert_eq!(
        refusal(IndexBuilder::new().create_new(RamDirectory::create())),
        Some(TantivyError::NoSchema)
    );
}

#[test]
fn created_indexes_erase_what_was_there() {
    let mut index = Index::create_in_ram(build_schema_v1());
    let mut writer = index.writer_for_tests().unwrap();
    writer.add_document().unwrap();
    writer.commit(index.directory_mut(), segment_id(1)).unwrap();
    writer.close(index.directory_mut());
    let file = SegmentFile {
        segment_id: segment_id(1),
        component: SegmentComponent::Store,
        opstamp: 0,
    };
    index.directory_mut().add_file(file, false);
    assert_eq!(index.directory().list_managed_files(), Ok(vec![file]));
    let mut index = Index::create(
        index.into_directory(),
        build_schema_v2_add_color(),
        IndexSettings::default(),
    )
    .ok()
    .unwrap();
    assert_eq!(index.directory().list_managed_files(), Ok(vec![]));
    assert!(index.searchable_segment_ids().unwrap().is_empty());
    assert_eq!(index.load_metas().unwrap().schema.num_fields(), 3);
}

#[test]
fn builders_set_both_kinds_of_tokenizers() {
    let manager = |number: u64| {
        let mut tokenizers = TokenizerManager::new();
        tokenizers.register("own", TextAnalyzer { number });
        tokenizers
    };
    let builder = || {
        Index::builder()
            .schema(build_schema_v1())
            .tokenizers(manager(7))
            .fast_field_tokenizers(manager(8))
    };
    let mut index = builder().open_or_create(RamDirectory::create()).ok().unwrap();
    let mut writer = index.writer_for_tests().unwrap();
    writer.add_document().unwrap();
    writer.commit(index.directory_mut(), segment_id(1)).unwrap();
    let directory = index.into_directory();
    // The same holds of an index that is there already, whose segments are kept.
    let index = builder().open_or_create(directory).ok().unwrap();
    assert!(index.schema().same(&build_schema_v1()));
    assert_eq!(index.searchable_segment_ids(), Ok(vec![segment_id(1)]));
    assert_eq!(index.tokenizers().get("own"), Some(TextAnalyzer { number: 7 }));
    assert_eq!(index.fast_field_tokenizer().get("own"), Some(TextAnalyzer { number: 8 }));
    assert_eq!(index.fast_field_tokenizer().get("default"), None);
}

#[test]
fn writers_continue_where_the_last_commit_ended() {
    let mut index = Index::create_in_ram(build_schema_v1());
    let mut writer = index.writer_for_tests().unwrap();
    assert_eq!(writer.commit(index.directory_mut(), segment_id(1)), Ok(0));
    assert_eq!(writer.commit(index.directory_mut(), segment_id(1)), Ok(1));
    writer.close(index.directory_mut());
    let mut writer = index.writer_with_num_threads(1, 20_000_000).unwrap();
    assert_eq!(writer.commit(index.directory_mut(), segment_id(2)), Ok(1));
    assert_eq!(writer.commit(index.directory_mut(), segment_id(3)), Ok(2));
}

#[test]
fn broken_directories_are_left_alone() {
    // The lock cannot be taken, so nothing is written, whatever the schema.
    let mut index = Index::create_in_ram(build_schema_v1());
    let writer = index.writer_for_tests().unwrap();
    assert_eq!(
        index.extend_schema(build_schema_v1()),
        Err(TantivyError::LockFailure(LockError::LockBusy, LockPurpose::ExtendSchema))
    );
    writer.close(index.directory_mut());

    assert_eq!(
        refusal(Index::open_or_create(BrokenDirectory { content: 2 }, build_schema_v1())),
        Some(TantivyError::OpenRead(OpenReadError::IoError))
    );
    let refused =
        Index::open_or_create(BrokenDirectory { content: 1 }, build_schema_v1()).err().unwrap();
    assert_eq!(refused.error, TantivyError::MetaUndecodable);
    assert_eq!(refused.directory.content, 1);
}

#[test]
fn loaded_segments_are_in_use() {
    let mut index = Index::create_in_ram(build_schema_v1());
    let mut writer = index.writer_for_tests().unwrap();
    writer.add_document().unwrap();
    writer.commit(index.directory_mut(), segment_id(1)).unwrap();
    // A short look does not count.
    assert_eq!(index.searchable_segment_ids(), Ok(vec![segment_id(1)]));
    assert_eq!(index.reader().unwrap().num_docs(), 1);
    assert!(index.list_all_segment_metas().is_empty());
    let meta = index.load_metas().unwrap();
    assert_eq!(index.list_all_segment_metas(), meta.segments);
    let segments = index.searchable_segments().unwrap();
    assert_eq!(index.list_all_segment_metas().len(), 2);
    index.release_segment_meta(segments[0].meta);
    index.release_segment_meta(meta.segments[0]);
    assert!(index.list_all_segment_metas().is_empty());
}

#[test]
fn errors_of_a_directory_are_handed_on() {
    assert_eq!(Index::index_exists(&BrokenDirectory { content: 3 }), Err(OpenReadError::IoError));
    assert_eq!(
        refusal(Index::create_new(BrokenDirectory { content: 3 }, build_schema_v1())),
        Some(TantivyError::OpenRead(OpenReadError::IoError))
    );
}
