//! Creating, opening and changing indexes.

use vstd::prelude::*;

use crate::error::{LockPurpose, OpenReadError, TantivyError};
use crate::index::directory::{Directory, MetaContent, RamDirectory};
use crate::index::meta::{
    IndexMeta, IndexSettings, Segment, SegmentFile, SegmentId, SegmentMeta, SegmentMetaInventory,
};
use crate::index::reader::{IndexReader, IndexReaderBuilder};
use crate::index::tokenizer::{TextAnalyzer, TokenizerManager};
use crate::index::writer::{IndexWriter, IndexWriterOptions, SingleSegmentIndexWriter};
use crate::index::writer::{MAX_NUM_THREAD, MEMORY_BUDGET_NUM_BYTES_MIN};
use crate::schema::{Field, FieldType, FieldView, Schema, TextFieldIndexing};

verus! {

/// How searches are run.
#[derive(Clone, Copy, Debug, PartialEq, Eq, Structural)]
pub enum Executor {
    /// In the thread that asks.
    SingleThread,
    /// In a pool of threads.
    ThreadPool { num_threads: usize },
}

/// What reading the description of an index gives.
pub open spec fn loaded(meta: crate::index::directory::MetaFile) -> Result<
    crate::index::meta::MetaView,
    TantivyError,
> {
    match meta {
        crate::index::directory::MetaFile::Absent => Err(
            TantivyError::OpenRead(OpenReadError::FileDoesNotExist),
        ),
        crate::index::directory::MetaFile::NotUtf8 => Err(TantivyError::MetaNotUtf8),
        crate::index::directory::MetaFile::Undecodable => Err(TantivyError::MetaUndecodable),
        crate::index::directory::MetaFile::Valid(view) => Ok(view),
    }
}

/// `error` is one with which reading the description may fail for reasons of the directory.
pub open spec fn is_read_failure(
    state: crate::index::directory::DirectoryState,
    error: TantivyError,
) -> bool {
    error matches TantivyError::OpenRead(cause) && state.faults.read_meta.contains(cause)
}

/// `error` is one with which looking for the description may fail for reasons of the directory.
pub open spec fn is_search_failure(
    state: crate::index::directory::DirectoryState,
    error: TantivyError,
) -> bool {
    error matches TantivyError::OpenRead(cause) && state.faults.meta_exists.contains(cause)
}

/// Loading the description of an index fails with `error`: it is not there or broken, or it is a
/// matter of the directory.
pub open spec fn load_fails(
    state: crate::index::directory::DirectoryState,
    reliable: bool,
    error: TantivyError,
) -> bool {
    ||| loaded(state.meta) == Err::<crate::index::meta::MetaView, TantivyError>(error)
    ||| !reliable && is_read_failure(state, error)
}

/// Reads the description of an index.
pub(crate) fn load_metas<D: Directory>(directory: &D) -> (result: Result<IndexMeta, TantivyError>)
    ensures
        match result {
            Ok(meta) => loaded(directory.state().meta) == Ok::<_, TantivyError>(meta@),
            Err(error) => load_fails(directory.state(), directory.reliable(), error),
        },
{
    match directory.read_meta() {
        Err(error) => Err(TantivyError::OpenRead(error)),
        Ok(MetaContent::NotUtf8) => Err(TantivyError::MetaNotUtf8),
        Ok(MetaContent::Undecodable) => Err(TantivyError::MetaUndecodable),
        Ok(MetaContent::Valid(meta)) => Ok(meta),
    }
}

/// Writes the description of an index and makes it last. The file is replaced as a whole or not
/// at all.
pub(crate) fn save_metas<D: Directory>(meta: &IndexMeta, directory: &mut D) -> (result: Result<
    (),
    TantivyError,
>)
    ensures
        final(directory).reliable() == old(directory).reliable(),
        saved(old(directory).state(), meta@, final(directory).state(), result is Ok),
        result matches Err(error) ==> !old(directory).reliable() && error
            == TantivyError::WriteFailed,
{
    if directory.write_meta(meta).is_err() {
        return Err(TantivyError::WriteFailed);
    }
    if directory.sync_directory().is_err() {
        return Err(TantivyError::WriteFailed);
    }
    Ok(())
}

/// What writing the description of an index does to the directory. After success it has been made
/// to last. Where it fails, the file is either as it was or the new one.
pub open spec fn saved(
    before: crate::index::directory::DirectoryState,
    meta: crate::index::meta::MetaView,
    after: crate::index::directory::DirectoryState,
    succeeds: bool,
) -> bool {
    if succeeds {
        after == before.written(meta).flushed()
    } else {
        after == before || after == before.written(meta)
    }
}

/// What a change of the description of an index that failed with `error` does to the directory:
/// nothing, unless writing the new description went wrong.
pub open spec fn update_failed(
    before: crate::index::directory::DirectoryState,
    reliable: bool,
    updated: spec_fn(crate::index::meta::MetaView) -> crate::index::meta::MetaView,
    after: crate::index::directory::DirectoryState,
    error: TantivyError,
) -> bool {
    ||| load_fails(before, reliable, error) && after == before
    ||| {
        &&& !reliable
        &&& error == TantivyError::WriteFailed
        &&& loaded(before.meta) matches Ok(meta) && saved(before, updated(meta), after, false)
    }
}

/// Why no index can be had from a directory, and the directory itself.
pub struct Refused<D: Directory> {
    pub error: TantivyError,
    pub directory: D,
}

/// The state of a directory in which a new index was created: everything that was there before is
/// erased.
pub open spec fn created_state(
    before: crate::index::directory::DirectoryState,
    schema: Seq<FieldView>,
    settings: IndexSettings,
) -> crate::index::directory::DirectoryState {
    crate::index::directory::DirectoryState {
        managed: Set::empty(),
        damaged: Set::empty(),
        ..before.written(crate::index::meta::empty_meta(schema, settings)).flushed()
    }
}

/// The state of a directory in which creating an index went wrong: as before, or with the new
/// description and some files of the earlier index left.
pub open spec fn partly_created(
    before: crate::index::directory::DirectoryState,
    schema: Seq<FieldView>,
    settings: IndexSettings,
    after: crate::index::directory::DirectoryState,
) -> bool {
    ||| saved(before, crate::index::meta::empty_meta(schema, settings), after, false)
    ||| before.written(
        crate::index::meta::empty_meta(schema, settings),
    ).flushed().with_fewer_files(after)
}

/// Collects what is needed to create an index.
pub struct IndexBuilder {
    schema: Option<Schema>,
    index_settings: IndexSettings,
    tokenizer_manager: TokenizerManager,
    fast_field_tokenizer_manager: TokenizerManager,
}

impl IndexBuilder {
    /// The schema, if there is one.
    pub closed spec fn spec_schema(self) -> Option<Seq<FieldView>> {
        match self.schema {
            Some(schema) => Some(schema@),
            None => None,
        }
    }

    /// The settings.
    pub closed spec fn spec_settings(self) -> IndexSettings {
        self.index_settings
    }

    /// The tokenizers.
    pub closed spec fn spec_tokenizers(self) -> TokenizerManager {
        self.tokenizer_manager
    }

    /// The tokenizers for columns.
    pub closed spec fn spec_fast_field_tokenizers(self) -> TokenizerManager {
        self.fast_field_tokenizer_manager
    }

    /// A builder without schema, with the default settings and tokenizers.
    pub fn new() -> (builder: IndexBuilder)
        ensures
            builder.spec_schema() is None,
            builder.spec_settings() == crate::index::meta::default_settings(),
            crate::index::tokenizer::has_default_tokenizers(builder.spec_tokenizers()),
            crate::index::tokenizer::has_default_tokenizers(builder.spec_fast_field_tokenizers()),
    {
        IndexBuilder {
            schema: None,
            index_settings: IndexSettings::default(),
            tokenizer_manager: TokenizerManager::default(),
            fast_field_tokenizer_manager: TokenizerManager::default(),
        }
    }

    /// Sets the settings.
    #[must_use]
    pub fn settings(self, settings: IndexSettings) -> (builder: IndexBuilder)
        ensures
            builder.spec_settings() == settings,
            builder.spec_schema() == self.spec_schema(),
            builder.spec_tokenizers() == self.spec_tokenizers(),
            builder.spec_fast_field_tokenizers() == self.spec_fast_field_tokenizers(),
    {
        let mut builder = self;
        builder.index_settings = settings;
        builder
    }

    /// Sets the schema.
    #[must_use]
    pub fn schema(self, schema: Schema) -> (builder: IndexBuilder)
        ensures
            builder.spec_schema() == Some(schema@),
            builder.spec_settings() == self.spec_settings(),
            builder.spec_tokenizers() == self.spec_tokenizers(),
            builder.spec_fast_field_tokenizers() == self.spec_fast_field_tokenizers(),
    {
        let mut builder = self;
        builder.schema = Some(schema);
        builder
    }

    /// Sets the tokenizers.
    pub fn tokenizers(self, tokenizers: TokenizerManager) -> (builder: IndexBuilder)
        ensures
            builder.spec_tokenizers() == tokenizers,
            builder.spec_schema() == self.spec_schema(),
            builder.spec_settings() == self.spec_settings(),
            builder.spec_fast_field_tokenizers() == self.spec_fast_field_tokenizers(),
    {
        let mut builder = self;
        builder.tokenizer_manager = tokenizers;
        builder
    }

    /// Sets the tokenizers for columns.
    pub fn fast_field_tokenizers(self, tokenizers: TokenizerManager) -> (builder: IndexBuilder)
        ensures
            builder.spec_fast_field_tokenizers() == tokenizers,
            builder.spec_schema() == self.spec_schema(),
            builder.spec_settings() == self.spec_settings(),
            builder.spec_tokenizers() == self.spec_tokenizers(),
    {
        let mut builder = self;
        builder.fast_field_tokenizer_manager = tokenizers;
        builder
    }

    /// The schema, which has to be there.
    fn get_expect_schema(&self) -> (result: Result<Schema, TantivyError>)
        ensures
            match result {
                Ok(schema) => self.spec_schema() == Some(schema@),
                Err(error) => self.spec_schema() is None && error
                    == TantivyError::BuilderMissingSchema,
            },
    {
        match &self.schema {
            Some(schema) => Ok(schema.clone()),
            None => Err(TantivyError::BuilderMissingSchema),
        }
    }

    /// Checks that there is a schema.
    fn validate(&self) -> (result: Result<(), TantivyError>)
        ensures
            result == (if self.spec_schema() is Some {
                Ok(())
            } else {
                Err(TantivyError::NoSchema)
            }),
    {
        if self.schema.is_some() {
            Ok(())
        } else {
            Err(TantivyError::NoSchema)
        }
    }

    /// `index` is the new index in `directory` that was asked for.
    pub open spec fn created<D: Directory>(self, directory: D, index: Index<D>) -> bool {
        &&& self.spec_schema() == Some(index.spec_schema())
        &&& index.spec_settings() == self.spec_settings()
        &&& index.spec_tokenizers() == self.spec_tokenizers()
        &&& index.spec_fast_field_tokenizers() == self.spec_fast_field_tokenizers()
        &&& index.spec_executor() == Executor::SingleThread
        &&& index.spec_inventory() == Seq::<SegmentMeta>::empty()
        &&& index.dir().reliable() == directory.reliable()
        &&& index.dir().state() == created_state(
            directory.state(),
            index.spec_schema(),
            self.spec_settings(),
        )
    }

    /// Creating an index in `directory` was refused.
    pub open spec fn creation_refused<D: Directory>(
        self,
        directory: D,
        refused: Refused<D>,
    ) -> bool {
        match self.spec_schema() {
            None => refused.error == TantivyError::NoSchema && refused.directory == directory,
            Some(schema) => {
                &&& !directory.reliable()
                &&& refused.error == TantivyError::WriteFailed
                &&& !refused.directory.reliable()
                &&& partly_created(
                    directory.state(),
                    schema,
                    self.spec_settings(),
                    refused.directory.state(),
                )
            },
        }
    }

    /// Creates an index in `dir`. Everything that is there already is erased.
    pub fn create<D: Directory>(self, dir: D) -> (result: Result<Index<D>, Refused<D>>)
        ensures
            match result {
                Ok(index) => self.created(dir, index),
                Err(refused) => self.creation_refused(dir, refused),
            },
    {
        match self.validate() {
            Ok(_) => {},
            Err(error) => {
                return Err(Refused { error, directory: dir });
            },
        }
        let schema: Schema = match self.get_expect_schema() {
            Ok(schema) => schema,
            Err(error) => {
                return Err(Refused { error, directory: dir });
            },
        };
        let mut directory = dir;
        let mut metas: IndexMeta = IndexMeta::with_schema(schema);
        metas.index_settings = self.index_settings;
        assert(metas@ =~= crate::index::meta::empty_meta(
            self.spec_schema()->0,
            self.index_settings,
        ));
        match save_metas(&metas, &mut directory) {
            Ok(_) => {},
            Err(error) => {
                return Err(Refused { error, directory });
            },
        }
        if directory.erase_segments().is_err() {
            return Err(Refused { error: TantivyError::WriteFailed, directory });
        }
        let mut index = Index::open_from_metas(directory, &metas, SegmentMetaInventory::new());
        index.set_tokenizers(self.tokenizer_manager);
        index.set_fast_field_tokenizers(self.fast_field_tokenizer_manager);
        Ok(index)
    }

    /// Creates an index in `dir`, unless there is one already.
    pub fn create_new<D: Directory>(self, dir: D) -> (result: Result<Index<D>, Refused<D>>)
        ensures
            match result {
                Ok(index) => dir.state().meta is Absent && self.created(dir, index),
                Err(refused) => {
                    ||| dir.state().meta !is Absent && refused.error
                        == TantivyError::IndexAlreadyExists && refused.directory == dir
                    ||| dir.state().meta is Absent && self.creation_refused(dir, refused)
                    ||| !dir.reliable() && is_search_failure(dir.state(), refused.error)
                        && refused.directory == dir
                },
            },
    {
        match Index::index_exists(&dir) {
            Err(error) => Err(Refused { error: TantivyError::OpenRead(error), directory: dir }),
            Ok(there) => {
                if there {
                    return Err(
                        Refused { error: TantivyError::IndexAlreadyExists, directory: dir },
                    );
                }
                self.create(dir)
            },
        }
    }

    /// Creates an index in memory.
    pub fn create_in_ram(self) -> (result: Result<Index<RamDirectory>, TantivyError>)
        ensures
            match result {
                Ok(index) => {
                    &&& index.dir().reliable()
                    &&& exists|directory: RamDirectory|
                        crate::index::directory::is_new(directory.state()) && #[trigger]
                        self.created(directory, index)
                },
                Err(error) => self.spec_schema() is None && error == TantivyError::NoSchema,
            },
    {
        let directory = RamDirectory::create();
        match self.create(directory) {
            Ok(index) => {
                assert(self.created(directory, index));
                Ok(index)
            },
            Err(refused) => Err(refused.error),
        }
    }

    /// Creates an index with a single segment, to be written without threads.
    pub fn single_segment_index_writer<D: Directory>(
        self,
        dir: D,
        mem_budget: usize,
        segment_id: SegmentId,
    ) -> (result: Result<SingleSegmentIndexWriter<D>, Refused<D>>)
        ensures
            match result {
                Ok(writer) => {
                    &&& writer.spec_memory_budget() == mem_budget
                    &&& crate::index::meta::is_segment(
                        writer.spec_segment(),
                        writer.spec_index().spec_schema(),
                        self.spec_settings(),
                        SegmentMeta { segment_id, max_doc: 0, deletes: None },
                    )
                    &&& exists|index: Index<D>| #[trigger]
                        self.created(dir, index) && writer.spec_index().spec_schema()
                            == index.spec_schema() && writer.spec_index().dir() == index.dir()
                            && writer.spec_index().same_configuration(index)
                    &&& writer.spec_index().spec_inventory() == seq![writer.spec_segment().meta]
                },
                Err(refused) => self.creation_refused(dir, refused),
            },
    {
        match self.create(dir) {
            Ok(index) => {
                let writer = SingleSegmentIndexWriter::new(index, mem_budget, segment_id);
                assert(writer.spec_index().spec_inventory() =~= seq![writer.spec_segment().meta]);
                Ok(writer)
            },
            Err(refused) => Err(refused),
        }
    }

    /// What opening the index in `dir`, or creating one if there is none, leads to.
    pub open spec fn opened_or_created<D: Directory>(
        self,
        dir: D,
        result: Result<Index<D>, Refused<D>>,
    ) -> bool {
        match result {
            Ok(index) => if dir.state().meta is Absent {
                self.created(dir, index)
            } else {
                &&& index.opened(dir)
                &&& self.spec_schema() == Some(index.spec_schema())
                &&& index.spec_tokenizers() == self.spec_tokenizers()
                &&& index.spec_fast_field_tokenizers() == self.spec_fast_field_tokenizers()
            },
            Err(refused) => {
                ||| !dir.reliable() && is_search_failure(dir.state(), refused.error)
                    && refused.directory == dir
                ||| dir.state().meta is Absent && self.creation_refused(dir, refused)
                ||| dir.state().meta !is Absent && refused.directory == dir && {
                    ||| load_fails(dir.state(), dir.reliable(), refused.error)
                    ||| loaded(dir.state().meta) matches Ok(meta) && match self.spec_schema() {
                        None => refused.error == TantivyError::BuilderMissingSchema,
                        Some(schema) => schema != meta.schema && refused.error
                            == TantivyError::SchemaMismatch,
                    }
                }
            },
        }
    }

    /// Opens the index in `dir`, or creates one if there is none. The schema of an index that is
    /// there has to be the one asked for; if it is another one, the index is left alone.
    pub fn open_or_create<D: Directory>(self, dir: D) -> (result: Result<Index<D>, Refused<D>>)
        ensures
            self.opened_or_created(dir, result),
    {
        match Index::index_exists(&dir) {
            Err(error) => {
                return Err(Refused { error: TantivyError::OpenRead(error), directory: dir });
            },
            Ok(there) => {
                if !there {
                    return self.create(dir);
                }
            },
        }
        let mut index: Index<D> = match Index::open(dir) {
            Ok(index) => index,
            Err(refused) => {
                return Err(refused);
            },
        };
        let expected: Schema = match self.get_expect_schema() {
            Ok(schema) => schema,
            Err(error) => {
                return Err(Refused { error, directory: index.directory });
            },
        };
        index.set_tokenizers(self.tokenizer_manager);
        index.set_fast_field_tokenizers(self.fast_field_tokenizer_manager);
        if index.schema.same(&expected) {
            Ok(index)
        } else {
            Err(Refused { error: TantivyError::SchemaMismatch, directory: index.directory })
        }
    }
}

/// A builder with this schema and these settings, and the default tokenizers.
pub open spec fn is_plain_builder(
    builder: IndexBuilder,
    schema: Seq<FieldView>,
    settings: IndexSettings,
) -> bool {
    &&& builder.spec_schema() == Some(schema)
    &&& builder.spec_settings() == settings
    &&& crate::index::tokenizer::has_default_tokenizers(builder.spec_tokenizers())
    &&& crate::index::tokenizer::has_default_tokenizers(builder.spec_fast_field_tokenizers())
}

impl Default for IndexBuilder {
    fn default() -> (builder: Self)
        ensures
            builder.spec_schema() is None,
            builder.spec_settings() == crate::index::meta::default_settings(),
            crate::index::tokenizer::has_default_tokenizers(builder.spec_tokenizers()),
            crate::index::tokenizer::has_default_tokenizers(builder.spec_fast_field_tokenizers()),
    {
        IndexBuilder::new()
    }
}

/// An index.
pub struct Index<D: Directory> {
    directory: D,
    schema: Schema,
    settings: IndexSettings,
    executor: Executor,
    tokenizers: TokenizerManager,
    fast_field_tokenizers: TokenizerManager,
    inventory: SegmentMetaInventory,
}

impl Index<RamDirectory> {
    /// A builder without schema, with the default settings and tokenizers.
    pub fn builder() -> (builder: IndexBuilder)
        ensures
            builder.spec_schema() is None,
            builder.spec_settings() == crate::index::meta::default_settings(),
            crate::index::tokenizer::has_default_tokenizers(builder.spec_tokenizers()),
            crate::index::tokenizer::has_default_tokenizers(builder.spec_fast_field_tokenizers()),
    {
        IndexBuilder::new()
    }

    /// Creates an index in memory.
    pub fn create_in_ram(schema: Schema) -> (index: Index<RamDirectory>)
        ensures
            index.spec_schema() == schema@,
            index.spec_settings() == crate::index::meta::default_settings(),
            index.spec_executor() == Executor::SingleThread,
            index.spec_inventory() == Seq::<SegmentMeta>::empty(),
            crate::index::tokenizer::has_default_tokenizers(index.spec_tokenizers()),
            crate::index::tokenizer::has_default_tokenizers(index.spec_fast_field_tokenizers()),
            index.dir().reliable(),
            index.dir().state() == (crate::index::directory::DirectoryState {
                meta: crate::index::directory::MetaFile::Valid(
                    crate::index::meta::empty_meta(schema@, crate::index::meta::default_settings()),
                ),
                locked: false,
                managed: Set::empty(),
                damaged: Set::empty(),
                locks_taken: 0,
                unlocked_writes: 1,
                meta_flushed: true,
                faults: crate::index::directory::no_faults(),
            }),
    {
        IndexBuilder::new().schema(schema).create_in_ram().unwrap()
    }
}

impl<D: Directory> Index<D> {
    /// The directory.
    pub closed spec fn dir(self) -> D {
        self.directory
    }

    /// The fields.
    pub closed spec fn spec_schema(self) -> Seq<FieldView> {
        self.schema@
    }

    /// The settings.
    pub closed spec fn spec_settings(self) -> IndexSettings {
        self.settings
    }

    /// How searches are run.
    pub closed spec fn spec_executor(self) -> Executor {
        self.executor
    }

    /// The tokenizers.
    pub closed spec fn spec_tokenizers(self) -> TokenizerManager {
        self.tokenizers
    }

    /// The tokenizers for columns.
    pub closed spec fn spec_fast_field_tokenizers(self) -> TokenizerManager {
        self.fast_field_tokenizers
    }

    /// The segments that are in use.
    pub closed spec fn spec_inventory(self) -> Seq<SegmentMeta> {
        self.inventory@
    }

    /// Everything but the directory, the schema and the inventory is as in `other`.
    pub open spec fn same_configuration(self, other: Index<D>) -> bool {
        &&& self.spec_settings() == other.spec_settings()
        &&& self.spec_executor() == other.spec_executor()
        &&& self.spec_tokenizers() == other.spec_tokenizers()
        &&& self.spec_fast_field_tokenizers() == other.spec_fast_field_tokenizers()
    }

    /// The index is the one that `directory` describes.
    pub open spec fn opened(self, directory: D) -> bool {
        &&& self.dir() == directory
        &&& loaded(directory.state().meta) matches Ok(meta) && self.spec_schema() == meta.schema
            && self.spec_settings() == meta.index_settings
        &&& self.spec_executor() == Executor::SingleThread
        &&& self.spec_inventory() == Seq::<SegmentMeta>::empty()
    }

    /// There is an index in `dir`.
    pub fn index_exists(dir: &D) -> (result: Result<bool, OpenReadError>)
        ensures
            match result {
                Ok(there) => there == (dir.state().meta !is Absent),
                Err(error) => !dir.reliable() && dir.state().faults.meta_exists.contains(error),
            },
    {
        dir.meta_exists()
    }

    /// How searches are run.
    pub fn search_executor(&self) -> (executor: &Executor)
        ensures
            *executor == self.spec_executor(),
    {
        &self.executor
    }

    /// Runs searches in a pool of `num_threads` threads, if the pool was started.
    pub fn set_multithread_executor(&mut self, num_threads: usize, started: bool) -> (result: Result<
        (),
        TantivyError,
    >)
        ensures
            result == (if started {
                Ok(())
            } else {
                Err(TantivyError::ThreadPoolNotStarted)
            }),
            final(self).spec_executor() == (if started {
                Executor::ThreadPool { num_threads }
            } else {
                old(self).spec_executor()
            }),
            final(self).dir() == old(self).dir(),
            final(self).spec_schema() == old(self).spec_schema(),
            final(self).spec_settings() == old(self).spec_settings(),
            final(self).spec_tokenizers() == old(self).spec_tokenizers(),
            final(self).spec_fast_field_tokenizers() == old(self).spec_fast_field_tokenizers(),
            final(self).spec_inventory() == old(self).spec_inventory(),
    {
        if !started {
            return Err(TantivyError::ThreadPoolNotStarted);
        }
        self.executor = Executor::ThreadPool { num_threads };
        Ok(())
    }

    /// Runs searches with `executor`.
    pub fn set_executor(&mut self, executor: Executor)
        ensures
            final(self).spec_executor() == executor,
            final(self).dir() == old(self).dir(),
            final(self).spec_schema() == old(self).spec_schema(),
            final(self).spec_settings() == old(self).spec_settings(),
            final(self).spec_tokenizers() == old(self).spec_tokenizers(),
            final(self).spec_fast_field_tokenizers() == old(self).spec_fast_field_tokenizers(),
            final(self).spec_inventory() == old(self).spec_inventory(),
    {
        self.executor = executor;
    }

    /// Runs searches in a pool of as many threads as can run at once, if the pool was started.
    pub fn set_default_multithread_executor(
        &mut self,
        available_parallelism: usize,
        started: bool,
    ) -> (result: Result<(), TantivyError>)
        ensures
            result == (if started {
                Ok(())
            } else {
                Err(TantivyError::ThreadPoolNotStarted)
            }),
            final(self).spec_executor() == (if started {
                Executor::ThreadPool { num_threads: available_parallelism }
            } else {
                old(self).spec_executor()
            }),
            final(self).dir() == old(self).dir(),
            final(self).spec_schema() == old(self).spec_schema(),
            final(self).spec_settings() == old(self).spec_settings(),
            final(self).spec_tokenizers() == old(self).spec_tokenizers(),
            final(self).spec_fast_field_tokenizers() == old(self).spec_fast_field_tokenizers(),
            final(self).spec_inventory() == old(self).spec_inventory(),
    {
        self.set_multithread_executor(available_parallelism, started)
    }

    /// Opens the index in `dir`, or creates one with `schema` if there is none. The schema of an
    /// index that is there has to be `schema`.
    pub fn open_or_create(dir: D, schema: Schema) -> (result: Result<Index<D>, Refused<D>>)
        ensures
            exists|builder: IndexBuilder|
                is_plain_builder(builder, schema@, crate::index::meta::default_settings())
                    && #[trigger] builder.opened_or_created(dir, result),
    {
        let builder = IndexBuilder::new().schema(schema);
        assert(is_plain_builder(builder, schema@, crate::index::meta::default_settings()));
        builder.open_or_create(dir)
    }

    /// Creates an index in `dir`. Everything that is there already is erased.
    pub fn create(dir: D, schema: Schema, settings: IndexSettings) -> (result: Result<
        Index<D>,
        Refused<D>,
    >)
        ensures
            match result {
                Ok(index) => {
                    &&& index.spec_schema() == schema@
                    &&& index.spec_settings() == settings
                    &&& index.spec_executor() == Executor::SingleThread
                    &&& index.spec_inventory() == Seq::<SegmentMeta>::empty()
                    &&& crate::index::tokenizer::has_default_tokenizers(index.spec_tokenizers())
                    &&& crate::index::tokenizer::has_default_tokenizers(
                        index.spec_fast_field_tokenizers(),
                    )
                    &&& index.dir().reliable() == dir.reliable()
                    &&& index.dir().state() == created_state(dir.state(), schema@, settings)
                },
                Err(refused) => {
                    &&& !dir.reliable()
                    &&& refused.error == TantivyError::WriteFailed
                    &&& !refused.directory.reliable()
                    &&& partly_created(dir.state(), schema@, settings, refused.directory.state())
                },
            },
    {
        IndexBuilder::new().schema(schema).settings(settings).create(dir)
    }

    /// Creates an index in `dir`, unless there is one already.
    pub fn create_new(dir: D, schema: Schema) -> (result: Result<Index<D>, Refused<D>>)
        ensures
            match result {
                Ok(index) => {
                    &&& dir.state().meta is Absent
                    &&& exists|builder: IndexBuilder|
                        is_plain_builder(builder, schema@, crate::index::meta::default_settings())
                            && #[trigger] builder.created(dir, index)
                },
                Err(refused) => {
                    ||| dir.state().meta !is Absent && refused.error
                        == TantivyError::IndexAlreadyExists && refused.directory == dir
                    ||| !dir.reliable() && is_search_failure(dir.state(), refused.error)
                        && refused.directory == dir
                    ||| !dir.reliable() && dir.state().meta is Absent && refused.error
                        == TantivyError::WriteFailed && partly_created(
                        dir.state(),
                        schema@,
                        crate::index::meta::default_settings(),
                        refused.directory.state(),
                    )
                },
            },
    {
        let builder = IndexBuilder::new().schema(schema);
        assert(is_plain_builder(builder, schema@, crate::index::meta::default_settings()));
        builder.create_new(dir)
    }

    fn open_from_metas(directory: D, metas: &IndexMeta, inventory: SegmentMetaInventory) -> (index:
        Index<D>)
        ensures
            index.dir() == directory,
            index.spec_schema() == metas@.schema,
            index.spec_settings() == metas@.index_settings,
            index.spec_executor() == Executor::SingleThread,
            index.spec_inventory() == inventory@,
            crate::index::tokenizer::has_default_tokenizers(index.spec_tokenizers()),
            crate::index::tokenizer::has_default_tokenizers(index.spec_fast_field_tokenizers()),
    {
        Index {
            settings: metas.index_settings,
            directory,
            schema: metas.schema.clone(),
            tokenizers: TokenizerManager::default(),
            fast_field_tokenizers: TokenizerManager::default(),
            executor: Executor::SingleThread,
            inventory,
        }
    }

    /// Sets the tokenizers.
    pub fn set_tokenizers(&mut self, tokenizers: TokenizerManager)
        ensures
            final(self).spec_tokenizers() == tokenizers,
            final(self).dir() == old(self).dir(),
            final(self).spec_schema() == old(self).spec_schema(),
            final(self).spec_settings() == old(self).spec_settings(),
            final(self).spec_executor() == old(self).spec_executor(),
            final(self).spec_fast_field_tokenizers() == old(self).spec_fast_field_tokenizers(),
            final(self).spec_inventory() == old(self).spec_inventory(),
    {
        self.tokenizers = tokenizers;
    }

    /// The tokenizers.
    pub fn tokenizers(&self) -> (tokenizers: &TokenizerManager)
        ensures
            *tokenizers == self.spec_tokenizers(),
    {
        &self.tokenizers
    }

    /// Sets the tokenizers for columns.
    pub fn set_fast_field_tokenizers(&mut self, tokenizers: TokenizerManager)
        ensures
            final(self).spec_fast_field_tokenizers() == tokenizers,
            final(self).dir() == old(self).dir(),
            final(self).spec_schema() == old(self).spec_schema(),
            final(self).spec_settings() == old(self).spec_settings(),
            final(self).spec_executor() == old(self).spec_executor(),
            final(self).spec_tokenizers() == old(self).spec_tokenizers(),
            final(self).spec_inventory() == old(self).spec_inventory(),
    {
        self.fast_field_tokenizers = tokenizers;
    }

    /// The tokenizers for columns.
    pub fn fast_field_tokenizer(&self) -> (tokenizers: &TokenizerManager)
        ensures
            *tokenizers == self.spec_fast_field_tokenizers(),
    {
        &self.fast_field_tokenizers
    }

    /// The tokenizer of a field of text, or of nested values.
    pub fn tokenizer_for_field(&self, field: Field) -> (result: Result<TextAnalyzer, TantivyError>)
        requires
            field.spec_field_id() < self.spec_schema().len(),
        ensures
            result == field_tokenizer(
                self.spec_tokenizers(),
                field.spec_field_id(),
                self.spec_schema()[field.spec_field_id() as int].field_type,
            ),
    {
        let field_id: u32 = field.field_id();
        let indexing: &Option<TextFieldIndexing> = match &self.schema.get_field_entry(
            field,
        ).field_type {
            FieldType::JsonObject(options) => &options.indexing,
            FieldType::Str(options) => &options.indexing,
            FieldType::Plain(_) => {
                return Err(TantivyError::NotATextField { field_id });
            },
        };
        match indexing {
            None => Err(TantivyError::NoIndexingOptions { field_id }),
            Some(indexing) => match self.tokenizers.get(indexing.tokenizer.as_str()) {
                Some(tokenizer) => Ok(tokenizer),
                None => Err(TantivyError::NoTokenizer { field_id }),
            },
        }
    }

    /// A reader of the segments of the last commit.
    pub fn reader(&self) -> (result: Result<IndexReader, TantivyError>)
        ensures
            crate::index::reader::opened_reader(
                *self,
                crate::index::reader::ReloadPolicy::OnCommitWithDelay,
                result,
            ),
    {
        self.reader_builder().open_reader()
    }

    /// Collects how the index should be read.
    pub fn reader_builder<'a>(&'a self) -> (builder: IndexReaderBuilder<'a, D>)
        ensures
            builder.spec_index() == *self,
            builder.spec_reload_policy()
                == crate::index::reader::ReloadPolicy::OnCommitWithDelay,
    {
        IndexReaderBuilder::new(self)
    }

    /// The segments that are in use: those that are being written, and those of descriptions that
    /// were loaded. A use ends when it is released.
    pub fn list_all_segment_metas(&self) -> (metas: Vec<SegmentMeta>)
        ensures
            metas@ == self.spec_inventory(),
    {
        self.inventory.all()
    }

    /// Describes a segment that is in use from now on, until it is released.
    pub fn new_segment_meta(&mut self, segment_id: SegmentId, max_doc: u32) -> (meta: SegmentMeta)
        ensures
            meta == (SegmentMeta { segment_id, max_doc, deletes: None }),
            final(self).spec_inventory() == old(self).spec_inventory().push(meta),
            final(self).dir() == old(self).dir(),
            final(self).spec_schema() == old(self).spec_schema(),
            final(self).same_configuration(*old(self)),
    {
        self.inventory.new_segment_meta(segment_id, max_doc)
    }

    /// Ends one use of a segment. A segment that is used nowhere any more is not listed.
    pub fn release_segment_meta(&mut self, meta: SegmentMeta)
        ensures
            crate::index::meta::is_released(
                old(self).spec_inventory(),
                meta,
                final(self).spec_inventory(),
            ),
            final(self).dir() == old(self).dir(),
            final(self).spec_schema() == old(self).spec_schema(),
            final(self).same_configuration(*old(self)),
    {
        self.inventory.release(meta);
    }

    /// Opens the index in `directory`.
    pub fn open(directory: D) -> (result: Result<Index<D>, Refused<D>>)
        ensures
            match result {
                Ok(index) => {
                    &&& index.opened(directory)
                    &&& crate::index::tokenizer::has_default_tokenizers(index.spec_tokenizers())
                    &&& crate::index::tokenizer::has_default_tokenizers(
                        index.spec_fast_field_tokenizers(),
                    )
                },
                Err(refused) => {
                    &&& refused.directory == directory
                    &&& load_fails(directory.state(), directory.reliable(), refused.error)
                },
            },
    {
        match load_metas(&directory) {
            Ok(metas) => Ok(Self::open_from_metas(directory, &metas, SegmentMetaInventory::new())),
            Err(error) => Err(Refused { error, directory }),
        }
    }

    /// Reads the description of the index from the directory. Its segments are in use from now on,
    /// until they are released.
    pub fn load_metas(&mut self) -> (result: Result<IndexMeta, TantivyError>)
        ensures
            final(self).dir() == old(self).dir(),
            final(self).spec_schema() == old(self).spec_schema(),
            final(self).same_configuration(*old(self)),
            match result {
                Ok(meta) => {
                    &&& loaded(old(self).dir().state().meta) == Ok::<_, TantivyError>(meta@)
                    &&& final(self).spec_inventory() == old(self).spec_inventory() + meta@.segments
                },
                Err(error) => {
                    &&& load_fails(old(self).dir().state(), old(self).dir().reliable(), error)
                    &&& final(self).spec_inventory() == old(self).spec_inventory()
                },
            },
    {
        match load_metas(&self.directory) {
            Ok(meta) => {
                self.inventory.track(&meta.segments);
                Ok(meta)
            },
            Err(error) => Err(error),
        }
    }

    /// Takes the lock of the directory and starts a writer. The lock is given back if the writer
    /// cannot work as asked.
    pub fn writer_with_options(&mut self, options: IndexWriterOptions) -> (result: Result<
        IndexWriter,
        TantivyError,
    >)
        ensures
            final(self).spec_schema() == old(self).spec_schema(),
            final(self).spec_inventory() == old(self).spec_inventory(),
            final(self).same_configuration(*old(self)),
            final(self).dir().reliable() == old(self).dir().reliable(),
            writer_started(*old(self), options, *final(self), result),
    {
        match self.directory.acquire_lock() {
            Ok(_) => {},
            Err(error) => {
                return Err(TantivyError::LockFailure(error, LockPurpose::Write));
            },
        }
        let checked: Result<(), TantivyError> = options.check();
        let opened: Result<IndexWriter, TantivyError> = match checked {
            Err(error) => Err(error),
            Ok(_) => match load_metas(&self.directory) {
                Ok(meta) => Ok(IndexWriter::new(self.schema.clone(), options, meta.opstamp)),
                Err(error) => Err(error),
            },
        };
        if opened.is_err() {
            self.directory.release_lock();
        }
        opened
    }

    /// Starts a writer with `num_threads` threads that share the memory.
    pub fn writer_with_num_threads(
        &mut self,
        num_threads: usize,
        overall_memory_budget_in_bytes: usize,
    ) -> (result: Result<IndexWriter, TantivyError>)
        requires
            num_threads > 0,
        ensures
            final(self).spec_schema() == old(self).spec_schema(),
            final(self).spec_inventory() == old(self).spec_inventory(),
            final(self).same_configuration(*old(self)),
            final(self).dir().reliable() == old(self).dir().reliable(),
            writer_started(
                *old(self),
                shared_options(num_threads, overall_memory_budget_in_bytes),
                *final(self),
                result,
            ),
    {
        let options: IndexWriterOptions = IndexWriterOptions {
            num_worker_threads: num_threads,
            memory_budget_per_thread: overall_memory_budget_in_bytes / num_threads,
        };
        self.writer_with_options(options)
    }

    /// Starts a writer with one thread and the least memory.
    pub fn writer_for_tests(&mut self) -> (result: Result<IndexWriter, TantivyError>)
        ensures
            final(self).spec_schema() == old(self).spec_schema(),
            final(self).spec_inventory() == old(self).spec_inventory(),
            final(self).same_configuration(*old(self)),
            final(self).dir().reliable() == old(self).dir().reliable(),
            writer_started(
                *old(self),
                IndexWriterOptions {
                    num_worker_threads: 1,
                    memory_budget_per_thread: MEMORY_BUDGET_NUM_BYTES_MIN,
                },
                *final(self),
                result,
            ),
    {
        self.writer_with_num_threads(1, MEMORY_BUDGET_NUM_BYTES_MIN)
    }

    /// Starts a writer with as many threads as can run at once and have enough memory, but no
    /// more than eight.
    pub fn writer(
        &mut self,
        memory_budget_in_bytes: usize,
        available_parallelism: usize,
    ) -> (result: Result<IndexWriter, TantivyError>)
        requires
            available_parallelism > 0,
        ensures
            final(self).spec_schema() == old(self).spec_schema(),
            final(self).spec_inventory() == old(self).spec_inventory(),
            final(self).same_configuration(*old(self)),
            final(self).dir().reliable() == old(self).dir().reliable(),
            writer_started(
                *old(self),
                shared_options(
                    chosen_num_threads(memory_budget_in_bytes, available_parallelism),
                    memory_budget_in_bytes,
                ),
                *final(self),
                result,
            ),
    {
        let mut num_threads: usize = if available_parallelism < MAX_NUM_THREAD {
            available_parallelism
        } else {
            MAX_NUM_THREAD
        };
        if memory_budget_in_bytes / num_threads < MEMORY_BUDGET_NUM_BYTES_MIN {
            let affordable: usize = memory_budget_in_bytes / MEMORY_BUDGET_NUM_BYTES_MIN;
            num_threads = if affordable < 1 {
                1
            } else {
                affordable
            };
        }
        self.writer_with_num_threads(num_threads, memory_budget_in_bytes)
    }

    /// The settings.
    pub fn settings(&self) -> (settings: &IndexSettings)
        ensures
            *settings == self.spec_settings(),
    {
        &self.settings
    }

    /// The settings, to change them.
    pub fn settings_mut(&mut self) -> (settings: &mut IndexSettings)
        ensures
            *settings == old(self).spec_settings(),
            final(self).spec_settings() == *final(settings),
            final(self).dir() == old(self).dir(),
            final(self).spec_schema() == old(self).spec_schema(),
            final(self).spec_executor() == old(self).spec_executor(),
            final(self).spec_tokenizers() == old(self).spec_tokenizers(),
            final(self).spec_fast_field_tokenizers() == old(self).spec_fast_field_tokenizers(),
            final(self).spec_inventory() == old(self).spec_inventory(),
    {
        &mut self.settings
    }

    /// The schema.
    pub fn schema(&self) -> (schema: Schema)
        ensures
            schema@ == self.spec_schema(),
    {
        self.schema.clone()
    }

    /// Replaces the schema of this value, not that of the directory.
    pub fn set_schema_in_memory(&mut self, new_schema: Schema)
        ensures
            final(self).spec_schema() == new_schema@,
            final(self).dir() == old(self).dir(),
            final(self).spec_inventory() == old(self).spec_inventory(),
            final(self).same_configuration(*old(self)),
    {
        self.schema = new_schema;
    }

    /// Appends fields to the schema: `new_schema` has to start with the fields that are there.
    /// The lock of the directory is taken before and given back after: the description is written
    /// while it is held. Without the lock nothing changes.
    pub fn extend_schema(&mut self, new_schema: Schema) -> (result: Result<(), TantivyError>)
        ensures
            final(self).spec_inventory() == old(self).spec_inventory(),
            final(self).same_configuration(*old(self)),
            final(self).dir().reliable() == old(self).dir().reliable(),
            final(self).spec_schema() == (if result is Ok {
                new_schema@
            } else {
                old(self).spec_schema()
            }),
            old(self).dir().state().locked ==> result matches Err(TantivyError::LockFailure(_, _)),
            match result {
                Err(TantivyError::LockFailure(error, purpose)) => {
                    &&& purpose == LockPurpose::ExtendSchema
                    &&& final(self).dir().state() == old(self).dir().state()
                    &&& old(self).dir().state().lock_fails(old(self).dir().reliable(), error)
                },
                _ => {
                    &&& !old(self).dir().state().locked
                    &&& !final(self).dir().state().locked
                    &&& schema_extended(
                        old(self).dir().state().with_lock(),
                        old(self).dir().reliable(),
                        old(self).spec_schema(),
                        new_schema@,
                        crate::index::directory::DirectoryState {
                            locked: true,
                            ..final(self).dir().state()
                        },
                        result,
                    )
                },
            },
    {
        match self.directory.acquire_lock() {
            Ok(_) => {},
            Err(error) => {
                return Err(TantivyError::LockFailure(error, LockPurpose::ExtendSchema));
            },
        }
        let result: Result<(), TantivyError> = self.extend_schema_no_lock(new_schema);
        self.directory.release_lock();
        result
    }

    /// Appends fields to the schema, for a caller that holds the lock of the directory.
    pub fn extend_schema_no_lock(&mut self, new_schema: Schema) -> (result: Result<
        (),
        TantivyError,
    >)
        ensures
            final(self).spec_inventory() == old(self).spec_inventory(),
            final(self).same_configuration(*old(self)),
            final(self).dir().reliable() == old(self).dir().reliable(),
            final(self).spec_schema() == (if result is Ok {
                new_schema@
            } else {
                old(self).spec_schema()
            }),
            schema_extended(
                old(self).dir().state(),
                old(self).dir().reliable(),
                old(self).spec_schema(),
                new_schema@,
                final(self).dir().state(),
                result,
            ),
    {
        match self.schema.check_extension(&new_schema) {
            Ok(_) => {},
            Err(error) => {
                return Err(error);
            },
        }
        match store_schema(&mut self.directory, &new_schema) {
            Ok(_) => {},
            Err(error) => {
                return Err(error);
            },
        }
        self.schema = new_schema;
        Ok(())
    }

    /// The segment that `segment_meta` describes.
    pub fn segment(&self, segment_meta: SegmentMeta) -> (segment: Segment)
        ensures
            crate::index::meta::is_segment(
                segment,
                self.spec_schema(),
                self.spec_settings(),
                segment_meta,
            ),
    {
        Segment { schema: self.schema.clone(), settings: self.settings, meta: segment_meta }
    }

    /// A segment without documents, under a fresh id.
    pub fn new_segment(&mut self, segment_id: SegmentId) -> (segment: Segment)
        ensures
            crate::index::meta::is_segment(
                segment,
                old(self).spec_schema(),
                old(self).spec_settings(),
                SegmentMeta { segment_id, max_doc: 0, deletes: None },
            ),
            final(self).spec_inventory() == old(self).spec_inventory().push(segment.meta),
            final(self).dir() == old(self).dir(),
            final(self).spec_schema() == old(self).spec_schema(),
            final(self).same_configuration(*old(self)),
    {
        let segment_meta: SegmentMeta = self.inventory.new_segment_meta(segment_id, 0);
        self.segment(segment_meta)
    }

    /// The segments of the last commit. They are in use from now on, until they are released.
    pub fn searchable_segments(&mut self) -> (result: Result<Vec<Segment>, TantivyError>)
        ensures
            final(self).dir() == old(self).dir(),
            final(self).spec_schema() == old(self).spec_schema(),
            final(self).same_configuration(*old(self)),
            segments_loaded(*old(self), result),
            final(self).spec_inventory() == (match (result, loaded(old(self).dir().state().meta)) {
                (Ok(_), Ok(meta)) => old(self).spec_inventory() + meta.segments,
                _ => old(self).spec_inventory(),
            }),
    {
        match self.searchable_segment_metas() {
            Ok(metas) => Ok(self.segments(metas)),
            Err(error) => Err(error),
        }
    }

    /// The segments of the last commit, for a short look at them.
    pub(crate) fn committed_segments(&self) -> (result: Result<Vec<Segment>, TantivyError>)
        ensures
            segments_loaded(*self, result),
    {
        match load_metas(&self.directory) {
            Ok(meta) => Ok(self.segments(meta.segments)),
            Err(error) => Err(error),
        }
    }

    fn segments(&self, metas: Vec<SegmentMeta>) -> (segments: Vec<Segment>)
        ensures
            segments@.len() == metas@.len(),
            forall|i: int|
                0 <= i < segments@.len() ==> crate::index::meta::is_segment(
                    #[trigger] segments@[i],
                    self.spec_schema(),
                    self.spec_settings(),
                    metas@[i],
                ),
    {
        let mut segments: Vec<Segment> = Vec::new();
        let mut next: usize = 0;
        while next < metas.len()
            invariant
                next <= metas@.len(),
                segments@.len() == next,
                forall|i: int|
                    0 <= i < next ==> crate::index::meta::is_segment(
                        #[trigger] segments@[i],
                        self.spec_schema(),
                        self.spec_settings(),
                        metas@[i],
                    ),
            decreases metas@.len() - next,
        {
            segments.push(self.segment(metas[next]));
            next = next + 1;
        }
        segments
    }

    /// The directory.
    pub fn directory(&self) -> (directory: &D)
        ensures
            *directory == self.dir(),
    {
        &self.directory
    }

    /// The directory, to change it.
    pub fn directory_mut(&mut self) -> (directory: &mut D)
        ensures
            *directory == old(self).dir(),
            final(self).dir() == *final(directory),
            final(self).spec_schema() == old(self).spec_schema(),
            final(self).spec_inventory() == old(self).spec_inventory(),
            final(self).same_configuration(*old(self)),
    {
        &mut self.directory
    }

    /// Ends the use of the index and hands the directory out.
    pub fn into_directory(self) -> (directory: D)
        ensures
            directory == self.dir(),
    {
        self.directory
    }

    /// The descriptions of the segments of the last commit. They are in use from now on, until they
    /// are released.
    pub fn searchable_segment_metas(&mut self) -> (result: Result<Vec<SegmentMeta>, TantivyError>)
        ensures
            final(self).dir() == old(self).dir(),
            final(self).spec_schema() == old(self).spec_schema(),
            final(self).same_configuration(*old(self)),
            match result {
                Ok(metas) => {
                    &&& loaded(old(self).dir().state().meta) matches Ok(meta) && metas@
                        == meta.segments
                    &&& final(self).spec_inventory() == old(self).spec_inventory() + metas@
                },
                Err(error) => {
                    &&& load_fails(old(self).dir().state(), old(self).dir().reliable(), error)
                    &&& final(self).spec_inventory() == old(self).spec_inventory()
                },
            },
    {
        match self.load_metas() {
            Ok(meta) => Ok(meta.segments),
            Err(error) => Err(error),
        }
    }

    /// The ids of the segments of the last commit.
    pub fn searchable_segment_ids(&self) -> (result: Result<Vec<SegmentId>, TantivyError>)
        ensures
            match result {
                Ok(ids) => loaded(self.dir().state().meta) matches Ok(meta) && ids@
                    == meta.segments.map_values(|segment: SegmentMeta| segment.segment_id),
                Err(error) => load_fails(self.dir().state(), self.dir().reliable(), error),
            },
    {
        let metas: Vec<SegmentMeta> = match load_metas(&self.directory) {
            Ok(meta) => meta.segments,
            Err(error) => {
                return Err(error);
            },
        };
        let mut ids: Vec<SegmentId> = Vec::new();
        let mut next: usize = 0;
        while next < metas.len()
            invariant
                next <= metas@.len(),
                ids@.len() == next,
                forall|i: int| 0 <= i < next ==> #[trigger] ids@[i] == metas@[i].segment_id,
            decreases metas@.len() - next,
        {
            ids.push(metas[next].id());
            next = next + 1;
        }
        assert(ids@ =~= metas@.map_values(|segment: SegmentMeta| segment.segment_id));
        Ok(ids)
    }

    /// The files of the segments of the last commit that are there but damaged, each once.
    pub fn validate_checksum(&self) -> (result: Result<Vec<SegmentFile>, TantivyError>)
        ensures
            match result {
                Ok(damaged) => loaded(self.dir().state().meta) matches Ok(meta) && {
                    &&& damaged@.no_duplicates()
                    &&& forall|file: SegmentFile| #[trigger]
                        damaged@.contains(file) <==> {
                            &&& self.dir().state().managed.contains(file)
                            &&& self.dir().state().damaged.contains(file)
                            &&& is_active(meta.segments, file)
                        }
                },
                Err(error) => {
                    ||| load_fails(self.dir().state(), self.dir().reliable(), error)
                    ||| !self.dir().reliable() && (error matches TantivyError::OpenRead(cause) && (
                    self.dir().state().faults.list_files.contains(cause)
                        || self.dir().state().faults.checksum.contains(cause)))
                },
            },
    {
        let managed: Vec<SegmentFile> = match self.directory.list_managed_files() {
            Ok(managed) => managed,
            Err(error) => {
                return Err(TantivyError::OpenRead(error));
            },
        };
        let metas: Vec<SegmentMeta> = match load_metas(&self.directory) {
            Ok(meta) => meta.segments,
            Err(error) => {
                return Err(error);
            },
        };
        let ghost state = self.directory.state();
        let mut damaged: Vec<SegmentFile> = Vec::new();
        let mut next: usize = 0;
        while next < managed.len()
            invariant
                next <= managed@.len(),
                state == self.directory.state(),
                managed@.to_set() == state.managed,
                loaded(state.meta) matches Ok(meta) && metas@ == meta.segments,
                damaged@.no_duplicates(),
                forall|file: SegmentFile| #[trigger]
                    damaged@.contains(file) <==> {
                        &&& managed@.take(next as int).contains(file)
                        &&& state.damaged.contains(file)
                        &&& is_active(metas@, file)
                    },
            decreases managed@.len() - next,
        {
            let file: SegmentFile = managed[next];
            let ghost before = damaged@;
            let ghost shorter = managed@.take(next as int);
            let ghost longer = managed@.take(next + 1);
            proof {
                assert(managed@.to_set().contains(file));
                assert(longer =~= shorter.push(file));
                assert forall|other: SegmentFile| longer.contains(other) <==> shorter.contains(
                    other,
                ) || other == file by {
                    if shorter.contains(other) {
                        let k = choose|k: int| 0 <= k < shorter.len() && shorter[k] == other;
                        assert(longer[k] == other);
                    }
                    assert(longer[next as int] == file);
                }
            }
            if belongs_to_segment(&metas, file) {
                match self.directory.validate_checksum(file) {
                    Err(error) => {
                        return Err(TantivyError::OpenRead(error));
                    },
                    Ok(intact) => {
                        if !intact && !holds(&damaged, file) {
                            damaged.push(file);
                            proof {
                                let after = damaged@;
                                assert forall|other: SegmentFile| after.contains(other)
                                    <==> before.contains(other) || other == file by {
                                    if before.contains(other) {
                                        let k = choose|k: int|
                                            0 <= k < before.len() && before[k] == other;
                                        assert(after[k] == other);
                                    }
                                    assert(after[before.len() as int] == file);
                                }
                            }
                        }
                    },
                }
            }
            next = next + 1;
        }
        proof {
            assert(managed@.take(managed@.len() as int) =~= managed@);
            assert forall|file: SegmentFile| managed@.contains(file) <==> state.managed.contains(
                file,
            ) by {
                assert(managed@.to_set().contains(file) <==> managed@.contains(file));
            }
        }
        Ok(damaged)
    }
}

/// The segments of the last commit were loaded, or not.
pub open spec fn segments_loaded<D: Directory>(
    index: Index<D>,
    result: Result<Vec<Segment>, TantivyError>,
) -> bool {
    match result {
        Ok(segments) => loaded(index.dir().state().meta) matches Ok(meta) && segments@.len()
            == meta.segments.len() && forall|i: int|
            0 <= i < segments@.len() ==> crate::index::meta::is_segment(
                #[trigger] segments@[i],
                index.spec_schema(),
                index.spec_settings(),
                meta.segments[i],
            ),
        Err(error) => load_fails(index.dir().state(), index.dir().reliable(), error),
    }
}

/// Some segment is kept in `file`.
pub open spec fn is_active(segments: Seq<SegmentMeta>, file: SegmentFile) -> bool {
    exists|i: int| 0 <= i < segments.len() && (#[trigger] segments[i]).has_file(file)
}

fn belongs_to_segment(metas: &Vec<SegmentMeta>, file: SegmentFile) -> (belongs: bool)
    ensures
        belongs == is_active(metas@, file),
{
    let mut next: usize = 0;
    while next < metas.len()
        invariant
            next <= metas@.len(),
            forall|i: int| 0 <= i < next ==> !(#[trigger] metas@[i]).has_file(file),
        decreases metas@.len() - next,
    {
        let files: Vec<SegmentFile> = metas[next].list_files();
        if holds(&files, file) {
            assert(metas@[next as int].has_file(file));
            return true;
        }
        next = next + 1;
    }
    false
}

fn holds(files: &Vec<SegmentFile>, file: SegmentFile) -> (found: bool)
    ensures
        found == files@.contains(file),
{
    let mut next: usize = 0;
    while next < files.len()
        invariant
            next <= files@.len(),
            forall|i: int| 0 <= i < next ==> #[trigger] files@[i] != file,
        decreases files@.len() - next,
    {
        if files[next] == file {
            assert(files@[next as int] == file);
            return true;
        }
        next = next + 1;
    }
    false
}

/// Replaces the schema in the description of an index.
pub(crate) fn store_schema<D: Directory>(directory: &mut D, new_schema: &Schema) -> (result: Result<
    (),
    TantivyError,
>)
    ensures
        final(directory).reliable() == old(directory).reliable(),
        match result {
            Ok(_) => loaded(old(directory).state().meta) matches Ok(meta) && saved(
                old(directory).state(),
                crate::index::meta::MetaView { schema: new_schema@, ..meta },
                final(directory).state(),
                true,
            ),
            Err(error) => update_failed(
                old(directory).state(),
                old(directory).reliable(),
                with_schema(new_schema@),
                final(directory).state(),
                error,
            ),
        },
{
    let mut meta: IndexMeta = match load_metas(directory) {
        Ok(meta) => meta,
        Err(error) => {
            return Err(error);
        },
    };
    let ghost before = meta@;
    meta.schema = new_schema.clone();
    assert(meta@ =~= crate::index::meta::MetaView { schema: new_schema@, ..before });
    save_metas(&meta, directory)
}

/// What appending fields to a schema does to a directory in state `before`, for a caller that
/// holds the lock. A schema that does not start with the fields that are there is refused before
/// anything is read or written; else the description is replaced as a whole or not at all.
pub open spec fn schema_extended(
    before: crate::index::directory::DirectoryState,
    reliable: bool,
    schema: Seq<FieldView>,
    new_schema: Seq<FieldView>,
    after: crate::index::directory::DirectoryState,
    result: Result<(), TantivyError>,
) -> bool {
    match result {
        Ok(_) => {
            &&& Schema::extension_flaw(schema, new_schema) is None
            &&& crate::schema::extends(new_schema, schema)
            &&& loaded(before.meta) matches Ok(meta) && saved(
                before,
                crate::index::meta::MetaView { schema: new_schema, ..meta },
                after,
                true,
            )
        },
        Err(error) => match Schema::extension_flaw(schema, new_schema) {
            Some(flaw) => error == flaw && after == before,
            None => update_failed(before, reliable, with_schema(new_schema), after, error),
        },
    }
}

/// The description of an index, with another schema.
pub open spec fn with_schema(schema: Seq<FieldView>) -> spec_fn(
    crate::index::meta::MetaView,
) -> crate::index::meta::MetaView {
    |meta: crate::index::meta::MetaView| crate::index::meta::MetaView { schema, ..meta }
}

/// What starting a writer does to an index. The lock is tried first, and given back if the writer
/// cannot work as asked.
pub open spec fn writer_started<D: Directory>(
    before: Index<D>,
    options: IndexWriterOptions,
    after: Index<D>,
    result: Result<IndexWriter, TantivyError>,
) -> bool {
    let state = before.dir().state();
    match result {
        Ok(writer) => {
            &&& !state.locked
            &&& options.flaw() is None
            &&& after.dir().state() == state.with_lock()
            &&& loaded(state.meta) matches Ok(meta) && writer.spec_opstamp() == meta.opstamp
            &&& writer.spec_options() == options
            &&& writer.spec_schema() == before.spec_schema()
            &&& writer.spec_pending_docs() == 0
        },
        Err(TantivyError::LockFailure(error, purpose)) => {
            &&& purpose == LockPurpose::Write
            &&& after.dir().state() == state
            &&& state.lock_fails(before.dir().reliable(), error)
        },
        Err(error) => {
            &&& !state.locked
            &&& after.dir().state() == state.after_lock()
            &&& match options.flaw() {
                Some(flaw) => error == flaw,
                None => load_fails(state, before.dir().reliable(), error),
            }
        },
    }
}

/// Threads that share the memory.
pub open spec fn shared_options(num_threads: usize, memory_budget: usize) -> IndexWriterOptions {
    IndexWriterOptions {
        num_worker_threads: num_threads,
        memory_budget_per_thread: memory_budget / num_threads,
    }
}

/// How many threads a writer uses when as many as possible are asked for.
pub open spec fn chosen_num_threads(memory_budget: usize, available: usize) -> usize {
    let most = if available < MAX_NUM_THREAD {
        available
    } else {
        MAX_NUM_THREAD
    };
    if memory_budget / most < MEMORY_BUDGET_NUM_BYTES_MIN {
        if memory_budget / MEMORY_BUDGET_NUM_BYTES_MIN < 1 {
            1
        } else {
            memory_budget / MEMORY_BUDGET_NUM_BYTES_MIN
        }
    } else {
        most
    }
}

/// The tokenizer of a field.
pub open spec fn field_tokenizer(
    tokenizers: TokenizerManager,
    field_id: u32,
    field_type: crate::schema::FieldTypeView,
) -> Result<TextAnalyzer, TantivyError> {
    let indexing = match field_type {
        crate::schema::FieldTypeView::Str { indexing, .. } => Some(indexing),
        crate::schema::FieldTypeView::JsonObject { indexing, .. } => Some(indexing),
        crate::schema::FieldTypeView::Plain(_) => None,
    };
    match indexing {
        None => Err(TantivyError::NotATextField { field_id }),
        Some(None) => Err(TantivyError::NoIndexingOptions { field_id }),
        Some(Some(options)) => match tokenizers.spec_get(options.tokenizer) {
            Some(tokenizer) => Ok(tokenizer),
            None => Err(TantivyError::NoTokenizer { field_id }),
        },
    }
}

} // verus!
