//! What can go wrong.

use vstd::prelude::*;

verus! {

/// Broad class of a [`StoreError`].
#[derive(Clone, Copy, Debug, PartialEq, Eq, Structural)]
pub enum ErrorKind {
    /// The input ended before the value did.
    UnexpectedEof,
    /// The bytes do not follow the format.
    InvalidData,
    /// The request cannot be served with these arguments.
    InvalidInput,
}

/// What can go wrong while reading or writing the document store.
#[derive(Clone, Copy, Debug, PartialEq, Eq, Structural)]
pub enum StoreError {
    /// A block that should end in a trailer length has fewer than four bytes.
    BlockTooShort,
    /// The trailer length of a block is below four or larger than the block.
    InvalidTrailerLength { trailer_byte_len: usize, block_len: usize },
    /// The buffer ended inside a variable-length integer.
    TruncatedVInt,
    /// A variable-length integer runs over ten bytes without a stop bit.
    OverlongVInt,
    /// The buffer ended inside a fixed-size value.
    UnexpectedEof,
    /// The number does not stand for a version of the store format.
    InvalidDocStoreVersion { number: u32 },
    /// The payload of a block cannot be decompressed.
    Decompression,
    /// The encoded remap does not fit the four-byte trailer length.
    TrailerTooLarge { body_len: usize },
    /// The blocks of a store in this format cannot be copied: its dates have another unit.
    SourceTooOld { number: u32 },
    /// Blocks in this format have no place for a field-id remap.
    TargetTooOld { number: u32 },
}

impl StoreError {
    /// The class of this error.
    pub open spec fn spec_kind(self) -> ErrorKind {
        match self {
            StoreError::BlockTooShort | StoreError::UnexpectedEof => ErrorKind::UnexpectedEof,
            StoreError::SourceTooOld { .. } | StoreError::TargetTooOld { .. } => {
                ErrorKind::InvalidInput
            },
            _ => ErrorKind::InvalidData,
        }
    }

    /// The class of this error.
    pub fn kind(&self) -> (kind: ErrorKind)
        ensures
            kind == self.spec_kind(),
    {
        match self {
            StoreError::BlockTooShort | StoreError::UnexpectedEof => ErrorKind::UnexpectedEof,
            StoreError::SourceTooOld { .. } | StoreError::TargetTooOld { .. } => {
                ErrorKind::InvalidInput
            },
            _ => ErrorKind::InvalidData,
        }
    }
}

/// Why a file cannot be read.
#[derive(Clone, Copy, Debug, PartialEq, Eq, Structural)]
pub enum OpenReadError {
    /// There is no such file.
    FileDoesNotExist,
    /// The file system failed.
    IoError,
}

/// Why a lock cannot be taken.
#[derive(Clone, Copy, Debug, PartialEq, Eq, Structural)]
pub enum LockError {
    /// Someone else holds it.
    LockBusy,
    /// The file system failed.
    IoError,
}

/// What a lock was to be taken for.
#[derive(Clone, Copy, Debug, PartialEq, Eq, Structural)]
pub enum LockPurpose {
    /// Starting a writer.
    Write,
    /// Appending fields to the schema.
    ExtendSchema,
}

/// What can go wrong in the index.
#[derive(Clone, Copy, Debug, PartialEq, Eq, Structural)]
pub enum TantivyError {
    /// There is no such document.
    DocNotFound { doc_id: u32 },
    /// A document was looked for in a block that does not hold it.
    WrongBlock,
    /// Reading or writing the store failed.
    IoError(StoreError),
    /// A block could not be loaded while documents were listed.
    BlockRead(ErrorKind),
    /// There is no field with this name.
    FieldNotFound,
    /// The new schema has fewer fields than the current one.
    SchemaFewerFields { proposed: usize, current: usize },
    /// A field that exists would change.
    SchemaFieldModified { position: usize },
    /// The schema of the index is another one than the one asked for.
    SchemaMismatch,
    /// The field does not hold text.
    NotATextField { field_id: u32 },
    /// The text of the field is not indexed.
    NoIndexingOptions { field_id: u32 },
    /// The tokenizer of the field is not registered.
    NoTokenizer { field_id: u32 },
    /// An index was asked for without a schema.
    NoSchema,
    /// The builder lacks the schema.
    BuilderMissingSchema,
    /// An index was to be created where there is one already.
    IndexAlreadyExists,
    /// A file of the index cannot be read.
    OpenRead(OpenReadError),
    /// A file of the index cannot be written.
    WriteFailed,
    /// The description of the index is not text.
    MetaNotUtf8,
    /// The description of the index cannot be decoded.
    MetaUndecodable,
    /// The lock of the index cannot be taken.
    LockFailure(LockError, LockPurpose),
    /// The threads for searches could not be started.
    ThreadPoolNotStarted,
    /// A writer needs a thread.
    NoWorkerThread,
    /// The memory for each thread of a writer is out of range.
    MemoryBudgetOutOfRange { per_thread: usize },
    /// Documents are numbered with four bytes.
    TooManyDocs,
    /// A segment that should be merged is not in the index.
    SegmentNotFound,
    /// A document has a field that the schema does not have.
    FieldOutOfRange { field_id: u32 },
    /// A document has a field that the schema does not store.
    FieldNotStored { field_id: u32 },
}

impl TantivyError {
    /// What went wrong, in words.
    pub open spec fn spec_message(self) -> Seq<char> {
        match self {
            TantivyError::DocNotFound { .. } => "Failed to lookup document"@,
            TantivyError::WrongBlock => "Attempted to read doc from wrong block"@,
            TantivyError::IoError(_) => "An IO error occurred in the doc store"@,
            TantivyError::BlockRead(_) => "error when reading block in doc store"@,
            TantivyError::FieldNotFound => "The field does not exist"@,
            TantivyError::SchemaFewerFields { .. } => {
                "extend_schema: new schema has fewer fields than current; removing fields is not supported"@
            },
            TantivyError::SchemaFieldModified { .. } => {
                "extend_schema: existing field was modified: name, type, options, or tokenizer changed"@
            },
            TantivyError::SchemaMismatch => "An index exists but the schema does not match."@,
            TantivyError::NotATextField { .. } => "The field is not a text field."@,
            TantivyError::NoIndexingOptions { .. } => "No indexing options set for field"@,
            TantivyError::NoTokenizer { .. } => "No Tokenizer found for field"@,
            TantivyError::NoSchema => "no schema passed"@,
            TantivyError::BuilderMissingSchema => "Missing required index builder argument: schema"@,
            TantivyError::IndexAlreadyExists => "Index already exists"@,
            TantivyError::OpenRead(_) => "Failed to open file for read"@,
            TantivyError::WriteFailed => "Failed to write file"@,
            TantivyError::MetaNotUtf8 => "Meta file does not contain valid utf8 file."@,
            TantivyError::MetaUndecodable => "Meta file cannot be deserialized."@,
            TantivyError::LockFailure(_, LockPurpose::Write) => {
                "Failed to acquire index lock. If you are using a regular directory, this means there is already an `IndexWriter` working on this `Directory`, in this process or in a different process."@
            },
            TantivyError::LockFailure(_, LockPurpose::ExtendSchema) => {
                "extend_schema: could not acquire INDEX_WRITER_LOCK — another IndexWriter is open on this directory."@
            },
            TantivyError::ThreadPoolNotStarted => "Failed to start the thread pool"@,
            TantivyError::NoWorkerThread => "At least one worker thread is required, got 0"@,
            TantivyError::MemoryBudgetOutOfRange { .. } => {
                "The memory arena per thread is too small or too big."@
            },
            TantivyError::TooManyDocs => "Too many documents in one segment"@,
            TantivyError::SegmentNotFound => "A segment to merge is not part of the index"@,
            TantivyError::FieldOutOfRange { .. } => "The field id is out of range for the schema"@,
            TantivyError::FieldNotStored { .. } => "The field is not stored in the schema"@,
        }
    }

    /// What went wrong, in words.
    pub fn message(&self) -> (message: &'static str)
        ensures
            message@ == self.spec_message(),
    {
        match self {
            TantivyError::DocNotFound { .. } => "Failed to lookup document",
            TantivyError::WrongBlock => "Attempted to read doc from wrong block",
            TantivyError::IoError(_) => "An IO error occurred in the doc store",
            TantivyError::BlockRead(_) => "error when reading block in doc store",
            TantivyError::FieldNotFound => "The field does not exist",
            TantivyError::SchemaFewerFields { .. } => {
                "extend_schema: new schema has fewer fields than current; removing fields is not supported"
            },
            TantivyError::SchemaFieldModified { .. } => {
                "extend_schema: existing field was modified: name, type, options, or tokenizer changed"
            },
            TantivyError::SchemaMismatch => "An index exists but the schema does not match.",
            TantivyError::NotATextField { .. } => "The field is not a text field.",
            TantivyError::NoIndexingOptions { .. } => "No indexing options set for field",
            TantivyError::NoTokenizer { .. } => "No Tokenizer found for field",
            TantivyError::NoSchema => "no schema passed",
            TantivyError::BuilderMissingSchema => "Missing required index builder argument: schema",
            TantivyError::IndexAlreadyExists => "Index already exists",
            TantivyError::OpenRead(_) => "Failed to open file for read",
            TantivyError::WriteFailed => "Failed to write file",
            TantivyError::MetaNotUtf8 => "Meta file does not contain valid utf8 file.",
            TantivyError::MetaUndecodable => "Meta file cannot be deserialized.",
            TantivyError::LockFailure(_, LockPurpose::Write) => {
                "Failed to acquire index lock. If you are using a regular directory, this means there is already an `IndexWriter` working on this `Directory`, in this process or in a different process."
            },
            TantivyError::LockFailure(_, LockPurpose::ExtendSchema) => {
                "extend_schema: could not acquire INDEX_WRITER_LOCK — another IndexWriter is open on this directory."
            },
            TantivyError::ThreadPoolNotStarted => "Failed to start the thread pool",
            TantivyError::NoWorkerThread => "At least one worker thread is required, got 0",
            TantivyError::MemoryBudgetOutOfRange { .. } => {
                "The memory arena per thread is too small or too big."
            },
            TantivyError::TooManyDocs => "Too many documents in one segment",
            TantivyError::SegmentNotFound => "A segment to merge is not part of the index",
            TantivyError::FieldOutOfRange { .. } => "The field id is out of range for the schema",
            TantivyError::FieldNotStored { .. } => "The field is not stored in the schema",
        }
    }
}

} // verus!
