//! Indexes: their schema, their settings and their segments.

pub mod directory;
pub mod index;
pub mod laws;
pub mod meta;
pub mod reader;
pub mod tokenizer;
pub mod writer;

pub use self::directory::{Directory, MetaContent, RamDirectory};
pub use self::index::{Executor, Index, IndexBuilder, Refused};
pub use self::meta::{
    DeleteMeta, IndexMeta, IndexSettings, Segment, SegmentComponent, SegmentFile, SegmentId,
    SegmentMeta, SegmentMetaInventory,
};
pub use self::reader::{IndexReader, IndexReaderBuilder, ReloadPolicy};
pub use self::tokenizer::{TextAnalyzer, TokenizerManager};
pub use self::writer::{IndexWriter, IndexWriterOptions, SingleSegmentIndexWriter};
