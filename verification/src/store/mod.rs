//! Compressed, row-oriented storage for documents.
//!
//! Documents are collected into blocks, blocks are compressed and written one behind the other,
//! and a list of checkpoints says which documents and which bytes belong to which block. To read
//! a document, its block is looked up, decompressed as a whole and cut.

pub mod alive;
pub mod block_cache;
pub mod block_trailer;
pub mod codec;
pub mod contents;
pub mod doc_laws;
pub mod laws;
pub mod layout;
pub mod reader;
pub mod store_compressor;
pub mod translate;
pub mod version;
pub mod writer;

pub use self::alive::AliveBitSet;
pub use self::block_cache::CacheStats;
pub use self::block_trailer::{read_block_trailer, write_block_trailer, BlockFieldRemap};
pub use self::codec::{Compressor, Decompressor};
pub use self::layout::{Checkpoint, DocStoreFooter, StoreFile};
pub use self::reader::StoreReader;
pub use self::store_compressor::BlockCompressor;
pub use self::translate::translate_fields;
pub use self::version::{DocStoreVersion, DOC_STORE_VERSION};
pub use self::writer::StoreWriter;
