//! Compressed, row-oriented document storage and the pieces of a search index
//! that sit directly on top of it.

pub mod aggregation;
pub mod collector;
pub mod error;
pub mod index;
pub mod schema;
mod shared;
mod sorting;
pub mod store;
pub mod varint;
