//! Stores of indexes for common needs.
pub mod dynamic_chunk_store;

pub use dynamic_chunk_store::{DynamicChunkStore, StoreFull};
