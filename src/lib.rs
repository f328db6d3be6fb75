//! An embedded key-value store kept in append-only, length-framed command logs.
//!
//! The library holds the log segments, the in-memory index that points at the
//! latest record of each key, the replay that rebuilds the index, and the
//! compaction that rewrites the live records into one fresh segment.

pub mod codec;
pub mod error;
pub mod index;
pub mod replay;
pub mod store;
pub mod engine;
pub mod laws;
