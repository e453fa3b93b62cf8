//! An embedded key-value store over an append-only log (bitcask style).
//!
//! The library holds the verified core: the binary record format, the
//! in-memory index, log replay, and the decisions of put, get, delete and
//! merge. The caller performs the file I/O that those decisions ask for.

pub mod codec;
pub mod error;
pub mod index;
pub mod laws;
pub mod method;
pub mod store;

pub use crate::error::Error;
