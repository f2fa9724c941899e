//! An embedded single-file document store.
//!
//! Documents are opaque byte blobs kept under string identifiers. The image of
//! the backing file is cut into fixed-size blocks; a blob that does not fit in
//! one block is spread over a chain of blocks. An allocator hands out block
//! numbers, a bounded cache keeps recently touched blocks, and an index maps
//! each identifier to the first block of its chain.
pub mod block;
pub mod cache;
pub mod chain;
pub mod disk;
pub mod error;
pub mod layout;
pub mod model;
pub mod query;
pub mod storage;
pub mod traffic;
