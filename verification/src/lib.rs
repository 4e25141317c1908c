//! A read-heavy offline dictionary engine.
//!
//! The crate builds, persists and queries compact dictionary files that map
//! textual keys to value blobs.  The persistent ordered index is a B+ tree
//! whose nodes are serialized, Deflate-compressed and lazily paged in through
//! a size-bounded LRU node cache shared across all open files.

pub mod codec;
pub mod keys;
pub mod node;
pub mod cache;
pub mod compress;
pub mod tree;
pub mod error;
pub mod beluga;
pub mod dict;
pub mod dictionary;
pub mod bookshelf;
pub mod laws;
