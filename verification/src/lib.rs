//! A content-addressable object store: typed, immutable records (file content,
//! directory snapshots, revisions) kept under the SHA-1 digest of their
//! canonical encoding.
//!
//! The library computes; it does not touch the file system. Whoever calls it
//! reads what stands on disk, as an [`fs_reader::FsNode`] or as the bytes of
//! a stored file, and writes the files that the library hands back, each a
//! place below the root of the store and the bytes to keep there.

pub mod error;
pub mod fs_reader;
pub mod objects;
