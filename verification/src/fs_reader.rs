//! What was read of a part of the file system, as values.

use vstd::prelude::*;

verus! {

/// What stands at a path.
#[derive(Debug, PartialEq, Eq)]
pub enum FsNode {
    /// A regular file, with its bytes.
    File(Vec<u8>),
    /// A directory, with its children in the order they were listed in.
    Directory(Vec<FsEntry>),
    /// Neither of the two, or something that could not be read.
    Unreadable,
}

/// A child of a directory: its base name, and what stands there.
#[derive(Debug, PartialEq, Eq)]
pub struct FsEntry {
    pub name: String,
    pub node: FsNode,
}

} // verus!
