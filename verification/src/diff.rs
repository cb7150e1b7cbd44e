//! The file-level diff types that the review workspace reads.
use vstd::prelude::*;

verus! {

/// How a file differs between the compared revisions.
#[derive(Clone, Copy, Debug, PartialEq, Eq, Structural)]
pub enum FileStatus {
    Added,
    Modified,
    Deleted,
}

/// How one row of a side-by-side diff differs.
#[derive(Clone, Copy, Debug, PartialEq, Eq, Structural)]
pub enum ChangeType {
    Equal,
    Insert,
    Delete,
    Modified,
}

/// Both versions of one file.
#[derive(Clone, Debug)]
pub struct FileDiff {
    pub filename: String,
    pub old_content: String,
    pub new_content: String,
    pub status: FileStatus,
    pub is_binary: bool,
}

} // verus!
