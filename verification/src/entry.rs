//! A file or directory as the explorer lists it.

use vstd::prelude::*;

verus! {

/// One listed file: its path, its kind, its modification time (nanoseconds
/// from the Unix epoch, negative before it) and its size in bytes.
#[derive(Clone, Debug)]
pub struct FsEntry {
    pub path: String,
    pub is_dir: bool,
    pub is_symlink: bool,
    pub is_broken_symlink: bool,
    pub modified: Option<i128>,
    pub size: u64,
}

} // verus!
