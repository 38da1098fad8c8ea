//! Decisions of the file operations on the working copy.

use vstd::prelude::*;
use crate::error::StoreError;

verus! {

/// How an existing entry is removed.
#[derive(Debug, Clone, Copy, PartialEq, Eq, Structural)]
pub enum Removal {
    /// A directory: remove it and everything beneath it.
    Tree,
    /// Anything else: remove the entry itself.
    Entry,
}

/// Decides a delete from what the disk reports of the target: `NotFound`
/// where nothing is there, a whole-tree removal for a directory.
pub fn removal_for(exists: bool, is_dir: bool) -> (r: Result<Removal, StoreError>)
    ensures
        !exists ==> r == Err::<Removal, StoreError>(StoreError::NotFound),
        exists && is_dir ==> r == Ok::<Removal, StoreError>(Removal::Tree),
        exists && !is_dir ==> r == Ok::<Removal, StoreError>(Removal::Entry),
{
    if !exists {
        Err(StoreError::NotFound)
    } else if is_dir {
        Ok(Removal::Tree)
    } else {
        Ok(Removal::Entry)
    }
}

} // verus!
