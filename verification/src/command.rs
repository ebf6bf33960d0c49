//! Files of the content directory as the window lists them.

use vstd::prelude::*;

verus! {

/// A serializable representation of a file, including its path and name.
#[derive(Debug)]
pub struct FileEntry {
    pub path: std::path::PathBuf,
    pub name: String,
}

} // verus!
