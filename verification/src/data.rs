//! Outline data: where a piece of text sits in a Markdown file.

use vstd::prelude::*;

verus! {

/// A location in a source Markdown file: its path and a range of lines.
#[derive(Debug, Clone)]
pub struct SourceLocation {
    pub file_path: String,
    pub line_start: usize,
    pub line_end: usize,
}

/// The data associated with each node in the outliner tree.
#[derive(Debug, Clone)]
pub struct NodeData {
    pub text: String,
    pub location: SourceLocation,
}

} // verus!
