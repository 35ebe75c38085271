//! The options that drive a run.

use vstd::prelude::*;

verus! {

/// What a run is asked to do.
#[derive(Debug)]
pub struct Opt {
    /// The target file's path.
    pub input: String,
    /// Whether an existing table of contents may be replaced.
    pub update_existing: bool,
    /// Whether to print the table instead of writing it into the file.
    pub no_file_update: bool,
    /// Whether uncommitted changes to the file are no reason to refuse.
    pub allow_dirty: bool,
    /// Whether to skip the version-control check altogether.
    pub no_vcs: bool,
    /// The deepest heading level that the table keeps.
    pub max_depth: usize,
}

} // verus!
