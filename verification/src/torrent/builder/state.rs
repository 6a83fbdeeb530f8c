//! What is known of a builder at compile time: whether it has files.
use vstd::prelude::*;

verus! {

/// What is known of a builder.
pub trait BuilderState {
    /// Whether the builder is known to have files.
    spec fn has_files() -> bool;
}

/// There may be no files yet.
#[derive(Debug)]
pub struct Empty;

/// There are files.
#[derive(Debug)]
pub struct HasFiles;

impl BuilderState for Empty {
    open spec fn has_files() -> bool {
        false
    }
}

impl BuilderState for HasFiles {
    open spec fn has_files() -> bool {
        true
    }
}

} // verus!
