//! A persistent-storage engine that maps a complete binary tree onto a flat
//! byte image using bit-exact packing: every node is a fixed-width bit record,
//! addressed purely by its level-order position, with no separate index.
//!
//! The crate works on the in-memory image of the tree file (a `Vec<u8>`);
//! reading the image from disk and writing it back is left to the caller.
use vstd::prelude::*;

pub mod utils;
pub mod header;
pub mod span;
pub mod tree;

pub use crate::tree::Node;
pub use crate::tree::Tree;

verus! {

/// Errors of opening or creating a tree file.
#[derive(Debug, PartialEq, Eq, Structural)]
pub enum TreeFileError {
    /// The tree file couldn't be opened.
    FileNotOpened,
    /// The tree file couldn't be created because it already has data in it.
    FileHasContents,
    /// The tree file is missing headers.
    MissingHeaders,
    /// The tree file doesn't have the correct identifier.
    InvalidIdentifier,
    /// The tree file is in an unsupported format version.
    UnsupportedFormatVersion,
    /// The tree file requires file permissions to write.
    MissingPermissions,
}

/// Errors of reading or writing a node.
#[derive(Debug, PartialEq, Eq, Structural)]
pub enum NodeError {
    /// The node exists but it was disabled.
    Disabled,
    /// The node is in an unexistent position.
    Unexistent,
    /// The child index is out of bounds.
    InvalidIndex,
    /// The subitem has an incorrect size.
    InvalidSubitem,
    /// Attempted to create a node that already exists (with overwrite = false).
    NodeAlreadyExists,
    /// The file is missing a feature to perform the operation.
    MissingFeature,
}

/// Format features.
#[derive(Debug, PartialEq, Eq, Structural, Clone, Copy)]
pub enum Feature {
    /// Soft deletion: every record carries a leading presence bit.
    Disabling,
}

/// Permissions to request when opening the tree file.
#[derive(Debug, PartialEq, Eq, Structural, Clone, Copy)]
pub enum TreeOpenMode {
    Read,
    ReadWrite,
}

} // verus!
