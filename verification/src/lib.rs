//! An annotation store: attaches human-written descriptions to files and
//! directories of a project tree, keeps them in a backing file at the tree's
//! root, detects drift between the store and the live tree, and renders an
//! annotated listing.
//!
//! The library holds the logic alone: the mapping and its invariants, the
//! backing-file codec, path normalization, the reconciliation passes, the
//! renderer, and the decision parsing of the interactive flows. Reading the
//! disk, walking directories and prompting belong to the surrounding binary,
//! which hands plain values in and out.
use vstd::prelude::*;

pub mod codec;
pub mod flows;
pub mod order;
pub mod paths;
pub mod render;
pub mod store;

verus! {

/// The ways an operation of the store can fail.
#[derive(Debug, Clone, Copy, PartialEq, Eq, Structural)]
pub enum Error {
    /// No backing file was found walking upward from the starting directory.
    NotFound,
    /// A target path cannot be expressed relative to the store's root.
    Unrelated,
    /// The backing file's bytes do not decode as a path-to-description mapping.
    Malformed,
}

impl Error {
    /// A human-readable account of the failure, for the binary to print.
    pub fn message(&self) -> (r: &'static str)
        ensures
            r@ == match *self {
                Error::NotFound => ".sunrise not found"@,
                Error::Unrelated => "path is not inside the store's root"@,
                Error::Malformed => "the .sunrise file is malformed"@,
            },
    {
        match *self {
            Error::NotFound => ".sunrise not found",
            Error::Unrelated => "path is not inside the store's root",
            Error::Malformed => "the .sunrise file is malformed",
        }
    }
}

} // verus!
