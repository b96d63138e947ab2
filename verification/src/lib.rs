//! Extraction of named, reusable components out of a single markup document.
//!
//! The library models the document as an owned tree of [`node::Node`] values.
//! [`walker::walk`] traverses that tree post-order, detaches every subtree
//! marked `data-extract="<name>"`, replaces it with an embed-reference
//! placeholder, deletes subtrees marked `data-extract="not"`, and replaces the
//! children of every node marked `data-content` with a content-slot
//! placeholder. [`serialize::serialize_html`] turns a subtree back into
//! markup text, and [`engine::Extractor`] rewrites the placeholder tokens in
//! converted text into caller-supplied template fragments and wraps the
//! result into the final template file body.

pub mod engine;
pub mod laws;
pub mod loader;
pub mod node;
pub mod serialize;
pub mod walker;
pub mod text;

use vstd::prelude::*;

verus! {

/// The error cases the library itself can detect. Parse, conversion and
/// write failures belong to the surrounding program.
#[derive(PartialEq, Eq, Structural, Clone, Copy, Debug)]
pub enum ExtractError {
    /// The fixed structural positions used for entry normalization are
    /// absent from the document tree.
    Structure,
    /// Two extraction records share one component name; writing both would
    /// silently overwrite one file with the other.
    NameCollision,
}

impl ExtractError {
    /// A short description of the error.
    pub fn describe(&self) -> (r: &'static str)
        ensures
            *self is Structure ==> r@ == "expected document structure is missing"@,
            *self is NameCollision ==> r@ == "two extracted components share one name"@,
    {
        match self {
            ExtractError::Structure => "expected document structure is missing",
            ExtractError::NameCollision => "two extracted components share one name",
        }
    }
}

} // verus!
