use vstd::prelude::*;

verus! {

/// Why an operation on an image failed.
#[derive(Debug, Clone, Copy, PartialEq, Eq, Structural)]
pub enum Error {
    /// The source ends before the bytes that a structure needs.
    Truncated,
    /// A field of a structure contradicts the structure it belongs to.
    Malformed,
    /// Two pieces of an image claim the same bytes, or a piece ends behind
    /// the end of the image.
    Overlap,
}

} // verus!
