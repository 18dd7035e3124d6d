use vstd::prelude::*;

verus! {

/// The ways a store operation can fail.
///
/// Every operation of the store reports its failure through one of these
/// variants; none of them panics on any input.
#[derive(Clone, Copy, Debug, PartialEq, Eq, Structural)]
pub enum StoreError {
    /// A note with an empty text value was handed to the write path.
    EmptyValue,
    /// The project file that was asked for does not exist.
    NotFound,
    /// A record in a project file could not be decoded.
    DecodeError,
    /// Walking the store's directory tree failed.
    TraversalError,
    /// A path does not lie under the store root or does not name a project.
    PathEncodingError,
}

impl StoreError {
    /// A short human-readable description of the error.
    pub fn describe(&self) -> (r: &'static str)
        ensures
            r@.len() > 0,
    {
        proof {
            reveal_strlit("note has an empty value");
            reveal_strlit("project file not found");
            reveal_strlit("can not decode note record");
            reveal_strlit("can not walk the store directory");
            reveal_strlit("path does not name a project in the store");
        }
        match self {
            StoreError::EmptyValue => "note has an empty value",
            StoreError::NotFound => "project file not found",
            StoreError::DecodeError => "can not decode note record",
            StoreError::TraversalError => "can not walk the store directory",
            StoreError::PathEncodingError => "path does not name a project in the store",
        }
    }
}

} // verus!
