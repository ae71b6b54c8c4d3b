use vstd::prelude::*;

verus! {

/// Failure taxonomy of the index core.
///
/// Every error is reported synchronously to the caller; an empty edge query
/// is "no children / no index entry", never an error.
#[derive(Clone, Copy, Debug, PartialEq, Eq, Structural)]
pub enum IndexError {
    /// The requested identifier is absent from the store.
    NotFound,
    /// Store metadata along a version chain is not record-shaped, or a write
    /// would violate the single-successor invariant.
    MalformedChain,
    /// An entity name is too short to derive a prefix key.
    InvalidName,
    /// A hierarchy build was given a record set that lacks a declared parent.
    DanglingParent,
    /// The secondary edges are in an unexpected shape, such as a parent/child
    /// cycle through the requested hierarchy root.
    IndexCorrupt,
}

impl IndexError {
    /// A short human-readable description of the error.
    pub fn message(&self) -> &'static str {
        match self {
            IndexError::NotFound => "identifier not found in the store",
            IndexError::MalformedChain => "store metadata violates the record chain shape",
            IndexError::InvalidName => "entity name is too short for a prefix key",
            IndexError::DanglingParent => "record set lacks a declared parent record",
            IndexError::IndexCorrupt => "secondary index edges are in an unexpected shape",
        }
    }
}

} // verus!
