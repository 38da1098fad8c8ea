use vstd::prelude::*;

verus! {

/// What can go wrong in a storage operation.
#[derive(Debug, Clone, Copy, PartialEq, Eq, Structural)]
pub enum StoreError {
    /// The client addressed a path outside the sandbox.
    PathEscape,
    /// The address resolves to nothing.
    NotFound,
    /// A required field is missing or malformed.
    BadRequest,
    /// An unexpected failure, reported without detail.
    Internal,
}

} // verus!
