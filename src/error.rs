use vstd::prelude::*;

verus! {

/// Recoverable errors of the client collections.
#[derive(Debug, Clone, Copy, PartialEq, Eq, Structural)]
pub enum Client {
    /// The operation named a client that is not present.
    Missing,
    /// A reorder named clients that do not make up the current membership.
    Additional,
    /// The client is already present.
    Duplicate,
}

} // verus!
