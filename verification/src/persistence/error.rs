//! Errors the persistence store can report.

use vstd::prelude::*;

verus! {

/// Failure of a store operation.
#[derive(Clone, Copy, Debug, PartialEq, Eq, Structural)]
pub enum PersistenceError {
    /// An insert collided with an existing deployment id.
    DuplicateId,
    /// The running deployment selected for an address lookup has no bound
    /// address to convert.
    MissingAddress,
}

} // verus!
