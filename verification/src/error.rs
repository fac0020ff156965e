//! The failures that the engine reports, and how far each one reaches.

use vstd::prelude::*;

verus! {

/// Why an operation was refused or did not finish.
#[derive(Clone, Copy, Debug, PartialEq, Eq, Structural)]
pub enum Error {
    /// A region is already present where one was to be created.
    AlreadyExists,
    /// The region parameters are malformed.
    InvalidDefinition,
    /// The stored definition differs from the one the caller expects.
    DefinitionMismatch,
    /// The stored extent metadata contradicts itself.
    CorruptMetadata,
    /// The request names blocks or extents that the region does not have.
    OutOfBounds,
    /// A mutating operation reached a read-only region.
    ReadOnlyRegion,
    /// The storage underneath failed.
    IoFailure,
    /// A live repair could not proceed.
    RepairFailed,
}

/// How far the damage of a failure reaches.
#[derive(Clone, Copy, Debug, PartialEq, Eq, Structural)]
pub enum Severity {
    /// Only the job that failed is affected.
    Job,
    /// The connection that issued the job must be torn down.
    Connection,
    /// The process must stop: durability can no longer be promised.
    Process,
}

} // verus!
