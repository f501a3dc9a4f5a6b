//! Errors the host surface reports to its collaborators.

use vstd::prelude::*;

verus! {

/// Construction and instruction errors surfaced to the surrounding layer.
#[derive(PartialEq, Eq, Structural, Clone, Copy, Debug)]
pub enum HostError {
    /// An account stands in the wrong position or has the wrong owner.
    InvalidArgument,
    /// An account's recorded data contradicts its companions.
    InvalidAccountData,
    /// A required account — or a resolvable effect target — is missing.
    NotEnoughAccountKeys,
    /// A top-level creation could not begin.
    InvalidInstructionData,
}

} // verus!
