//! The error kinds of the library: failures of the outside collaborators
//! (the version-control tool, the storage directory) as surfaced to
//! callers. The scoring engine itself is total and raises none of these.

use vstd::prelude::*;

verus! {

/// What went wrong, by kind.
#[derive(Debug, Clone, Copy, PartialEq, Eq, Structural)]
pub enum LottoError {
    /// The version-control executable could not be located or invoked.
    GitNotPresent,
    /// The version-control operation ran but reported failure.
    GitFailed,
    /// Resolving, locking, reading, writing or decoding the ledger's
    /// backing store failed.
    ApplicationDirError,
}

} // verus!
