//! Failure signal shared by every storage backend.

use vstd::prelude::*;

verus! {

/// A backend-level failure returned by fallible storage operations.
///
/// A single kind covers any backend failure (for instance an I/O fault in a
/// disk-backed implementation). The in-memory backend never produces one; the
/// error channel exists so that every backend presents the same fallible
/// interface.
#[derive(Clone, Copy, Debug, PartialEq, Eq, Structural)]
pub enum StorageError {
    Backend,
}

impl StorageError {
    /// A short human-readable description of the failure.
    pub fn message(&self) -> (r: &'static str)
        ensures
            r@ =~= "storage backend failure"@,
    {
        "storage backend failure"
    }
}

} // verus!
