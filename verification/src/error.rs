//! Error conditions surfaced by the storage layer.

use vstd::prelude::*;

verus! {

/// Failure conditions of layout planning and of the raw file backend.
#[derive(Clone, Copy, Debug, PartialEq, Eq, Structural)]
pub enum Error {
    /// The capacity cannot hold the superheader plus a minimum viable region,
    /// or a planned region falls below the minimum usable page count.
    OutOfSpace,
    /// The exclusive file lock is already held by another process.
    DatabaseAlreadyOpen,
    /// Any other operating-system failure from mapping, flushing, or locking.
    Io,
}

/// Classifies a failed exclusive-lock acquisition: contention (the OS reported
/// that the lock would block) means the database is already open elsewhere;
/// anything else is an ordinary I/O failure.
pub fn classify_lock_failure(would_block: bool) -> (e: Error)
    ensures
        e == (if would_block {
            Error::DatabaseAlreadyOpen
        } else {
            Error::Io
        }),
{
    if would_block {
        Error::DatabaseAlreadyOpen
    } else {
        Error::Io
    }
}

} // verus!
