//! Errors surfaced by the engine.

use vstd::prelude::*;

verus! {

/// The failure kinds the engine reports to its callers.
#[derive(Clone, Copy, Debug, PartialEq, Eq, Structural)]
pub enum Error {
    /// A concurrent write-write collision on one key; the caller should retry
    /// the whole transaction.
    Serialization,
    /// A write was attempted on a read-only or time-travel transaction.
    ReadOnly,
    /// The key or object addressed does not exist.
    NotFound,
    /// A time-travel snapshot was requested beyond the latest committed
    /// version.
    OutOfRange,
    /// No leader is known, or a write arrived during an election; transient.
    Unavailable,
    /// Log corruption or a storage fault; the node must stop applying.
    Internal,
}

impl Error {
    /// A human-readable description of the failure.
    pub fn message(&self) -> String {
        match self {
            Error::Serialization => "serialization conflict, retry the transaction".to_string(),
            Error::ReadOnly => "the transaction is read-only".to_string(),
            Error::NotFound => "not found".to_string(),
            Error::OutOfRange => "version is beyond the latest committed version".to_string(),
            Error::Unavailable => "no leader is available, retry later".to_string(),
            Error::Internal => "internal engine fault".to_string(),
        }
    }
}

} // verus!
