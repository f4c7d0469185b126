//! The error kinds the replicator reports, and where each one arises.

use vstd::prelude::*;

verus! {

/// Everything that can go wrong while replicating or restoring.
#[derive(Clone, Copy, Debug, PartialEq, Eq, Structural)]
pub enum ReplicationError {
    /// The object store could not serve a request; the flush retries later.
    ObjectStoreUnavailable,
    /// The bucket does not exist and creating it is not enabled.
    BucketMissing,
    /// The WAL file is missing while frames are pending.
    WalAbsent,
    /// The WAL header or a frame does not parse.
    WalMalformed,
    /// A page size was already set and a different one arrived.
    PageSizeConflict,
    /// A frame's checksum does not continue the chain during restore.
    CrcMismatch,
    /// An object key under the generation prefix has no readable frame number.
    KeyUnparseable,
    /// A batch key lies past the last consistent frame.
    RangeBeyondConsistent,
    /// The flush trigger was dropped while a flush was in progress.
    ShutdownRace,
    /// A namespace name is empty.
    InvalidNamespace,
}

impl ReplicationError {
    /// A short, fixed description of the error kind.
    pub fn describe(&self) -> &'static str {
        match self {
            ReplicationError::ObjectStoreUnavailable => "object store unavailable",
            ReplicationError::BucketMissing => "bucket does not exist",
            ReplicationError::WalAbsent => "WAL file not found",
            ReplicationError::WalMalformed => "malformed WAL header or frame",
            ReplicationError::PageSizeConflict => "page size was already set to a different value",
            ReplicationError::CrcMismatch => "frame checksum mismatch",
            ReplicationError::KeyUnparseable => "object key has no frame number",
            ReplicationError::RangeBeyondConsistent => "batch lies past the last consistent frame",
            ReplicationError::ShutdownRace => "shut down while flushing",
            ReplicationError::InvalidNamespace => "namespace names may not be empty",
        }
    }
}

} // verus!
