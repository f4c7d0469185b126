//! Generation-scoped replication of a write-ahead log to an object store,
//! with a verified core: frame accounting, batch planning and encoding,
//! generation identifiers, object-key construction, and the restore planner.

pub mod codec;
pub mod encoding;
pub mod error;
pub mod generation;
pub mod keys;
pub mod meta;
pub mod namespace;
pub mod replicator;
pub mod restore;
pub mod store;
pub mod wal;
