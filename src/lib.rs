//! Verified core of a backup synchronizer: the framing of an encrypted byte
//! stream into size-bounded sub-streams, the planning of a sync between local
//! and cloud backup groups, the catalog of backups on a provider, the
//! lifecycle decisions of the encryptor stage and the error handling of the
//! HTTP transport.

pub mod encryptor;
pub mod names;
pub mod provider;
pub mod splitter;
pub mod storage;
pub mod sync;
pub mod transport;
