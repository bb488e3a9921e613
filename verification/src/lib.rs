//! Content-addressed, deduplicating, encrypted backup repository.
//!
//! A named backup is split into variable-sized chunks by a content-defined
//! rolling hash; each unique chunk is stored once under the SHA-256 of its
//! plaintext, compressed and sealed to the repository's public key.  A
//! recursive index of digests reduces every backup to a single 32-byte root.

pub mod chunker;
pub mod compress;
pub mod envelope;
pub mod error;
pub mod hex;
pub mod repo;
pub mod rolling;
pub mod sha;
pub mod store;
