//! Integrity checks for append-only files, and a few small command, error and
//! trait definitions that live beside them.
//!
//! The main item is [`checksum_table::ChecksumTable`]: a table of per-chunk
//! xxhash64 checksums kept in a sidecar file next to the data it protects.

mod hash;

pub mod checksum_table;
pub mod dag_ops;
pub mod filesystem;
pub mod hg_errors;
pub mod list_repos;
pub mod refresh_config;
pub mod sidecar;
pub mod treestate_errors;
