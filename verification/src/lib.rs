//! A schema-aware record layer over an ordered, transactional key-value
//! store.
//!
//! User-defined record types become tenant-scoped, indexable rows stored
//! under ordered byte keys.  The crate provides:
//!
//! * a key codec whose lexicographic byte ordering matches the logical
//!   ordering of the embedded typed value,
//! * a record codec projecting records onto padded, field-numbered value
//!   vectors with a stable binary serialization,
//! * index maintenance that keeps secondary index entries in step with the
//!   stored row,
//! * a compiler from index queries to byte ranges, and
//! * a blob sharder that stores large payloads as contiguous runs of keys.
//!
//! The store itself is a collaborator reached through a thin driver; the
//! decisions of every operation are made here, as verified functions from
//! plain values to plain values.

use vstd::prelude::*;

pub mod blobstore;
pub mod byteorder;
pub mod corpus;
pub mod deserialize;
pub mod error;
pub mod key;
pub mod kvs;
pub mod record;
pub mod rowid;
pub mod transaction;
pub mod values_indices;

verus! {

} // verus!
