//! A minimal embedded document store backed by a fixed-page-size image.
//!
//! Documents are field-name → serialized-value-byte maps. Their encoded
//! bytes are split across fixed-size pages ("spans"); freed pages are
//! tracked in a free list and reused; secondary equality indices map
//! field values to the documents currently holding them.
//!
//! The store operates on an in-memory page image. Loading that image from
//! a file and writing it back is left to the embedding program; the store
//! itself gives no crash-consistency guarantee: a caller that persists the
//! image between operations can observe a prefix of the page writes of an
//! interrupted operation.

pub mod pager;
pub mod query;
