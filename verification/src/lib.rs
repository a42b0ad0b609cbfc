//! A content-addressable object store: framing and hashing of typed payloads,
//! a compressed store keyed by object id, and directory snapshots as tree
//! objects.
//!
//! The store lives in memory. A program that keeps its objects on disk reads
//! records into an [`store::ObjectStore`] and writes its records out again.

pub mod error;
pub mod scan;
pub mod digits;
pub mod order;
pub mod hexcode;
pub mod hash;
pub mod codec;
pub mod frame;
pub mod store;
pub mod tree;
pub mod snapshot;
pub mod listing;
