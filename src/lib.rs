//! Content-addressed, immutable tree storage with git-like history.
//!
//! Every version of a hierarchical key/value dataset is a graph of hashed
//! entries (blobs, trees and commits). Entries are staged while a version is
//! edited and flushed to a hash-keyed backing store on commit.
pub mod codec;
pub mod entry;
pub mod hash;
pub mod guarantees;
pub mod merkle_storage;
pub mod model;
pub mod store;
pub mod tree;
