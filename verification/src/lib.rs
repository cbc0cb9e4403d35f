//! A content-addressable memoization store.
//!
//! Byte blobs are identified by a deterministic hash of their content, and
//! expression trees (leaves referencing stored blobs, or composite nodes
//! applying a function to arguments) by a deterministic hash of their
//! structure. A memoized recursive evaluator resolves an expression
//! identifier to the blob identifier of its evaluated result.

pub mod hashing;
pub mod laws;
pub mod one_to_many_map;
pub mod store;
