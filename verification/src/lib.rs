//! Content-addressable object model for a version-control tool: immutable,
//! hash-identified storage of file content (blobs) and directory snapshots
//! (trees), organized as a Merkle tree over a deduplicating object store.
use vstd::prelude::*;

pub mod hashing;
pub mod store;
pub mod blob;
pub mod codec;
pub mod tree;

verus! {

/// The error conditions of the object model. None of them is recovered
/// locally: every failure aborts the enclosing operation.
#[derive(Clone, Copy, Debug, PartialEq, Eq, Structural)]
pub enum ObjectError {
    /// A load asked for a hash that the store does not hold.
    StoreMiss,
    /// Stored content that should be a tree's entry list does not parse.
    FormatError,
    /// The store already holds different content under the hash of the
    /// content being saved: the collision-resistance assumption failed.
    HashMismatch,
}

} // verus!
