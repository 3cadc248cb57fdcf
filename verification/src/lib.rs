//! A versioned, cryptographically authenticated key/value state store built
//! on a sparse Merkle tree with path compression: internal nodes exist only
//! where the key space actually branches.
use vstd::prelude::*;

pub mod block_meta;
pub mod hash;
pub mod node;
pub mod store;
pub mod state_tree;
pub mod merkle_proof;
pub mod stree;
pub mod tree;

verus! {

/// Everything that can go wrong in the store.
#[derive(Debug, PartialEq, Eq, Structural, Clone, Copy)]
pub enum StateError {
    /// A referenced node identity could not be resolved: the view is
    /// corrupted or was pruned too early. Never conflated with an absent key.
    MissingNode,
    /// A proof does not reconstruct the claimed root.
    InvalidProof,
    /// A proof's sibling count is inconsistent with the key's implied depth.
    ProofLengthMismatch,
}

} // verus!
