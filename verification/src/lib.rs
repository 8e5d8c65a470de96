//! Merkle trees and Merkle inclusion proofs over a flat, index-addressed
//! tree arena, generic over the digest algorithm.

/// Error types for trees, nodes, entries and proofs.
pub mod error;

/// Digest entries and their hexadecimal rendering.
pub mod entry;

/// Node indices and the node capability traits.
pub mod node;

/// Digest algorithms and the hashing adapter.
pub mod hasher;

/// Ordered traversals over digest entries.
pub mod iter;

/// The flat, index-addressed tree arena.
pub mod tree;

/// Merkle nodes and the Merkle tree builder.
pub mod merkle;

/// Merkle inclusion proofs: generation, filling, validation.
pub mod merkle_proof;

/// The wire format for proofs in transit.
pub mod codec;

pub use entry::HexDisplay;
pub use error::{EntryError, MrkleError, NodeError, ProofError, TreeError};
pub use hasher::{HashAlg, MrkleHasher};
pub use iter::{BreadthOrder, OrderTraversal, Orderedentry, PostOrder};
pub use node::{BasicNode, IndexType, MutNode, Node, NodeIndex};
pub use merkle::{MrkleNode, MrkleTree, Payload};
pub use merkle_proof::{MrkleProof, MrkleProofNode};
pub use tree::{Iter, IterIdx, Tree, TreeView};
