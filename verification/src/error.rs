use vstd::prelude::*;

verus! {

/// Errors that may occur when performing operations on a node's child list.
#[derive(Debug, Clone, PartialEq, Eq)]
pub enum NodeError {
    /// The node already contains the specified child index.
    Duplicate {
        /// The duplicate child index.
        child: usize,
    },
}

/// Errors that may occur when converting a byte slice into an [`entry`](crate::entry).
#[derive(Debug, Clone, PartialEq, Eq)]
pub enum EntryError {
    /// The given slice has an invalid length for initializing a hash.
    InvalidByteSliceLength(usize),
}

/// Errors that may occur when constructing or manipulating a [`Tree`](crate::Tree).
#[derive(Debug, Clone, PartialEq, Eq)]
pub enum TreeError {
    /// The tree has no root node.
    MissingRoot,
    /// The designated root node was found to have a parent.
    InvalidRoot(usize),
    /// A cycle was detected in the tree structure.
    CycleDetected,
    /// A node exists in the tree without a parent.
    DisjointNode,
    /// An index was used that is outside the bounds of the tree.
    IndexOutOfBounds {
        /// The out-of-bounds index.
        index: usize,
        /// The number of nodes in the tree.
        len: usize,
    },
    /// Attempted to assign a parent to a node that already has one.
    ParentConflict {
        /// The node that was expected to be the parent.
        expected: usize,
        /// The node that is already the parent.
        parent: usize,
        /// The child node in conflict.
        child: usize,
    },
    /// Could not find a node from the given reference.
    InvalidNodeReference,
    /// An error occurred while operating on a node's child list.
    NodeError(NodeError),
}

/// Errors that may occur when constructing a [`MrkleTree`](crate::MrkleTree) or
/// a [`MrkleProof`](crate::MrkleProof).
#[derive(Debug, Clone, PartialEq, Eq)]
pub enum MrkleError {
    /// A tree-level error.
    TreeError(TreeError),
    /// A proof-level error.
    ProofError(ProofError),
}

/// Errors that may occur when verifying or constructing a Merkle proof.
#[derive(Debug, Clone, PartialEq, Eq)]
pub enum ProofError {
    /// The tree is too small to generate a proof from.
    InvalidSize,
    /// The computed root hash does not match the expected root hash.
    RootHashMismatch {
        /// The expected root hash.
        expected: Vec<u8>,
        /// The computed root hash.
        actual: Vec<u8>,
    },
    /// The target index is not a leaf, so it has no leaf hash.
    ExpectedLeafHash,
    /// A tree-level error.
    TreeError(TreeError),
}

impl ProofError {
    /// Wrap an out-of-bounds access as a proof error.
    pub(crate) fn out_of_bounds(len: usize, index: usize) -> (r: ProofError)
        ensures
            r == ProofError::TreeError(TreeError::IndexOutOfBounds { index, len }),
    {
        ProofError::TreeError(TreeError::IndexOutOfBounds { index, len })
    }
}

} // verus!
