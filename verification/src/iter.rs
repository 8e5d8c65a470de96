use crate::entry::entry;
use crate::merkle::MrkleTree;
use crate::node::{Node, NodeIndex};
use vstd::prelude::*;

verus! {

/// A traversal strategy over a Merkle tree: a rule that arranges the node
/// indices in some visiting order.
pub trait OrderTraversal: Sized + Copy {
    /// The indices the order yields, as a mathematical value.
    spec fn spec_order(&self, tree: &MrkleTree) -> Seq<usize>;

    /// Arrange the node indices of `tree` in this order.
    fn arrange(&self, tree: &MrkleTree) -> (r: Vec<NodeIndex>)
        requires
            tree.wf(),
        ensures
            r@.map_values(|i: NodeIndex| i@) == self.spec_order(tree),
            forall|k: int| 0 <= k < r@.len() ==> #[trigger] r@[k]@ < tree.spec_len(),
    ;
}

/// Children-before-parents order: every node is visited after all of its
/// children. In the builder's arenas, ascending index order has exactly this
/// property, since children always sit below their parent.
#[derive(Debug, Clone, Copy)]
pub struct PostOrder;

/// Level-by-level order from the root downwards, children in stored order.
#[derive(Debug, Clone, Copy)]
pub struct BreadthOrder;

impl OrderTraversal for PostOrder {
    open spec fn spec_order(&self, tree: &MrkleTree) -> Seq<usize> {
        Seq::new(tree.spec_len(), |k: int| k as usize)
    }

    fn arrange(&self, tree: &MrkleTree) -> (r: Vec<NodeIndex>) {
        let n = tree.len();
        let mut r: Vec<NodeIndex> = Vec::new();
        for k in 0..n
            invariant
                r@.len() == k,
                forall|t: int| 0 <= t < k ==> #[trigger] r@[t]@ == t,
                n == tree.spec_len(),
        {
            r.push(NodeIndex::new(k));
        }
        proof {
            assert(r@.map_values(|i: NodeIndex| i@) =~= self.spec_order(tree));
        }
        r
    }
}

impl OrderTraversal for BreadthOrder {
    open spec fn spec_order(&self, tree: &MrkleTree) -> Seq<usize> {
        if tree.spec_len() == 0 {
            Seq::empty()
        } else {
            crate::tree::bfs_order(
                Seq::new(tree.spec_len(), |k: int| tree.spec_nodes()[k].spec_children()),
                (tree.spec_len() - 1) as usize,
            )
        }
    }

    fn arrange(&self, tree: &MrkleTree) -> (r: Vec<NodeIndex>) {
        let order = tree.traversal_indices();
        proof {
            assert(order@.map_values(|i: NodeIndex| i@) =~= self.spec_order(tree));
        }
        order
    }
}

/// An iterator over digest entries arranged in some traversal order,
/// supporting reset and position queries.
pub struct Orderedentry<'a> {
    /// Current position in the iteration.
    index: usize,
    /// The ordered entries being walked.
    entries: &'a Vec<entry>,
}

impl<'a> Orderedentry<'a> {
    /// The ordered digests being walked.
    pub closed spec fn spec_entries(&self) -> Seq<entry> {
        self.entries@
    }

    /// The current position.
    pub closed spec fn spec_index(&self) -> nat {
        self.index as nat
    }

    /// Creates an iterator over entries in the given traversal order,
    /// positioned at the beginning.
    pub fn new(entries: &'a Vec<entry>) -> (r: Self)
        ensures
            r.spec_entries() == entries@,
            r.spec_index() == 0,
    {
        Orderedentry { index: 0, entries }
    }

    /// Resets the iterator to the beginning of the traversal.
    pub fn reset(&mut self)
        ensures
            final(self).spec_entries() == old(self).spec_entries(),
            final(self).spec_index() == 0,
    {
        self.index = 0;
    }

    /// The zero-based position of the next entry to yield.
    pub fn current_position(&self) -> (r: usize)
        ensures
            r == self.spec_index(),
    {
        self.index
    }

    /// The total number of entries in this ordered traversal.
    pub fn len(&self) -> (r: usize)
        ensures
            r == self.spec_entries().len(),
    {
        self.entries.len()
    }

    /// Whether the traversal contains no entries.
    pub fn is_empty(&self) -> (r: bool)
        ensures
            r <==> self.spec_entries().len() == 0,
    {
        self.entries.len() == 0
    }

    /// The number of entries remaining to iterate over.
    pub fn remaining(&self) -> (r: usize)
        ensures
            r == if self.spec_index() <= self.spec_entries().len() {
                self.spec_entries().len() - self.spec_index()
            } else {
                0
            },
    {
        if self.index <= self.entries.len() {
            self.entries.len() - self.index
        } else {
            0
        }
    }

    /// Advances the iterator and returns the next entry, if any.
    pub fn next(&mut self) -> (r: Option<&'a entry>)
        ensures
            final(self).spec_entries() == old(self).spec_entries(),
            match r {
                Some(e) => old(self).spec_index() < old(self).spec_entries().len() && *e == old(self).spec_entries()[old(self).spec_index() as int] && final(self).spec_index() == old(self).spec_index() + 1,
                None => old(self).spec_index() >= old(self).spec_entries().len() && final(self).spec_index() == old(self).spec_index(),
            },
    {
        if self.index < self.entries.len() {
            let e = &self.entries[self.index];
            self.index = self.index + 1;
            Some(e)
        } else {
            None
        }
    }
}

} // verus!
