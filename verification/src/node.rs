use crate::error::NodeError;
use vstd::prelude::*;

verus! {

/// Trait for the unsigned integer types usable as raw node indices.
///
/// Conversions are exact whenever the value fits in the target type.
pub trait IndexType: Sized + Copy {
    /// The mathematical value of this index.
    spec fn as_index(self) -> int;

    /// The largest value this index type can hold.
    spec fn max_spec() -> int;

    /// Construct an index from a machine word.
    fn new(x: usize) -> (r: Self)
        ensures
            x as int <= Self::max_spec() ==> r.as_index() == x as int,
    ;

    /// Return the index as a machine word.
    fn index(&self) -> (r: usize)
        ensures
            self.as_index() <= usize::MAX as int ==> r as int == self.as_index(),
    ;

    /// Return the largest value of this index type.
    fn max() -> (r: Self)
        ensures
            r.as_index() == Self::max_spec(),
    ;
}

impl IndexType for usize {
    open spec fn as_index(self) -> int {
        self as int
    }

    open spec fn max_spec() -> int {
        usize::MAX as int
    }

    fn new(x: usize) -> (r: Self) {
        x
    }

    fn index(&self) -> (r: usize) {
        *self
    }

    fn max() -> (r: Self) {
        usize::MAX
    }
}

impl IndexType for u64 {
    open spec fn as_index(self) -> int {
        self as int
    }

    open spec fn max_spec() -> int {
        u64::MAX as int
    }

    fn new(x: usize) -> (r: Self) {
        x as u64
    }

    fn index(&self) -> (r: usize) {
        #[verifier::truncate] (*self as usize)
    }

    fn max() -> (r: Self) {
        u64::MAX
    }
}

impl IndexType for u32 {
    open spec fn as_index(self) -> int {
        self as int
    }

    open spec fn max_spec() -> int {
        u32::MAX as int
    }

    fn new(x: usize) -> (r: Self) {
        #[verifier::truncate] (x as u32)
    }

    fn index(&self) -> (r: usize) {
        *self as usize
    }

    fn max() -> (r: Self) {
        u32::MAX
    }
}

impl IndexType for u16 {
    open spec fn as_index(self) -> int {
        self as int
    }

    open spec fn max_spec() -> int {
        u16::MAX as int
    }

    fn new(x: usize) -> (r: Self) {
        #[verifier::truncate] (x as u16)
    }

    fn index(&self) -> (r: usize) {
        *self as usize
    }

    fn max() -> (r: Self) {
        u16::MAX
    }
}

impl IndexType for u8 {
    open spec fn as_index(self) -> int {
        self as int
    }

    open spec fn max_spec() -> int {
        u8::MAX as int
    }

    fn new(x: usize) -> (r: Self) {
        #[verifier::truncate] (x as u8)
    }

    fn index(&self) -> (r: usize) {
        *self as usize
    }

    fn max() -> (r: Self) {
        u8::MAX
    }
}

/// The node identifier for tree nodes: a cheap, copyable handle into an arena.
///
/// The sentinel value [`NodeIndex::end`] equals the underlying type's maximum
/// and addresses no node.
#[derive(Debug, Clone, Copy, PartialEq, Eq, Hash, Structural)]
pub struct NodeIndex(usize);

impl View for NodeIndex {
    type V = usize;

    closed spec fn view(&self) -> usize {
        self.0
    }
}

impl NodeIndex {
    /// Construct a node index from a machine word.
    pub fn new(x: usize) -> (r: Self)
        ensures
            r@ == x,
    {
        NodeIndex(x)
    }

    /// Return the index as a machine word.
    pub fn index(self) -> (r: usize)
        ensures
            r == self@,
    {
        self.0
    }

    /// The sentinel value: the underlying type's maximum.
    pub fn end() -> (r: Self)
        ensures
            r@ == usize::MAX,
    {
        NodeIndex(usize::MAX)
    }
}

/// The parent slot of a node, as a mathematical value.
pub open spec fn opt_index(p: Option<NodeIndex>) -> Option<usize> {
    match p {
        Some(i) => Some(i@),
        None => None,
    }
}

/// Read-only capabilities of an arena node: a parent slot and an ordered
/// child list, both holding indices into the arena the node lives in.
pub trait Node: Sized {
    /// The parent slot of this node.
    spec fn spec_parent(&self) -> Option<usize>;

    /// The ordered child indices of this node.
    spec fn spec_children(&self) -> Seq<usize>;

    /// Whether two nodes agree on everything but their parent and child links.
    spec fn same_content(&self, other: &Self) -> bool;

    /// `same_content` is reflexive.
    proof fn lemma_same_content_refl(&self)
        ensures
            self.same_content(self),
    ;

    /// `same_content` is transitive.
    proof fn lemma_same_content_trans(&self, b: &Self, c: &Self)
        requires
            self.same_content(b),
            b.same_content(c),
        ensures
            self.same_content(c),
    ;

    /// Return the parent if there is one.
    fn parent(&self) -> (p: Option<NodeIndex>)
        ensures
            opt_index(p) == self.spec_parent(),
    ;

    /// Return the children of this node.
    fn children(&self) -> (c: Vec<NodeIndex>)
        ensures
            c@.map_values(|i: NodeIndex| i@) == self.spec_children(),
    ;

    /// Whether the node has no children.
    fn is_leaf(&self) -> (r: bool)
        ensures
            r <==> self.spec_children().len() == 0,
    {
        let c = self.children();
        c.len() == 0
    }

    /// Whether the node has no parent.
    fn is_root(&self) -> (r: bool)
        ensures
            r <==> self.spec_parent() is None,
    {
        self.parent().is_none()
    }

    /// The number of children.
    fn child_count(&self) -> (r: usize)
        ensures
            r == self.spec_children().len(),
    {
        let c = self.children();
        c.len()
    }

    /// The child at the given position, if any.
    fn child_at(&self, index: usize) -> (r: Option<NodeIndex>)
        ensures
            match r {
                Some(c) => index < self.spec_children().len() && c@ == self.spec_children()[index as int],
                None => index >= self.spec_children().len(),
            },
    {
        let c = self.children();
        if index < c.len() {
            Some(c[index])
        } else {
            None
        }
    }

    /// Whether the node lists the given index among its children.
    fn contains(&self, node: &NodeIndex) -> (r: bool)
        ensures
            r <==> self.spec_children().contains(node@),
    {
        let c = self.children();
        let n = c.len();
        let ghost cs = self.spec_children();
        for i in 0..n
            invariant
                n == c@.len(),
                cs == self.spec_children(),
                cs == c@.map_values(|x: NodeIndex| x@),
                forall|j: int| 0 <= j < i ==> cs[j] != node@,
        {
            if c[i].index() == node.index() {
                proof {
                    assert(cs[i as int] == node@);
                    assert(cs.contains(node@)) by {
                        assert(0 <= i < cs.len() && cs[i as int] == node@);
                    }
                }
                return true;
            }
        }
        proof {
            assert(forall|j: int| 0 <= j < cs.len() ==> cs[j] != node@);
        }
        false
    }
}

/// Mutable capabilities of an arena node, complementing [`Node`].
pub trait MutNode: Node {
    /// Set the parent slot.
    fn set_parent(&mut self, parent: NodeIndex)
        ensures
            final(self).spec_parent() == Some(parent@),
            final(self).spec_children() == old(self).spec_children(),
            final(self).same_content(old(self)),
    ;

    /// Clear and return the parent slot.
    fn take_parent(&mut self) -> (r: Option<NodeIndex>)
        ensures
            final(self).spec_parent() is None,
            final(self).spec_children() == old(self).spec_children(),
            final(self).same_content(old(self)),
            opt_index(r) == old(self).spec_parent(),
    ;

    /// Append a child, failing on a duplicate.
    fn try_push(&mut self, child: NodeIndex) -> (r: Result<(), NodeError>)
        ensures
            match r {
                Ok(()) => !old(self).spec_children().contains(child@) && final(self).spec_children() == old(self).spec_children().push(child@) && final(self).spec_parent() == old(self).spec_parent() && final(self).same_content(old(self)),
                Err(e) => old(self).spec_children().contains(child@) && e
                    == (NodeError::Duplicate { child: child@ }) && *final(self) == *old(self),
            },
    ;

    /// Append a child that is not yet present.
    fn push(&mut self, child: NodeIndex)
        requires
            !old(self).spec_children().contains(child@),
        ensures
            final(self).spec_children() == old(self).spec_children().push(child@),
            final(self).spec_parent() == old(self).spec_parent(),
            final(self).same_content(old(self)),
    {
        match self.try_push(child) {
            Ok(()) => (),
            Err(_) => {
                proof {
                    assert(false);
                }
            },
        }
    }

    /// Remove and return the last child, if any.
    fn pop(&mut self) -> (r: Option<NodeIndex>)
        ensures
            final(self).spec_parent() == old(self).spec_parent(),
            final(self).same_content(old(self)),
            match r {
                Some(c) => old(self).spec_children().len() > 0 && c@ == old(self).spec_children().last() && final(self).spec_children() == old(self).spec_children().drop_last(),
                None => old(self).spec_children().len() == 0 && final(self).spec_children() == old(self).spec_children(),
            },
    ;

    /// Insert a child at the given position.
    fn insert(&mut self, index: usize, child: NodeIndex)
        requires
            index <= old(self).spec_children().len(),
        ensures
            final(self).spec_children() == old(self).spec_children().insert(index as int, child@),
            final(self).spec_parent() == old(self).spec_parent(),
            final(self).same_content(old(self)),
    ;

    /// Remove and return the child at the given position.
    fn remove(&mut self, index: usize) -> (r: NodeIndex)
        requires
            index < old(self).spec_children().len(),
        ensures
            r@ == old(self).spec_children()[index as int],
            final(self).spec_children() == old(self).spec_children().remove(index as int),
            final(self).spec_parent() == old(self).spec_parent(),
            final(self).same_content(old(self)),
    ;

    /// Remove the first occurrence of the given child by swapping in the last
    /// child; return whether it was present.
    fn remove_item(&mut self, child: NodeIndex) -> (r: bool)
        ensures
            final(self).spec_parent() == old(self).spec_parent(),
            final(self).same_content(old(self)),
            r <==> old(self).spec_children().contains(child@),
            r ==> {
                let cs = old(self).spec_children();
                let j = cs.index_of_first(child@)->Some_0;
                final(self).spec_children() == cs.update(j, cs.last()).drop_last()
            },
            !r ==> final(self).spec_children() == old(self).spec_children(),
    ;

    /// Swap the children at the two given positions.
    fn swap(&mut self, a: usize, b: usize)
        requires
            a < old(self).spec_children().len(),
            b < old(self).spec_children().len(),
        ensures
            ({
                let cs = old(self).spec_children();
                final(self).spec_children() == cs.update(a as int, cs[b as int]).update(
                    b as int,
                    cs[a as int],
                )
            }),
            final(self).spec_parent() == old(self).spec_parent(),
            final(self).same_content(old(self)),
    ;

    /// Detach all children, returning them in order.
    fn clear(&mut self) -> (r: Vec<NodeIndex>)
        ensures
            final(self).spec_children().len() == 0,
            r@.map_values(|i: NodeIndex| i@) == old(self).spec_children(),
            final(self).spec_parent() == old(self).spec_parent(),
            final(self).same_content(old(self)),
    ;

    /// The capacity of the child list; by default its length.
    fn capacity(&self) -> (r: usize)
        ensures
            r >= self.spec_children().len(),
    {
        self.child_count()
    }
}

/// A plain arena node: a payload value plus parent and child links.
#[derive(Debug, Clone, PartialEq, Eq)]
pub struct BasicNode<T> {
    /// The payload carried by this node.
    pub value: T,
    /// The parent of this node, if any.
    pub parent: Option<NodeIndex>,
    /// The children of this node, as indices into the owning arena.
    pub children: Vec<NodeIndex>,
}

impl<T> BasicNode<T> {
    /// A fresh node with no parent and no children.
    pub fn new(value: T) -> (r: Self)
        ensures
            r.value == value,
            r.parent is None,
            r.children@.len() == 0,
    {
        BasicNode { value, parent: None, children: Vec::new() }
    }

    /// A fresh childless node whose parent slot is already set.
    pub fn new_with_parent_index(value: T, parent: NodeIndex) -> (r: Self)
        ensures
            r.value == value,
            r.parent == Some(parent),
            r.children@.len() == 0,
    {
        BasicNode { value, parent: Some(parent), children: Vec::new() }
    }
}

impl<T> Node for BasicNode<T> {
    open spec fn spec_parent(&self) -> Option<usize> {
        opt_index(self.parent)
    }

    open spec fn spec_children(&self) -> Seq<usize> {
        self.children@.map_values(|i: NodeIndex| i@)
    }

    open spec fn same_content(&self, other: &Self) -> bool {
        self.value == other.value
    }

    proof fn lemma_same_content_refl(&self) {
    }

    proof fn lemma_same_content_trans(&self, b: &Self, c: &Self) {
    }

    fn parent(&self) -> (p: Option<NodeIndex>) {
        self.parent
    }

    fn children(&self) -> (c: Vec<NodeIndex>) {
        let r = self.children.clone();
        proof {
            assert(r@.map_values(|i: NodeIndex| i@) =~= self.spec_children());
        }
        r
    }
}

impl<T> MutNode for BasicNode<T> {
    fn set_parent(&mut self, parent: NodeIndex) {
        self.parent = Some(parent);
    }

    fn take_parent(&mut self) -> (r: Option<NodeIndex>) {
        let r = self.parent;
        self.parent = None;
        r
    }

    fn try_push(&mut self, child: NodeIndex) -> (r: Result<(), NodeError>) {
        if self.contains(&child) {
            return Err(NodeError::Duplicate { child: child.index() });
        }
        self.children.push(child);
        proof {
            assert(self.spec_children() =~= old(self).spec_children().push(child@));
        }
        Ok(())
    }

    fn pop(&mut self) -> (r: Option<NodeIndex>) {
        let r = self.children.pop();
        proof {
            if old(self).children@.len() > 0 {
                assert(self.spec_children() =~= old(self).spec_children().drop_last());
            }
        }
        r
    }

    fn insert(&mut self, index: usize, child: NodeIndex) {
        self.children.insert(index, child);
        proof {
            assert(self.spec_children() =~= old(self).spec_children().insert(
                index as int,
                child@,
            ));
        }
    }

    fn remove(&mut self, index: usize) -> (r: NodeIndex) {
        let r = self.children.remove(index);
        proof {
            assert(self.spec_children() =~= old(self).spec_children().remove(index as int));
        }
        r
    }

    fn remove_item(&mut self, child: NodeIndex) -> (r: bool) {
        let ghost cs = old(self).spec_children();
        let n = self.children.len();
        let mut pos: usize = 0;
        let mut found = false;
        for i in 0..n
            invariant
                n == self.children@.len(),
                *self == *old(self),
                cs == self.spec_children(),
                !found ==> forall|j: int| 0 <= j < i ==> cs[j] != child@,
                found ==> pos < i && cs[pos as int] == child@ && (forall|j: int|
                    0 <= j < pos ==> cs[j] != child@),
        {
            if !found && self.children[i].index() == child.index() {
                proof {
                    assert(cs[i as int] == child@);
                }
                pos = i;
                found = true;
            }
        }
        if found {
            let r = self.children.swap_remove(pos);
            proof {
                cs.index_of_first_ensures(child@);
                assert(cs[pos as int] == child@);
                assert(cs.index_of_first(child@) == Some(pos as int));
                assert(self.spec_children() =~= cs.update(pos as int, cs.last()).drop_last());
            }
            true
        } else {
            proof {
                assert(forall|j: int| 0 <= j < cs.len() ==> cs[j] != child@);
            }
            false
        }
    }

    fn swap(&mut self, a: usize, b: usize) {
        let ghost cs = old(self).spec_children();
        let va = self.children[a];
        let vb = self.children[b];
        self.children.set(a, vb);
        self.children.set(b, va);
        proof {
            assert(self.spec_children() =~= cs.update(a as int, cs[b as int]).update(
                b as int,
                cs[a as int],
            ));
        }
    }

    fn clear(&mut self) -> (r: Vec<NodeIndex>) {
        let r = self.children.split_off(0);
        proof {
            assert(r@ =~= old(self).children@);
            assert(self.spec_children() =~= Seq::<usize>::empty());
        }
        r
    }
}

} // verus!
