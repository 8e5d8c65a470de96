use crate::error::NodeError;
use crate::hasher::{concat_bytes, digest_of, output_len, HashAlg, MrkleHasher};
use crate::node::{opt_index, MutNode, Node, NodeIndex};
use crate::tree::Tree;
use vstd::prelude::*;

verus! {

/// The contents of a Merkle node: either an original payload (a leaf) or
/// nothing (an internal node, whose digest is derived from its children).
#[derive(Debug, Clone, PartialEq, Eq)]
pub enum Payload<T> {
    /// A leaf node containing a payload value.
    Leaf(T),
    /// An internal node with no direct payload.
    Internal,
}

impl<T> Payload<T> {
    /// Whether this payload belongs to a leaf.
    pub fn is_leaf(&self) -> (r: bool)
        ensures
            r <==> self is Leaf,
    {
        match self {
            Payload::Leaf(_) => true,
            Payload::Internal => false,
        }
    }
}

/// A node of a Merkle tree: a payload slot, parent and child links, and the
/// digest of this node's subtree.
#[derive(Debug, Clone)]
pub struct MrkleNode {
    /// The payload: bytes for a leaf, nothing for an internal node.
    pub(crate) payload: Payload<Vec<u8>>,
    /// The parent of this node, if any.
    pub(crate) parent: Option<NodeIndex>,
    /// The children of this node, in hashing order.
    pub(crate) children: Vec<NodeIndex>,
    /// The digest of this node's payload (leaf) or of its children's
    /// concatenated digests (internal).
    pub(crate) hash: Vec<u8>,
}

impl MrkleNode {
    /// The digest stored on this node.
    pub closed spec fn spec_hash(&self) -> Seq<u8> {
        self.hash@
    }

    /// The payload stored on this node.
    pub closed spec fn spec_payload(&self) -> Payload<Vec<u8>> {
        self.payload
    }

    /// Build a leaf node by hashing the payload with the given algorithm.
    pub fn leaf(alg: HashAlg, payload: Vec<u8>) -> (r: Self)
        ensures
            r.spec_payload() == Payload::Leaf(payload),
            r.spec_hash() == digest_of(alg, payload@),
            r.spec_hash().len() == output_len(alg),
            r.spec_parent() is None,
            r.spec_children().len() == 0,
    {
        let hash = MrkleHasher::digest(alg, payload.as_slice());
        MrkleNode { payload: Payload::Leaf(payload), parent: None, children: Vec::new(), hash }
    }

    /// Build a leaf node using an already-constructed hasher.
    pub fn from_hasher(payload: Vec<u8>, hasher: &MrkleHasher) -> (r: Self)
        ensures
            r.spec_payload() == Payload::Leaf(payload),
            r.spec_hash() == digest_of(hasher.spec_alg(), payload@),
            r.spec_hash().len() == output_len(hasher.spec_alg()),
            r.spec_parent() is None,
            r.spec_children().len() == 0,
    {
        let hash = hasher.hash(payload.as_slice());
        MrkleNode { payload: Payload::Leaf(payload), parent: None, children: Vec::new(), hash }
    }

    /// Build an internal node from its children and their combined digest.
    pub fn internal(children: Vec<NodeIndex>, hash: Vec<u8>) -> (r: Self)
        ensures
            r.spec_payload() == Payload::Internal::<Vec<u8>>,
            r.spec_hash() == hash@,
            r.spec_parent() is None,
            r.spec_children() == children@.map_values(|i: NodeIndex| i@),
    {
        MrkleNode { payload: Payload::Internal, parent: None, children, hash }
    }

    /// A reference to the digest stored on this node.
    pub fn hash(&self) -> (r: &Vec<u8>)
        ensures
            r@ == self.spec_hash(),
    {
        &self.hash
    }

    /// A reference to the payload slot of this node.
    pub fn payload(&self) -> (r: &Payload<Vec<u8>>)
        ensures
            *r == self.spec_payload(),
    {
        &self.payload
    }
}

impl Node for MrkleNode {
    closed spec fn spec_parent(&self) -> Option<usize> {
        opt_index(self.parent)
    }

    closed spec fn spec_children(&self) -> Seq<usize> {
        self.children@.map_values(|i: NodeIndex| i@)
    }

    closed spec fn same_content(&self, other: &Self) -> bool {
        self.payload == other.payload && self.hash@ == other.hash@
    }

    proof fn lemma_same_content_refl(&self) {
    }

    proof fn lemma_same_content_trans(&self, b: &Self, c: &Self) {
    }

    fn parent(&self) -> (p: Option<NodeIndex>) {
        self.parent
    }

    fn children(&self) -> (c: Vec<NodeIndex>) {
        let r = self.children.clone();
        proof {
            assert(r@.map_values(|i: NodeIndex| i@) =~= self.spec_children());
        }
        r
    }
}

impl MutNode for MrkleNode {
    fn set_parent(&mut self, parent: NodeIndex) {
        self.parent = Some(parent);
    }

    fn take_parent(&mut self) -> (r: Option<NodeIndex>) {
        let r = self.parent;
        self.parent = None;
        r
    }

    fn try_push(&mut self, child: NodeIndex) -> (r: Result<(), NodeError>) {
        if self.contains(&child) {
            return Err(NodeError::Duplicate { child: child.index() });
        }
        self.children.push(child);
        proof {
            assert(self.spec_children() =~= old(self).spec_children().push(child@));
        }
        Ok(())
    }

    fn pop(&mut self) -> (r: Option<NodeIndex>) {
        let r = self.children.pop();
        proof {
            if old(self).children@.len() > 0 {
                assert(self.spec_children() =~= old(self).spec_children().drop_last());
            }
        }
        r
    }

    fn insert(&mut self, index: usize, child: NodeIndex) {
        self.children.insert(index, child);
        proof {
            assert(self.spec_children() =~= old(self).spec_children().insert(
                index as int,
                child@,
            ));
        }
    }

    fn remove(&mut self, index: usize) -> (r: NodeIndex) {
        let r = self.children.remove(index);
        proof {
            assert(self.spec_children() =~= old(self).spec_children().remove(index as int));
        }
        r
    }

    fn remove_item(&mut self, child: NodeIndex) -> (r: bool) {
        let ghost cs = old(self).spec_children();
        let n = self.children.len();
        let mut pos: usize = 0;
        let mut found = false;
        for i in 0..n
            invariant
                n == self.children@.len(),
                *self == *old(self),
                cs == self.spec_children(),
                !found ==> forall|j: int| 0 <= j < i ==> cs[j] != child@,
                found ==> pos < i && cs[pos as int] == child@ && (forall|j: int|
                    0 <= j < pos ==> cs[j] != child@),
        {
            if !found && self.children[i].index() == child.index() {
                proof {
                    assert(cs[i as int] == child@);
                }
                pos = i;
                found = true;
            }
        }
        if found {
            let r = self.children.swap_remove(pos);
            proof {
                cs.index_of_first_ensures(child@);
                assert(cs[pos as int] == child@);
                assert(cs.index_of_first(child@) == Some(pos as int));
                assert(self.spec_children() =~= cs.update(pos as int, cs.last()).drop_last());
            }
            true
        } else {
            proof {
                assert(forall|j: int| 0 <= j < cs.len() ==> cs[j] != child@);
            }
            false
        }
    }

    fn swap(&mut self, a: usize, b: usize) {
        let ghost cs = old(self).spec_children();
        let va = self.children[a];
        let vb = self.children[b];
        self.children.set(a, vb);
        self.children.set(b, va);
        proof {
            assert(self.spec_children() =~= cs.update(a as int, cs[b as int]).update(
                b as int,
                cs[a as int],
            ));
        }
    }

    fn clear(&mut self) -> (r: Vec<NodeIndex>) {
        let r = self.children.split_off(0);
        proof {
            assert(r@ =~= old(self).children@);
            assert(self.spec_children() =~= Seq::<usize>::empty());
        }
        r
    }
}

/// Folding a queue of digests: repeatedly take the two front digests, hash
/// their concatenation, and push the result at the back; the survivor is the
/// root digest.
pub open spec fn hash_queue_fold(alg: HashAlg, q: Seq<Seq<u8>>) -> Seq<u8>
    decreases q.len(),
{
    if q.len() == 0 {
        Seq::empty()
    } else if q.len() == 1 {
        q[0]
    } else {
        hash_queue_fold(alg, q.subrange(2, q.len() as int).push(digest_of(alg, q[0] + q[1])))
    }
}

/// The root digest of the Merkle tree over the given payloads: a single leaf
/// is wrapped once, two or more leaves are folded pairwise front-to-back.
pub open spec fn merkle_root_spec(alg: HashAlg, payloads: Seq<Seq<u8>>) -> Seq<u8> {
    if payloads.len() == 0 {
        Seq::empty()
    } else if payloads.len() == 1 {
        digest_of(alg, digest_of(alg, payloads[0]))
    } else {
        hash_queue_fold(alg, payloads.map_values(|p: Seq<u8>| digest_of(alg, p)))
    }
}

/// The root digest is a deterministic function of the digest algorithm and
/// the ordered leaf payloads: two trees built over the same payloads with the
/// same algorithm carry bit-identical root hashes.
pub proof fn lemma_root_deterministic(
    t1: MrkleTree,
    t2: MrkleTree,
    alg: HashAlg,
    payloads: Seq<Seq<u8>>,
)
    requires
        payloads.len() > 0,
        t1.spec_root_hash() == merkle_root_spec(alg, payloads),
        t2.spec_root_hash() == merkle_root_spec(alg, payloads),
    ensures
        t1.spec_root_hash() == t2.spec_root_hash(),
{
}

/// A Merkle tree: an arena of [`MrkleNode`] built bottom-up over an ordered
/// sequence of leaf payloads with one fixed digest algorithm.
///
/// The invariant [`MrkleTree::wf`] pins the builder's shape: children come
/// before their parent, every internal digest is the digest of its children's
/// concatenated digests, and the root is the last node.
#[derive(Debug, Clone)]
pub struct MrkleTree {
    /// The underlying arena.
    pub(crate) core: Tree<MrkleNode>,
    /// The digest algorithm the tree was built with.
    pub(crate) alg: HashAlg,
}

impl Default for MrkleTree {
    /// An empty tree over the default digest algorithm.
    fn default() -> (r: Self)
        ensures
            r.spec_len() == 0,
            r.spec_alg() == HashAlg::Sha256,
            r.wf(),
    {
        MrkleTree { core: Tree::new(), alg: HashAlg::Sha256 }
    }
}

impl MrkleTree {
    /// The node sequence of the underlying arena.
    pub closed spec fn spec_nodes(&self) -> Seq<MrkleNode> {
        self.core.nodes@
    }

    /// The digest algorithm of this tree.
    pub closed spec fn spec_alg(&self) -> HashAlg {
        self.alg
    }

    /// The number of nodes.
    pub open spec fn spec_len(&self) -> nat {
        self.spec_nodes().len()
    }

    /// The digest stored on the root node.
    pub open spec fn spec_root_hash(&self) -> Seq<u8> {
        self.spec_nodes()[self.spec_len() - 1].spec_hash()
    }

    /// The ordered leaf payloads the tree was built over.
    pub open spec fn spec_leaf_count(&self) -> nat {
        if self.spec_len() == 0 {
            0
        } else if self.spec_len() == 2 {
            1
        } else {
            ((self.spec_len() + 1) / 2) as nat
        }
    }

    /// The arena root slot.
    pub closed spec fn spec_root_idx(&self) -> Option<usize> {
        self.core.spec_root()
    }

    /// The digests of the children of node `i`, concatenated.
    pub open spec fn child_hashes(&self, i: int) -> Seq<Seq<u8>> {
        self.spec_nodes()[i].spec_children().map_values(
            |c: usize| self.spec_nodes()[c as int].spec_hash(),
        )
    }

    /// The builder-shape invariant of a Merkle tree.
    pub open spec fn wf(&self) -> bool {
        let ns = self.spec_nodes();
        let len = ns.len() as int;
        &&& (len == 0 ==> self.spec_root_idx() is None)
        &&& (len > 0 ==> self.spec_root_idx() == Some((len - 1) as usize) && len >= 2 && ns[len
            - 1].spec_children().len() != 0)
        &&& forall|i: int|
            0 <= i < len ==> (#[trigger] ns[i].spec_children()).no_duplicates()
        &&& forall|i: int, k: int|
            0 <= i < len && 0 <= k < ns[i].spec_children().len()
                ==> #[trigger] ns[i].spec_children()[k] < i
        &&& forall|i: int|
            0 <= i < len && #[trigger] ns[i].spec_parent() is Some ==> {
                let p = ns[i].spec_parent()->Some_0;
                i < p < len && ns[p as int].spec_children().contains(i as usize)
            }
        &&& forall|i: int, k: int|
            0 <= i < len && 0 <= k < ns[i].spec_children().len() ==> ns[#[trigger] ns[i].spec_children()[k] as int].spec_parent()
                == Some(i as usize)
        &&& forall|i: int| 0 <= i < len - 1 ==> (#[trigger] ns[i].spec_parent()) is Some
        &&& (len > 0 ==> ns[len - 1].spec_parent() is None)
        &&& forall|i: int|
            0 <= i < len ==> (((#[trigger] ns[i].spec_payload()) is Leaf) <==> ns[i].spec_children().len()
                == 0)
        &&& forall|i: int|
            0 <= i < len && (#[trigger] ns[i].spec_children()).len() != 0 ==> (
            ns[i].spec_children().len() == 2 || (len == 2 && i == 1 && ns[i].spec_children() =~= seq![0usize]))
        &&& forall|i: int|
            0 <= i < len && (#[trigger] ns[i].spec_payload()) is Leaf ==> ns[i].spec_hash()
                == digest_of(self.spec_alg(), ns[i].spec_payload()->Leaf_0@)
        &&& forall|i: int|
            0 <= i < len && (#[trigger] ns[i].spec_children()).len() != 0 ==> ns[i].spec_hash()
                == digest_of(self.spec_alg(), concat_bytes(self.child_hashes(i)))
        &&& forall|i: int|
            0 <= i < len ==> (#[trigger] ns[i].spec_hash()).len() == output_len(self.spec_alg())
    }

    /// Returns `true` if the tree contains no nodes.
    pub fn is_empty(&self) -> (r: bool)
        ensures
            r <==> self.spec_len() == 0,
    {
        self.core.is_empty()
    }

    /// Returns the number of nodes in the tree.
    pub fn len(&self) -> (r: usize)
        ensures
            r == self.spec_len(),
    {
        self.core.len()
    }

    /// Returns the number of nodes the tree can hold without reallocating.
    pub fn capacity(&self) -> (r: usize)
        ensures
            r >= self.spec_len(),
    {
        self.core.capacity()
    }

    /// The digest algorithm the tree was built with.
    pub fn alg(&self) -> (r: HashAlg)
        ensures
            r == self.spec_alg(),
    {
        self.alg
    }

    /// A reference to the node at `idx`, if it is in bounds.
    pub fn get(&self, idx: usize) -> (r: Option<&MrkleNode>)
        ensures
            match r {
                Some(n) => idx < self.spec_len() && *n == self.spec_nodes()[idx as int],
                None => idx >= self.spec_len(),
            },
    {
        self.core.get(idx)
    }

    /// The root digest of a non-empty tree.
    pub fn root_hash(&self) -> (r: &Vec<u8>)
        requires
            self.wf(),
            self.spec_len() > 0,
        ensures
            r@ == self.spec_root_hash(),
    {
        let last = self.core.len() - 1;
        &self.core.nodes[last].hash
    }
}

} // verus!

verus! {

/// The digests of the nodes from position `from` on, in arena order.
pub open spec fn hash_window(ns: Seq<MrkleNode>, from: int) -> Seq<Seq<u8>> {
    Seq::new((ns.len() - from) as nat, |t: int| ns[from + t].spec_hash())
}

impl MrkleTree {
    /// Push one leaf node per payload, in order, into a fresh arena.
    #[verifier::loop_isolation(false)]
    fn build_leaf_layer(alg: HashAlg, hasher: &MrkleHasher, payloads: &Vec<Vec<u8>>) -> (core:
        Tree<MrkleNode>)
        requires
            hasher.spec_alg() == alg,
        ensures
            core.nodes@.len() == payloads@.len(),
            core.spec_root() == if payloads@.len() == 0 {
                None::<usize>
            } else {
                Some(0usize)
            },
            forall|j: int|
                #![trigger core.nodes@[j]]
                0 <= j < payloads@.len() ==> {
                    &&& core.nodes@[j].spec_payload() is Leaf
                    &&& core.nodes@[j].spec_payload()->Leaf_0@ == payloads@[j]@
                    &&& core.nodes@[j].spec_hash() == digest_of(alg, payloads@[j]@)
                    &&& core.nodes@[j].spec_hash().len() == output_len(alg)
                    &&& core.nodes@[j].spec_parent() is None
                    &&& core.nodes@[j].spec_children().len() == 0
                },
    {
        let mut core: Tree<MrkleNode> = Tree::new();
        let n = payloads.len();
        for i in 0..n
            invariant
                core.nodes@.len() == i,
                core.spec_root() == if i == 0 {
                    None::<usize>
                } else {
                    Some(0usize)
                },
                forall|j: int|
                    #![trigger core.nodes@[j]]
                    0 <= j < i ==> {
                        &&& core.nodes@[j].spec_payload() is Leaf
                        &&& core.nodes@[j].spec_payload()->Leaf_0@ == payloads@[j]@
                        &&& core.nodes@[j].spec_hash() == digest_of(alg, payloads@[j]@)
                        &&& core.nodes@[j].spec_hash().len() == output_len(alg)
                        &&& core.nodes@[j].spec_parent() is None
                        &&& core.nodes@[j].spec_children().len() == 0
                    },
        {
            let p = payloads[i].clone();
            proof {
                assert(p@ =~= payloads@[i as int]@);
            }
            let node = MrkleNode::from_hasher(p, &hasher);
            let ghost pre = core.nodes@;
            core.push(node);
            proof {
                assert forall|j: int| 0 <= j < i implies core.nodes@[j] == pre[j] by {
                    assert(core.nodes@[j] == pre.push(node)[j]);
                }
            }
        }
        core
    }

    /// Wrap the lone leaf of a one-payload tree in a single-child root, so
    /// the root digest is distinct from the leaf digest.
    fn wrap_single_leaf(mut core: Tree<MrkleNode>, alg: HashAlg, hasher: &MrkleHasher) -> (t:
        MrkleTree)
        requires
            hasher.spec_alg() == alg,
            core.nodes@.len() == 1,
            core.spec_root() == Some(0usize),
            core.nodes@[0].spec_payload() is Leaf,
            core.nodes@[0].spec_hash() == digest_of(alg, core.nodes@[0].spec_payload()->Leaf_0@),
            core.nodes@[0].spec_hash().len() == output_len(alg),
            core.nodes@[0].spec_parent() is None,
            core.nodes@[0].spec_children().len() == 0,
        ensures
            t.spec_alg() == alg,
            t.wf(),
            t.spec_len() == 2,
            t.spec_nodes()[0].spec_payload() == core.nodes@[0].spec_payload(),
            t.spec_nodes()[0].spec_hash() == core.nodes@[0].spec_hash(),
            t.spec_root_hash() == digest_of(alg, core.nodes@[0].spec_hash()),
    {
        let h = hasher.hash(core.nodes[0].hash.as_slice());
        let wrapper = MrkleNode::internal(vec![NodeIndex::new(0)], h);
        proof {
            assert(wrapper.spec_children() =~= seq![0usize]);
        }
        let idx = core.push(wrapper);
        {
            let n0 = &mut core.nodes[0];
            n0.set_parent(idx);
        }
        core.set_root(Some(idx));
        let t = MrkleTree { core, alg };
        proof {
            let ns = t.spec_nodes();
            assert(ns[1].spec_children() =~= seq![0usize]);
            assert(t.child_hashes(1) =~= seq![ns[0].spec_hash()]);
            assert(concat_bytes(t.child_hashes(1)) == ns[0].spec_hash()) by {
                assert(t.child_hashes(1).drop_last() =~= Seq::<Seq<u8>>::empty());
                assert(concat_bytes(t.child_hashes(1).drop_last()) =~= Seq::<u8>::empty());
                assert(concat_bytes(Seq::<Seq<u8>>::empty()) + ns[0].spec_hash() =~= ns[0].spec_hash());
            }
            assert forall|i2: int, k2: int|
                0 <= i2 < ns.len() && 0 <= k2 < ns[i2].spec_children().len() implies ns[i2].spec_children()[k2]
                < 2 by {
                assert(ns[0].spec_children().len() == 0);
                assert(i2 == 1);
                assert(ns[1].spec_children() =~= seq![0usize]);
            }
            assert forall|i2: int| 0 <= i2 < ns.len() implies ns[i2].spec_children().no_duplicates() by {
                if i2 == 1 {
                    assert(ns[1].spec_children() =~= seq![0usize]);
                    assert(seq![0usize].no_duplicates());
                } else {
                    assert(ns[i2].spec_children().len() == 0);
                }
            }
            assert(t.wf());
        }
        t
    }

    /// Build a Merkle tree bottom-up over an ordered sequence of payloads.
    ///
    /// No payloads give an empty tree. One payload gives a leaf under a
    /// single-child wrapper root, so that the root is distinct from a leaf.
    /// Two or more payloads are hashed as leaves and folded pairwise through
    /// a queue until one root remains.
    #[verifier::loop_isolation(false)]
    #[verifier::rlimit(100)]
    pub fn from_leaves(alg: HashAlg, payloads: Vec<Vec<u8>>) -> (t: MrkleTree)
        ensures
            t.spec_alg() == alg,
            t.wf(),
            t.spec_len() == if payloads@.len() == 0 {
                0nat
            } else if payloads@.len() == 1 {
                2nat
            } else {
                (2 * payloads@.len() - 1) as nat
            },
            forall|i: int|
                #![trigger t.spec_nodes()[i]]
                0 <= i < payloads@.len() ==> t.spec_nodes()[i].spec_payload() is Leaf
                    && t.spec_nodes()[i].spec_payload()->Leaf_0@ == payloads@[i]@
                    && t.spec_nodes()[i].spec_hash() == digest_of(alg, payloads@[i]@),
            payloads@.len() > 0 ==> t.spec_root_hash() == merkle_root_spec(
                alg,
                payloads@.map_values(|p: Vec<u8>| p@),
            ),
    {
        let hasher = MrkleHasher::new(alg);
        let mut core = MrkleTree::build_leaf_layer(alg, &hasher, &payloads);
        let n = payloads.len();
        if n == 0 {
            return MrkleTree { core, alg };
        }
        if n == 1 {
            return MrkleTree::wrap_single_leaf(core, alg, &hasher);
        }
        // n >= 2: fold the queue of pending roots pairwise
        let ghost leafh = payloads@.map_values(|p: Vec<u8>| digest_of(alg, p@));
        let mut queue: Vec<NodeIndex> = Vec::new();
        for i in 0..n
            invariant
                queue@.len() == i,
                forall|k: int| 0 <= k < i ==> #[trigger] queue@[k]@ == k,
        {
            queue.push(NodeIndex::new(i));
        }
        let mut qhead: usize = 0;
        proof {
            assert(hash_window(core.nodes@, 0) =~= leafh);
        }
        #[verifier::loop_isolation(true)]
        while queue.len() - qhead > 1
            invariant
                2 <= n,
                n == payloads@.len(),
                hasher.spec_alg() == alg,
                leafh == payloads@.map_values(|p: Vec<u8>| digest_of(alg, p@)),
                core.nodes@.len() == queue@.len(),
                n <= queue@.len(),
                qhead == 2 * (queue@.len() - n),
                qhead < queue@.len(),
                forall|k: int| 0 <= k < queue@.len() ==> #[trigger] queue@[k]@ == k,
                core.spec_root() == Some(0usize),
                // payloads and digests of the leaf layer
                forall|j: int|
                    #![trigger core.nodes@[j]]
                    0 <= j < n ==> core.nodes@[j].spec_payload() is Leaf
                        && core.nodes@[j].spec_payload()->Leaf_0@ == payloads@[j]@
                        && core.nodes@[j].spec_hash() == digest_of(alg, payloads@[j]@),
                // leaf/internal split
                forall|j: int|
                    #![auto]
                    0 <= j < core.nodes@.len() ==> ((core.nodes@[j].spec_payload() is Leaf) <==> j
                        < n),
                forall|j: int|
                    #![auto]
                    0 <= j < core.nodes@.len() ==> ((core.nodes@[j].spec_children().len() == 0) <==>
                    j < n),
                // internal arity and hashing discipline
                forall|j: int|
                    #![auto]
                    n <= j < core.nodes@.len() ==> core.nodes@[j].spec_children().len() == 2,
                forall|j: int, k: int|
                    #![auto]
                    0 <= j < core.nodes@.len() && 0 <= k < core.nodes@[j].spec_children().len()
                        ==> core.nodes@[j].spec_children()[k] < j,
                forall|j: int|
                    #![auto]
                    0 <= j < core.nodes@.len() ==> core.nodes@[j].spec_children().no_duplicates(),
                forall|j: int|
                    #![auto]
                    n <= j < core.nodes@.len() ==> core.nodes@[j].spec_hash() == digest_of(
                        alg,
                        concat_bytes(
                            core.nodes@[j].spec_children().map_values(
                                |c: usize| core.nodes@[c as int].spec_hash(),
                            ),
                        ),
                    ),
                forall|j: int|
                    #![auto]
                    0 <= j < core.nodes@.len() ==> core.nodes@[j].spec_hash().len() == output_len(
                        alg,
                    ),
                // parents: exactly the pending queue entries are parentless
                forall|j: int|
                    #![auto]
                    0 <= j < core.nodes@.len() ==> ((core.nodes@[j].spec_parent() is None) <==> j
                        >= qhead),
                forall|j: int|
                    0 <= j < core.nodes@.len() && #[trigger] core.nodes@[j].spec_parent() is Some
                        ==> {
                        let p = core.nodes@[j].spec_parent()->Some_0;
                        &&& j < p < core.nodes@.len()
                        &&& core.nodes@[p as int].spec_children().contains(j as usize)
                    },
                forall|j: int, k: int|
                    #![auto]
                    0 <= j < core.nodes@.len() && 0 <= k < core.nodes@[j].spec_children().len()
                        ==> core.nodes@[core.nodes@[j].spec_children()[k] as int].spec_parent()
                        == Some(j as usize),
                // the pending digests fold to the same root as the leaf digests
                hash_queue_fold(alg, hash_window(core.nodes@, qhead as int)) == hash_queue_fold(
                    alg,
                    leafh,
                ),
            decreases queue@.len() - qhead,
        {
            let a = queue[qhead].index();
            let b = queue[qhead + 1].index();
            let h = hasher.concat(&core.nodes[a].hash, &core.nodes[b].hash);
            let children = vec![NodeIndex::new(a), NodeIndex::new(b)];
            let internal = MrkleNode::internal(children, h);
            proof {
                assert(internal.spec_children() =~= seq![a as usize, b as usize]);
            }
            let ghost pre = core.nodes@;
            let ghost old_qhead = qhead as int;
            let idx = core.push(internal);
            {
                let na = &mut core.nodes[a];
                na.set_parent(idx);
            }
            {
                let nb = &mut core.nodes[b];
                nb.set_parent(idx);
            }
            queue.push(idx);
            qhead = qhead + 2;
            proof {
                let ns = core.nodes@;
                let len = ns.len() as int;
                assert(ns[len - 1].spec_children() =~= seq![a as usize, b as usize]);
                assert(ns[a as int].spec_hash() == pre[a as int].spec_hash());
                assert(ns[b as int].spec_hash() == pre[b as int].spec_hash());
                // the new node's digest combines the two popped digests
                assert(ns[len - 1].spec_children().map_values(
                    |c: usize| ns[c as int].spec_hash(),
                ) =~= seq![ns[a as int].spec_hash(), ns[b as int].spec_hash()]);
                assert(concat_bytes(
                    seq![ns[a as int].spec_hash(), ns[b as int].spec_hash()],
                ) == ns[a as int].spec_hash() + ns[b as int].spec_hash()) by {
                    let two = seq![ns[a as int].spec_hash(), ns[b as int].spec_hash()];
                    assert(two.drop_last().drop_last() =~= Seq::<Seq<u8>>::empty());
                    assert(concat_bytes(two.drop_last().drop_last()) =~= Seq::<u8>::empty());
                    assert(two.drop_last().last() == ns[a as int].spec_hash());
                    assert(concat_bytes(two.drop_last()) =~= ns[a as int].spec_hash());
                    assert(two.last() == ns[b as int].spec_hash());
                }
                // one unfolding of the queue fold
                let oldw = hash_window(pre, old_qhead);
                let neww = hash_window(ns, qhead as int);
                assert(oldw.len() >= 2);
                assert(oldw[0] == pre[a as int].spec_hash());
                assert(oldw[1] == pre[b as int].spec_hash());
                assert(hash_queue_fold(alg, oldw) == hash_queue_fold(
                    alg,
                    oldw.subrange(2, oldw.len() as int).push(digest_of(alg, oldw[0] + oldw[1])),
                ));
                assert(oldw.subrange(2, oldw.len() as int).push(
                    digest_of(alg, oldw[0] + oldw[1]),
                ) =~= neww);
                // internal digests of older nodes are untouched
                assert forall|j: int| n <= j < len implies core.nodes@[j].spec_hash() == digest_of(
                    alg,
                    concat_bytes(
                        core.nodes@[j].spec_children().map_values(
                            |c: usize| core.nodes@[c as int].spec_hash(),
                        ),
                    ),
                ) by {
                    if j < len - 1 {
                        assert(ns[j].spec_children() == pre[j].spec_children());
                        assert(ns[j].spec_hash() == pre[j].spec_hash());
                        assert(ns[j].spec_children().map_values(
                            |c: usize| ns[c as int].spec_hash(),
                        ) =~= pre[j].spec_children().map_values(
                            |c: usize| pre[c as int].spec_hash(),
                        )) by {
                            assert forall|k: int|
                                0 <= k < ns[j].spec_children().len() implies ns[ns[j].spec_children()[k] as int].spec_hash()
                                == pre[pre[j].spec_children()[k] as int].spec_hash() by {
                                let c = pre[j].spec_children()[k];
                                assert(c < j);
                                assert(ns[c as int].spec_hash() == pre[c as int].spec_hash());
                            }
                        }
                    } else {
                        assert(ns[j].spec_children().map_values(
                            |c: usize| ns[c as int].spec_hash(),
                        ) =~= seq![ns[a as int].spec_hash(), ns[b as int].spec_hash()]);
                    }
                }
            }
        }
        let root = queue[qhead];
        core.set_root(Some(root));
        let t = MrkleTree { core, alg };
        proof {
            let ns = t.spec_nodes();
            let len = ns.len() as int;
            assert(qhead == len - 1);
            assert(len == 2 * n - 1);
            assert(hash_window(ns, len - 1) =~= seq![ns[len - 1].spec_hash()]);
            assert(hash_queue_fold(alg, seq![ns[len - 1].spec_hash()]) == ns[len
                - 1].spec_hash());
            assert(t.spec_root_hash() == merkle_root_spec(
                alg,
                payloads@.map_values(|p: Vec<u8>| p@),
            )) by {
                assert(leafh =~= payloads@.map_values(|p: Vec<u8>| p@).map_values(
                    |q: Seq<u8>| digest_of(alg, q),
                ));
            }
            assert forall|i2: int|
                0 <= i2 < n implies ns[i2].spec_payload() is Leaf && ns[i2].spec_hash()
                == digest_of(alg, ns[i2].spec_payload()->Leaf_0@) by {
                assert(ns[i2].spec_hash() == digest_of(alg, payloads@[i2]@));
                assert(ns[i2].spec_payload()->Leaf_0@ == payloads@[i2]@);
            }
            assert(t.wf());
        }
        t
    }
}

} // verus!

verus! {

impl MrkleTree {
    /// The well-formedness of a Merkle tree implies the arena's link
    /// invariant.
    pub(crate) proof fn lemma_wf_links(&self)
        requires
            self.wf(),
        ensures
            self.core.wf_links(),
    {
        let ns = self.spec_nodes();
        let len = ns.len() as int;
        assert forall|i: int, k: int|
            #![auto]
            0 <= i < len && 0 <= k < self.core.nodes@[i].spec_children().len() implies self.core.nodes@[i].spec_children()[k]
            < len by {
            assert(ns[i].spec_children()[k] < i);
        }
        assert forall|i: int|
            #![auto]
            0 <= i < len && self.core.nodes@[i].spec_parent() is Some implies self.core.nodes@[i].spec_parent()->Some_0
            < len by {
            assert(ns[i].spec_parent() is Some);
        }
    }

    /// The node indices in breadth-first order from the root; empty for an
    /// empty tree.
    pub fn traversal_indices(&self) -> (r: Vec<NodeIndex>)
        requires
            self.wf(),
        ensures
            r@.map_values(|i: NodeIndex| i@) == if self.spec_len() == 0 {
                Seq::<usize>::empty()
            } else {
                crate::tree::bfs_order(
                    Seq::new(self.spec_len(), |k: int| self.spec_nodes()[k].spec_children()),
                    (self.spec_len() - 1) as usize,
                )
            },
            forall|k: int| 0 <= k < r@.len() ==> #[trigger] r@[k]@ < self.spec_len(),
    {
        proof {
            self.lemma_wf_links();
            assert(self.core.kids() =~= Seq::new(
                self.spec_len(),
                |k: int| self.spec_nodes()[k].spec_children(),
            ));
        }
        let r = self.core.traversal_order();
        proof {
            if self.spec_len() == 0 {
                assert(r@.map_values(|i: NodeIndex| i@) =~= Seq::<usize>::empty());
            }
        }
        r
    }

    /// The leaf indices of this tree in breadth-first order from the root.
    pub open spec fn spec_leaf_indices(&self) -> Seq<usize> {
        crate::tree::leaf_filter(
            crate::tree::bfs_order(
                Seq::new(self.spec_len(), |k: int| self.spec_nodes()[k].spec_children()),
                (self.spec_len() - 1) as usize,
            ),
            self.spec_nodes(),
        )
    }

    /// References to the leaves of the tree, in breadth-first order from the
    /// root: exactly the childless nodes the root reaches, in visiting order.
    pub fn leaves(&self) -> (r: Vec<&MrkleNode>)
        requires
            self.wf(),
        ensures
            self.spec_len() == 0 ==> r@.len() == 0,
            self.spec_len() > 0 ==> r@.len() == self.spec_leaf_indices().len() && (forall|k: int|
                #![auto]
                0 <= k < r@.len() ==> *r@[k] == self.spec_nodes()[self.spec_leaf_indices()[k] as int]),
    {
        proof {
            self.lemma_wf_links();
            assert(self.core.kids() =~= Seq::new(
                self.spec_len(),
                |k: int| self.spec_nodes()[k].spec_children(),
            ));
        }
        self.core.leaves()
    }
}

} // verus!

verus! {

/// The `t`-th node on the parent chain that starts at node `i` (`t == 0` is
/// `i` itself).
pub open spec fn anc(ns: Seq<MrkleNode>, i: int, t: nat) -> int
    decreases t,
{
    if t == 0 {
        i
    } else {
        let prev = anc(ns, i, (t - 1) as nat);
        if 0 <= prev < ns.len() && ns[prev].spec_parent() is Some {
            ns[prev].spec_parent()->Some_0 as int
        } else {
            prev
        }
    }
}

/// The number of parent edges from node `i` up to the top of its chain: the
/// depth of `i` below the root.
pub open spec fn chain_depth(ns: Seq<MrkleNode>, i: int) -> nat
    decreases ns.len() - i
        when 0 <= i < ns.len()
{
    match ns[i].spec_parent() {
        None => 0,
        Some(p) => if i < p < ns.len() {
            (1 + chain_depth(ns, p as int)) as nat
        } else {
            0
        },
    }
}

} // verus!
