use crate::error::{NodeError, ProofError, TreeError};
use crate::hasher::{digest_of, output_len, HashAlg, MrkleHasher};
use crate::merkle::{MrkleNode, MrkleTree};
use crate::node::{opt_index, MutNode, Node, NodeIndex};
use crate::tree::Tree;
use vstd::prelude::*;

verus! {

/// A node in a Merkle proof: parent and child links plus an optional digest.
///
/// A node with `Some(hash)` is a known sibling supplied by the prover; a node
/// with `None` is either a leaf whose digest the verifier will insert, or an
/// internal node whose digest the verifier will compute.
#[derive(Debug, Clone)]
pub struct MrkleProofNode {
    /// The parent of this node, if any.
    pub(crate) parent: Option<NodeIndex>,
    /// The children of this node, in hashing order.
    pub(crate) children: Vec<NodeIndex>,
    /// The digest of this node, once supplied or computed.
    pub(crate) hash: Option<Vec<u8>>,
}

/// The mathematical content of a proof node.
pub ghost struct ProofNodeModel {
    /// The parent slot.
    pub parent: Option<usize>,
    /// The ordered child indices.
    pub children: Seq<usize>,
    /// The digest slot.
    pub hash: Option<Seq<u8>>,
}

/// The digest slot of a proof node, as a mathematical value.
pub open spec fn opt_bytes(h: Option<Vec<u8>>) -> Option<Seq<u8>> {
    match h {
        Some(v) => Some(v@),
        None => None,
    }
}

impl MrkleProofNode {
    /// The mathematical content of this node.
    pub closed spec fn model(&self) -> ProofNodeModel {
        ProofNodeModel {
            parent: opt_index(self.parent),
            children: self.children@.map_values(|i: NodeIndex| i@),
            hash: opt_bytes(self.hash),
        }
    }

    /// The digest slot of this node.
    pub open spec fn spec_hash(&self) -> Option<Seq<u8>> {
        self.model().hash
    }

    /// Return a constructed proof node.
    pub fn new(parent: Option<NodeIndex>, children: Vec<NodeIndex>, hash: Option<Vec<u8>>) -> (r:
        Self)
        ensures
            r.model().parent == opt_index(parent),
            r.model().children == children@.map_values(|i: NodeIndex| i@),
            r.model().hash == opt_bytes(hash),
    {
        MrkleProofNode { parent, children, hash }
    }

    /// A fresh, childless, unfilled proof node with room for `capacity`
    /// children.
    pub fn with_capacity(capacity: usize) -> (r: Self)
        ensures
            r.model().parent is None,
            r.model().children.len() == 0,
            r.model().hash is None,
    {
        let r = MrkleProofNode { parent: None, children: Vec::with_capacity(capacity), hash: None };
        proof {
            assert(r.model().children =~= Seq::<usize>::empty());
        }
        r
    }

    /// Write a digest into this node's slot.
    pub fn update(&mut self, hash: Vec<u8>)
        ensures
            final(self).model() == (ProofNodeModel { hash: Some(hash@), ..old(self).model() }),
    {
        self.hash = Some(hash);
    }

    /// Clear this node's digest slot.
    pub(crate) fn reset(&mut self)
        ensures
            final(self).model() == (ProofNodeModel { hash: None, ..old(self).model() }),
    {
        if self.hash.is_some() {
            self.hash = None;
        }
    }

    /// Return a copy of this node's digest slot.
    pub fn hash(&self) -> (r: Option<Vec<u8>>)
        ensures
            opt_bytes(r) == self.model().hash,
    {
        match &self.hash {
            Some(h) => {
                let c = h.clone();
                proof {
                    assert(c@ =~= h@);
                }
                Some(c)
            },
            None => None,
        }
    }
}

impl Node for MrkleProofNode {
    closed spec fn spec_parent(&self) -> Option<usize> {
        opt_index(self.parent)
    }

    closed spec fn spec_children(&self) -> Seq<usize> {
        self.children@.map_values(|i: NodeIndex| i@)
    }

    closed spec fn same_content(&self, other: &Self) -> bool {
        opt_bytes(self.hash) == opt_bytes(other.hash)
    }

    proof fn lemma_same_content_refl(&self) {
    }

    proof fn lemma_same_content_trans(&self, b: &Self, c: &Self) {
    }

    fn parent(&self) -> (p: Option<NodeIndex>) {
        self.parent
    }

    fn children(&self) -> (c: Vec<NodeIndex>) {
        let r = self.children.clone();
        proof {
            assert(r@.map_values(|i: NodeIndex| i@) =~= self.spec_children());
        }
        r
    }
}

impl MutNode for MrkleProofNode {
    fn set_parent(&mut self, parent: NodeIndex) {
        self.parent = Some(parent);
    }

    fn take_parent(&mut self) -> (r: Option<NodeIndex>) {
        let r = self.parent;
        self.parent = None;
        r
    }

    fn try_push(&mut self, child: NodeIndex) -> (r: Result<(), NodeError>) {
        if self.contains(&child) {
            return Err(NodeError::Duplicate { child: child.index() });
        }
        self.children.push(child);
        proof {
            assert(self.spec_children() =~= old(self).spec_children().push(child@));
        }
        Ok(())
    }

    fn pop(&mut self) -> (r: Option<NodeIndex>) {
        let r = self.children.pop();
        proof {
            if old(self).children@.len() > 0 {
                assert(self.spec_children() =~= old(self).spec_children().drop_last());
            }
        }
        r
    }

    fn insert(&mut self, index: usize, child: NodeIndex) {
        self.children.insert(index, child);
        proof {
            assert(self.spec_children() =~= old(self).spec_children().insert(
                index as int,
                child@,
            ));
        }
    }

    fn remove(&mut self, index: usize) -> (r: NodeIndex) {
        let r = self.children.remove(index);
        proof {
            assert(self.spec_children() =~= old(self).spec_children().remove(index as int));
        }
        r
    }

    fn remove_item(&mut self, child: NodeIndex) -> (r: bool) {
        let ghost cs = old(self).spec_children();
        let n = self.children.len();
        let mut pos: usize = 0;
        let mut found = false;
        for i in 0..n
            invariant
                n == self.children@.len(),
                *self == *old(self),
                cs == self.spec_children(),
                !found ==> forall|j: int| 0 <= j < i ==> cs[j] != child@,
                found ==> pos < i && cs[pos as int] == child@ && (forall|j: int|
                    0 <= j < pos ==> cs[j] != child@),
        {
            if !found && self.children[i].index() == child.index() {
                proof {
                    assert(cs[i as int] == child@);
                }
                pos = i;
                found = true;
            }
        }
        if found {
            let r = self.children.swap_remove(pos);
            proof {
                cs.index_of_first_ensures(child@);
                assert(cs[pos as int] == child@);
                assert(cs.index_of_first(child@) == Some(pos as int));
                assert(self.spec_children() =~= cs.update(pos as int, cs.last()).drop_last());
            }
            true
        } else {
            proof {
                assert(forall|j: int| 0 <= j < cs.len() ==> cs[j] != child@);
            }
            false
        }
    }

    fn swap(&mut self, a: usize, b: usize) {
        let ghost cs = old(self).spec_children();
        let va = self.children[a];
        let vb = self.children[b];
        self.children.set(a, vb);
        self.children.set(b, va);
        proof {
            assert(self.spec_children() =~= cs.update(a as int, cs[b as int]).update(
                b as int,
                cs[a as int],
            ));
        }
    }

    fn clear(&mut self) -> (r: Vec<NodeIndex>) {
        let r = self.children.split_off(0);
        proof {
            assert(r@ =~= old(self).children@);
            assert(self.spec_children() =~= Seq::<usize>::empty());
        }
        r
    }
}

/// The concatenated digests of the children `cs` of a node at position `i`,
/// if every child's digest is available; children always sit below their
/// parent, which bounds the recursion.
pub open spec fn heval_children(
    alg: HashAlg,
    m: Seq<ProofNodeModel>,
    cs: Seq<usize>,
    i: int,
) -> Option<Seq<u8>>
    decreases i, cs.len(),
{
    if i < 0 {
        None
    } else if cs.len() == 0 {
        Some(Seq::empty())
    } else {
        let c = cs[0];
        let hd = if (c as int) < i {
            heval(alg, m, c as int)
        } else {
            None
        };
        let tl = heval_children(alg, m, cs.drop_first(), i);
        if hd is Some && tl is Some {
            Some(hd->Some_0 + tl->Some_0)
        } else {
            None
        }
    }
}

/// The digest a bottom-up validation derives for node `i`: a childless node
/// keeps its slot; a node whose children all evaluate gets the digest of
/// their concatenation; any other node keeps its slot.
pub open spec fn heval(alg: HashAlg, m: Seq<ProofNodeModel>, i: int) -> Option<Seq<u8>>
    decreases i, m[i].children.len() + 1,
{
    if !(0 <= i < m.len()) {
        None
    } else if m[i].children.len() == 0 {
        m[i].hash
    } else {
        match heval_children(alg, m, m[i].children, i) {
            Some(bytes) => Some(digest_of(alg, bytes)),
            None => m[i].hash,
        }
    }
}

/// The mathematical contents of a proof arena's nodes.
pub open spec fn models(a: Seq<MrkleProofNode>) -> Seq<ProofNodeModel> {
    a.map_values(|n: MrkleProofNode| n.model())
}

/// The arena with the digest slot of node `i` set to `h`.
pub open spec fn fill(m: Seq<ProofNodeModel>, i: int, h: Seq<u8>) -> Seq<ProofNodeModel> {
    m.update(i, ProofNodeModel { hash: Some(h), ..m[i] })
}

/// Evaluation only looks at the children and digest slots at or below `i`:
/// two arenas that agree there evaluate alike.
pub proof fn lemma_heval_agrees(
    alg: HashAlg,
    m1: Seq<ProofNodeModel>,
    m2: Seq<ProofNodeModel>,
    i: int,
)
    requires
        0 <= i < m1.len(),
        i < m2.len(),
        forall|j: int|
            #![trigger m1[j], m2[j]]
            0 <= j <= i ==> m1[j].children == m2[j].children && m1[j].hash == m2[j].hash,
    ensures
        heval(alg, m1, i) == heval(alg, m2, i),
    decreases i, m1[i].children.len() + 1,
{
    if m1[i].children.len() == 0 {
    } else {
        lemma_heval_children_agrees(alg, m1, m2, m1[i].children, i);
    }
}

proof fn lemma_heval_children_agrees(
    alg: HashAlg,
    m1: Seq<ProofNodeModel>,
    m2: Seq<ProofNodeModel>,
    cs: Seq<usize>,
    i: int,
)
    requires
        0 <= i < m1.len(),
        i < m2.len(),
        forall|j: int|
            #![trigger m1[j], m2[j]]
            0 <= j <= i ==> m1[j].children == m2[j].children && m1[j].hash == m2[j].hash,
    ensures
        heval_children(alg, m1, cs, i) == heval_children(alg, m2, cs, i),
    decreases i, cs.len(),
{
    if cs.len() > 0 {
        let c = cs[0];
        if (c as int) < i {
            lemma_heval_agrees(alg, m1, m2, c as int);
        }
        lemma_heval_children_agrees(alg, m1, m2, cs.drop_first(), i);
    }
}

} // verus!

verus! {

/// The indices of the unfilled leaves of a proof arena, in ascending order:
/// the slots the verifier must fill before validating.
pub open spec fn unfilled_leaves(m: Seq<ProofNodeModel>) -> Seq<usize>
    decreases m.len(),
{
    if m.len() == 0 {
        Seq::empty()
    } else {
        let rest = unfilled_leaves(m.drop_last());
        let j = m.len() - 1;
        if m[j].children.len() == 0 && m[j].hash is None {
            rest.push(j as usize)
        } else {
            rest
        }
    }
}

/// A well-formed proof arena: children sit strictly below their parent (so
/// links are in bounds and acyclic), parent links agree with child lists,
/// there is a parentless root, and every digest has the algorithm's width.
pub open spec fn proof_arena_wf(m: Seq<ProofNodeModel>, root: Option<usize>) -> bool {
    let len = m.len() as int;
    &&& root is Some
    &&& root->Some_0 < len
    &&& m[root->Some_0 as int].parent is None
    &&& forall|i: int, k: int|
        #![auto]
        0 <= i < len && 0 <= k < m[i].children.len() ==> m[i].children[k] < i
    &&& forall|i: int| #![auto] 0 <= i < len ==> m[i].children.no_duplicates()
    &&& forall|i: int|
        0 <= i < len && #[trigger] m[i].parent is Some ==> {
            let p = m[i].parent->Some_0;
            i < p < len && m[p as int].children.contains(i as usize)
        }
    &&& forall|i: int, k: int|
        #![auto]
        0 <= i < len && 0 <= k < m[i].children.len() ==> m[m[i].children[k] as int].parent == Some(
            i as usize,
        )
}

/// The leaf list points at in-bounds, childless nodes.
pub open spec fn leaves_ok(m: Seq<ProofNodeModel>, leaves: Seq<usize>) -> bool {
    forall|k: int|
        0 <= k < leaves.len() ==> #[trigger] leaves[k] < m.len() && m[leaves[k] as int].children.len()
            == 0
}

/// The unfilled-leaf list of a well-formed arena is itself well-formed, and
/// every listed slot is indeed an unfilled leaf.
pub proof fn lemma_unfilled_leaves_ok(m: Seq<ProofNodeModel>)
    requires
        m.len() <= usize::MAX,
    ensures
        leaves_ok(m, unfilled_leaves(m)),
        forall|k: int| 0 <= k < unfilled_leaves(m).len() ==> #[trigger] unfilled_leaves(m)[k]
            < m.len(),
        forall|k: int| 0 <= k < unfilled_leaves(m).len() ==> m[#[trigger] unfilled_leaves(
            m,
        )[k] as int].hash is None,
    decreases m.len(),
{
    if m.len() > 0 {
        assert(m.drop_last().len() <= usize::MAX);
        lemma_unfilled_leaves_ok(m.drop_last());
        let rest = unfilled_leaves(m.drop_last());
        assert forall|k: int|
            0 <= k < unfilled_leaves(m).len() implies #[trigger] unfilled_leaves(m)[k] < m.len()
            && m[unfilled_leaves(m)[k] as int].children.len() == 0 && m[unfilled_leaves(
            m,
        )[k] as int].hash is None by {
            if k < rest.len() {
                assert(unfilled_leaves(m)[k] == rest[k]);
                assert(m.drop_last()[rest[k] as int] == m[rest[k] as int]);
            } else {
                assert(unfilled_leaves(m)[k] == (m.len() - 1) as usize);
            }
        }
    }
}

/// A Merkle inclusion proof: the minimal sibling set needed to recompute a
/// root digest from one or more named leaf digests.
///
/// The verifier fills the listed leaves with [`MrkleProof::update_leaf_hash`]
/// and then recomputes the root bottom-up with
/// [`MrkleProof::try_validate_basic`], comparing it against the expected
/// root digest.
#[derive(Debug, Clone)]
pub struct MrkleProof {
    /// The proof arena: siblings carry digests, the path nodes are unfilled.
    pub(crate) core: Tree<MrkleProofNode>,
    /// The root digest the recomputation must reproduce.
    pub(crate) expected: Vec<u8>,
    /// The arena indices of the leaves to be filled, in ascending order.
    pub(crate) leaves: Vec<NodeIndex>,
    /// The cached outcome of the last validation, if any.
    pub(crate) valid: Option<bool>,
    /// The digest algorithm the proof and its source tree agree on.
    pub(crate) alg: HashAlg,
}

impl MrkleProof {
    /// The mathematical contents of the proof arena.
    pub closed spec fn spec_models(&self) -> Seq<ProofNodeModel> {
        models(self.core.nodes@)
    }

    /// The expected root digest.
    pub closed spec fn spec_expected(&self) -> Seq<u8> {
        self.expected@
    }

    /// The listed leaf slots.
    pub closed spec fn spec_leaves(&self) -> Seq<usize> {
        self.leaves@.map_values(|i: NodeIndex| i@)
    }

    /// The cached validation outcome.
    pub closed spec fn spec_valid(&self) -> Option<bool> {
        self.valid
    }

    /// The digest algorithm.
    pub closed spec fn spec_alg(&self) -> HashAlg {
        self.alg
    }

    /// The arena root slot.
    pub closed spec fn spec_root(&self) -> Option<usize> {
        self.core.spec_root()
    }

    /// The structural invariant of a proof: a well-formed arena together
    /// with an in-bounds, childless leaf list, and an expected digest of the
    /// algorithm's width.
    pub open spec fn wf(&self) -> bool {
        &&& proof_arena_wf(self.spec_models(), self.spec_root())
        &&& leaves_ok(self.spec_models(), self.spec_leaves())
        &&& self.spec_expected().len() == output_len(self.spec_alg())
    }

    /// Whether the filled proof recomputes the expected root digest.
    pub open spec fn validates(&self) -> bool {
        heval(self.spec_alg(), self.spec_models(), self.spec_root()->Some_0 as int) == Some(
            self.spec_expected(),
        )
    }

    /// Returns the expected root digest as bytes, one digest width long.
    pub fn expected(&self) -> (r: &Vec<u8>)
        requires
            self.wf(),
        ensures
            r@ == self.spec_expected(),
            r@.len() == output_len(self.spec_alg()),
    {
        &self.expected
    }

    /// Returns the number of nodes in the proof arena.
    pub fn len(&self) -> (r: usize)
        ensures
            r == self.spec_models().len(),
    {
        self.core.len()
    }

    /// Returns `true` if the proof arena holds no nodes.
    pub fn is_empty(&self) -> (r: bool)
        ensures
            r <==> self.spec_models().len() == 0,
    {
        self.core.is_empty()
    }

    /// References to the listed leaf nodes, in list order.
    pub fn leaves(&self) -> (r: Vec<&MrkleProofNode>)
        requires
            self.wf(),
        ensures
            r@.len() == self.spec_leaves().len(),
            forall|k: int|
                #![auto]
                0 <= k < r@.len() ==> r@[k].model() == self.spec_models()[self.spec_leaves()[k] as int],
    {
        let mut r: Vec<&MrkleProofNode> = Vec::new();
        let n = self.leaves.len();
        for k in 0..n
            invariant
                n == self.leaves@.len(),
                self.wf(),
                r@.len() == k,
                forall|kk: int|
                    #![auto]
                    0 <= kk < k ==> r@[kk].model() == self.spec_models()[self.spec_leaves()[kk] as int],
        {
            proof {
                assert(self.spec_leaves()[k as int] == self.leaves@[k as int]@);
                assert(self.spec_leaves()[k as int] < self.spec_models().len());
            }
            r.push(&self.core.nodes[self.leaves[k].index()]);
        }
        r
    }

    /// Write `hash` into the `index`-th listed leaf's digest slot.
    ///
    /// Bounds are checked against the leaf list: deliberately, an index past
    /// the end of the list changes nothing and still reports success, so a
    /// verifier may blindly offer more digests than the proof has slots.
    pub fn update_leaf_hash(&mut self, index: usize, hash: Vec<u8>) -> (r: Result<(), ProofError>)
        requires
            old(self).wf(),
        ensures
            r is Ok,
            final(self).wf(),
            final(self).spec_expected() == old(self).spec_expected(),
            final(self).spec_leaves() == old(self).spec_leaves(),
            final(self).spec_valid() == old(self).spec_valid(),
            final(self).spec_alg() == old(self).spec_alg(),
            final(self).spec_root() == old(self).spec_root(),
            index < old(self).spec_leaves().len() ==> final(self).spec_models() == fill(
                old(self).spec_models(),
                old(self).spec_leaves()[index as int] as int,
                hash@,
            ),
            index >= old(self).spec_leaves().len() ==> final(self).spec_models() == old(self).spec_models(),
    {
        if index < self.leaves.len() {
            let idx = self.leaves[index].index();
            proof {
                assert(old(self).spec_leaves()[index as int] == old(self).leaves@[index as int]@);
                assert(old(self).spec_leaves()[index as int] < old(self).spec_models().len());
            }
            let node = &mut self.core.nodes[idx];
            node.update(hash);
            proof {
                assert(final(self).spec_models() =~= fill(
                    old(self).spec_models(),
                    old(self).spec_leaves()[index as int] as int,
                    hash@,
                ));
            }
        }
        Ok(())
    }
}

} // verus!

verus! {

/// Whether two byte vectors hold the same bytes.
pub(crate) fn bytes_eq(a: &Vec<u8>, b: &Vec<u8>) -> (r: bool)
    ensures
        r <==> a@ == b@,
{
    if a.len() != b.len() {
        proof {
            assert(a@ != b@);
        }
        return false;
    }
    let n = a.len();
    for i in 0..n
        invariant
            n == a@.len(),
            n == b@.len(),
            forall|j: int| 0 <= j < i ==> a@[j] == b@[j],
    {
        if a[i] != b[i] {
            proof {
                assert(a@[i as int] != b@[i as int]);
            }
            return false;
        }
    }
    proof {
        assert(a@ =~= b@);
    }
    true
}

/// The arena after one bottom-up validation pass: every node's digest slot
/// holds what the pass derives for it.
pub open spec fn saturate(alg: HashAlg, m: Seq<ProofNodeModel>) -> Seq<ProofNodeModel> {
    Seq::new(m.len(), |j: int| ProofNodeModel { hash: heval(alg, m, j), ..m[j] })
}

impl MrkleProof {
    /// Construct a proof from a hand-built arena, the digest algorithm, and
    /// the expected root digest. The arena must be a well-formed proof arena
    /// with at least one unfilled leaf for the verifier to fill.
    pub fn new(proof: Tree<MrkleProofNode>, alg: HashAlg, expected: Vec<u8>) -> (r: Self)
        requires
            proof_arena_wf(models(proof.nodes@), proof.spec_root()),
            unfilled_leaves(models(proof.nodes@)).len() >= 1,
            expected@.len() == output_len(alg),
        ensures
            r.wf(),
            r.spec_models() == models(proof.nodes@),
            r.spec_expected() == expected@,
            r.spec_alg() == alg,
            r.spec_valid() is None,
            r.spec_leaves() == unfilled_leaves(models(proof.nodes@)),
            r.spec_root() == proof.spec_root(),
    {
        let ghost m = models(proof.nodes@);
        let mut leaves: Vec<NodeIndex> = Vec::new();
        let n = proof.len();
        proof {
            assert(m.subrange(0, 0) =~= Seq::<ProofNodeModel>::empty());
            assert(unfilled_leaves(m.subrange(0, 0)) =~= Seq::<usize>::empty());
            assert(leaves@.map_values(|i: NodeIndex| i@) =~= Seq::<usize>::empty());
        }
        for j in 0..n
            invariant
                n == proof.nodes@.len(),
                m == models(proof.nodes@),
                leaves@.map_values(|i: NodeIndex| i@) == unfilled_leaves(m.subrange(0, j as int)),
                forall|k: int| 0 <= k < leaves@.len() ==> #[trigger] leaves@[k]@ < j,
        {
            proof {
                assert(m.subrange(0, j + 1).drop_last() =~= m.subrange(0, j as int));
                assert(m.subrange(0, j + 1).last() == m[j as int]);
                assert(m[j as int] == proof.nodes@[j as int].model());
            }
            let is_unfilled_leaf = proof.nodes[j].children.len() == 0 && proof.nodes[j].hash.is_none();
            let ghost l0 = leaves@.map_values(|i: NodeIndex| i@);
            if is_unfilled_leaf {
                leaves.push(NodeIndex::new(j));
                proof {
                    assert(leaves@.map_values(|i: NodeIndex| i@) =~= l0.push(j as usize));
                }
            }
        }
        proof {
            assert(m.subrange(0, n as int) =~= m);
            assert(m.len() <= usize::MAX);
            lemma_unfilled_leaves_ok(m);
        }
        MrkleProof { core: proof, expected, leaves, valid: None, alg }
    }

    /// One bottom-up validation pass: derive every internal digest whose
    /// children are available, then compare the root digest against the
    /// expected one. A cached outcome is returned unchanged.
    ///
    /// `Ok(true)` when the recomputed root matches; `RootHashMismatch` with
    /// both digests when it does not; a wrapped `MissingRoot` when the root
    /// digest cannot be derived because a needed leaf is still unfilled.
    #[verifier::loop_isolation(false)]
    #[verifier::rlimit(100)]
    pub fn try_validate_basic(&mut self) -> (r: Result<bool, ProofError>)
        requires
            old(self).wf(),
        ensures
            final(self).wf(),
            final(self).spec_expected() == old(self).spec_expected(),
            final(self).spec_leaves() == old(self).spec_leaves(),
            final(self).spec_valid() == old(self).spec_valid(),
            final(self).spec_alg() == old(self).spec_alg(),
            final(self).spec_root() == old(self).spec_root(),
            old(self).spec_valid() matches Some(b) ==> r == Ok::<bool, ProofError>(b) && final(self).spec_models() == old(self).spec_models(),
            old(self).spec_valid() is None ==> {
                let m0 = old(self).spec_models();
                let alg = old(self).spec_alg();
                let root = old(self).spec_root()->Some_0 as int;
                &&& final(self).spec_models() == saturate(alg, m0)
                &&& match heval(alg, m0, root) {
                    Some(h) => if h == old(self).spec_expected() {
                        r == Ok::<bool, ProofError>(true)
                    } else {
                        r matches Err(ProofError::RootHashMismatch { expected: e, actual: a }) && e@
                            == old(self).spec_expected() && a@ == h
                    },
                    None => r == Err::<bool, ProofError>(
                        ProofError::TreeError(TreeError::MissingRoot),
                    ),
                }
            },
    {
        if let Some(v) = self.valid {
            return Ok(v);
        }
        let ghost m0 = self.spec_models();
        let hasher = MrkleHasher::new(self.alg);
        let len = self.core.len();
        for i in 0..len
            invariant
                len == self.core.nodes@.len(),
                m0.len() == len,
                hasher.spec_alg() == self.spec_alg(),
                self.core.root == old(self).core.root,
                self.expected == old(self).expected,
                self.leaves == old(self).leaves,
                self.valid == old(self).valid,
                self.alg == old(self).alg,
                forall|j: int|
                    #![trigger self.core.nodes@[j]]
                    0 <= j < i ==> self.core.nodes@[j].model() == (ProofNodeModel {
                        hash: heval(old(self).spec_alg(), m0, j),
                        ..m0[j]
                    }),
                forall|j: int|
                    #![trigger self.core.nodes@[j]]
                    i <= j < len ==> self.core.nodes@[j] == old(self).core.nodes@[j],
        {
            let cc = self.core.nodes[i].children.len();
            if cc > 0 {
                let ghost cs = m0[i as int].children;
                proof {
                    assert(self.core.nodes@[i as int] == old(self).core.nodes@[i as int]);
                    assert(self.core.nodes@[i as int].model() == m0[i as int]);
                }
                let mut hs: Vec<Vec<u8>> = Vec::new();
                let mut ready = true;
                let mut k: usize = 0;
                proof {
                    assert(cs.skip(0) =~= cs);
                    assert(hs@.map_values(|h: Vec<u8>| h@) =~= Seq::<Seq<u8>>::empty());
                    assert(crate::hasher::concat_bytes(Seq::<Seq<u8>>::empty())
                        =~= Seq::<u8>::empty());
                }
                while ready && k < cc
                    invariant
                        k <= cc,
                        cc == cs.len(),
                        ready ==> {
                            let done = hs@.map_values(|h: Vec<u8>| h@);
                            &&& forall|kk: int|
                                0 <= kk < k ==> #[trigger] heval(
                                    old(self).spec_alg(),
                                    m0,
                                    cs[kk] as int,
                                ) is Some
                            &&& done.len() == k
                            &&& forall|kk: int|
                                0 <= kk < k ==> #[trigger] done[kk] == heval(
                                    old(self).spec_alg(),
                                    m0,
                                    cs[kk] as int,
                                )->Some_0
                        },
                        !ready ==> heval_children(old(self).spec_alg(), m0, cs, i as int) is None,
                    decreases
                            cc - k,
                            (if ready {
                                1int
                            } else {
                                0int
                            }),
                {
                    let ci = self.core.nodes[i].children[k].index();
                    proof {
                        assert(cs[k as int] == self.core.nodes@[i as int].model().children[k as int]);
                        assert(cs[k as int] < i as int);
                        assert(ci == cs[k as int]);
                        assert(self.core.nodes@[ci as int].model() == (ProofNodeModel {
                            hash: heval(old(self).spec_alg(), m0, ci as int),
                            ..m0[ci as int]
                        }));
                    }
                    let child_hash = self.core.nodes[ci].hash();
                    match child_hash {
                        Some(h) => {
                            let ghost done0 = hs@.map_values(|hh: Vec<u8>| hh@);
                            hs.push(h);
                            proof {
                                assert(hs@.map_values(|hh: Vec<u8>| hh@) =~= done0.push(
                                    heval(old(self).spec_alg(), m0, cs[k as int] as int)->Some_0,
                                ));
                            }
                            k = k + 1;
                        },
                        None => {
                            proof {
                                assert(heval(old(self).spec_alg(), m0, cs[k as int] as int)
                                    is None);
                                lemma_heval_children_none(
                                    old(self).spec_alg(),
                                    m0,
                                    cs,
                                    i as int,
                                    k as int,
                                );
                            }
                            ready = false;
                        },
                    }
                }
                if ready {
                    proof {
                        lemma_heval_children_concat(old(self).spec_alg(), m0, cs, i as int, hs@.map_values(|hh: Vec<u8>| hh@));
                    }
                    let new_hash = hasher.concat_slice(&hs);
                    let node = &mut self.core.nodes[i];
                    node.update(new_hash);
                    proof {
                        assert(self.core.nodes@[i as int].model() == (ProofNodeModel {
                            hash: heval(old(self).spec_alg(), m0, i as int),
                            ..m0[i as int]
                        }));
                    }
                } else {
                    proof {
                        assert(heval(old(self).spec_alg(), m0, i as int) == m0[i as int].hash);
                        assert(self.core.nodes@[i as int].model() == (ProofNodeModel {
                            hash: heval(old(self).spec_alg(), m0, i as int),
                            ..m0[i as int]
                        }));
                    }
                }
            } else {
                proof {
                    assert(self.core.nodes@[i as int].model() == m0[i as int]);
                    assert(heval(old(self).spec_alg(), m0, i as int) == m0[i as int].hash);
                    assert(self.core.nodes@[i as int].model() == (ProofNodeModel {
                        hash: heval(old(self).spec_alg(), m0, i as int),
                        ..m0[i as int]
                    }));
                }
            }
        }
        proof {
            assert(final(self).spec_models() =~= saturate(old(self).spec_alg(), m0));
        }
        let ri = match self.core.root {
            Some(rt) => rt.index(),
            None => 0,
        };
        let ghost root = old(self).spec_root()->Some_0 as int;
        proof {
            assert(ri == root);
            assert(self.spec_models()[root] == (ProofNodeModel {
                hash: heval(old(self).spec_alg(), m0, root),
                ..m0[root]
            }));
            assert(self.spec_models()[root] == self.core.nodes@[root].model());
        }
        let root_hash = self.core.nodes[ri].hash();
        match root_hash {
            Some(rh) => {
                if bytes_eq(&rh, &self.expected) {
                    Ok(true)
                } else {
                    let e = self.expected.clone();
                    proof {
                        assert(e@ =~= self.expected@);
                    }
                    Err(ProofError::RootHashMismatch { expected: e, actual: rh })
                }
            },
            None => Err(ProofError::TreeError(TreeError::MissingRoot)),
        }
    }

    /// Returns whether the proof validates, computing and caching the
    /// outcome on first use.
    pub fn valid(&mut self) -> (r: bool)
        requires
            old(self).wf(),
        ensures
            final(self).wf(),
            match old(self).spec_valid() {
                Some(b) => r == b && final(self).spec_models() == old(self).spec_models(),
                None => {
                    &&& r <==> heval(
                        old(self).spec_alg(),
                        old(self).spec_models(),
                        old(self).spec_root()->Some_0 as int,
                    ) == Some(old(self).spec_expected())
                    &&& final(self).spec_models() == saturate(
                        old(self).spec_alg(),
                        old(self).spec_models(),
                    )
                },
            },
            final(self).spec_valid() is Some,
            final(self).spec_valid()->Some_0 == r,
            final(self).spec_expected() == old(self).spec_expected(),
            final(self).spec_leaves() == old(self).spec_leaves(),
            final(self).spec_alg() == old(self).spec_alg(),
            final(self).spec_root() == old(self).spec_root(),
    {
        if self.valid.is_none() {
            let outcome = match self.try_validate_basic() {
                Ok(_) => true,
                Err(_) => false,
            };
            self.valid = Some(outcome);
        }
        match self.valid {
            Some(b) => b,
            None => {
                proof {
                    assert(false);
                }
                false
            },
        }
    }
}

/// A missing child digest makes the whole child concatenation unavailable.
pub proof fn lemma_heval_children_none(
    alg: HashAlg,
    m: Seq<ProofNodeModel>,
    cs: Seq<usize>,
    i: int,
    k: int,
)
    requires
        0 <= i,
        0 <= k < cs.len(),
        (cs[k] as int) < i ==> heval(alg, m, cs[k] as int) is None,
    ensures
        heval_children(alg, m, cs, i) is None,
    decreases k,
{
    if k == 0 {
    } else {
        lemma_heval_children_none(alg, m, cs.drop_first(), i, k - 1);
    }
}

/// When every child digest is available, the child concatenation is their
/// digests joined in order.
pub proof fn lemma_heval_children_concat(
    alg: HashAlg,
    m: Seq<ProofNodeModel>,
    cs: Seq<usize>,
    i: int,
    done: Seq<Seq<u8>>,
)
    requires
        0 <= i,
        done.len() == cs.len(),
        forall|kk: int| 0 <= kk < cs.len() ==> (cs[kk] as int) < i,
        forall|kk: int| 0 <= kk < cs.len() ==> #[trigger] heval(alg, m, cs[kk] as int) is Some,
        forall|kk: int|
            0 <= kk < cs.len() ==> #[trigger] done[kk] == heval(alg, m, cs[kk] as int)->Some_0,
    ensures
        heval_children(alg, m, cs, i) == Some(crate::hasher::concat_bytes(done)),
    decreases cs.len(),
{
    if cs.len() == 0 {
        assert(crate::hasher::concat_bytes(done) =~= Seq::<u8>::empty());
    } else {
        lemma_heval_children_concat(alg, m, cs.drop_first(), i, done.drop_first());
        lemma_concat_bytes_front(done);
    }
}

/// Concatenation can be peeled from the front as well as from the back.
pub proof fn lemma_concat_bytes_front(parts: Seq<Seq<u8>>)
    requires
        parts.len() > 0,
    ensures
        crate::hasher::concat_bytes(parts) == parts[0] + crate::hasher::concat_bytes(
            parts.drop_first(),
        ),
    decreases parts.len(),
{
    if parts.len() == 1 {
        assert(parts.drop_last() =~= Seq::<Seq<u8>>::empty());
        assert(parts.drop_first() =~= Seq::<Seq<u8>>::empty());
        assert(crate::hasher::concat_bytes(Seq::<Seq<u8>>::empty()) =~= Seq::<u8>::empty());
        assert(parts[0] + Seq::<u8>::empty() =~= parts[0]);
        assert(parts.last() == parts[0]);
    } else {
        lemma_concat_bytes_front(parts.drop_last());
        assert(parts.drop_last()[0] == parts[0]);
        assert(parts.drop_last().drop_first() =~= parts.drop_first().drop_last());
        assert(parts.drop_first().last() == parts.last());
        assert(parts[0] + (crate::hasher::concat_bytes(parts.drop_first().drop_last())
            + parts.last()) =~= (parts[0] + crate::hasher::concat_bytes(
            parts.drop_first().drop_last(),
        )) + parts.last());
    }
}

} // verus!

verus! {

/// There is a parent edge from node `a` up to node `b`.
pub open spec fn parent_edge(m: Seq<ProofNodeModel>, a: int, b: int) -> bool {
    &&& 0 <= a < m.len()
    &&& 0 <= b <= usize::MAX
    &&& m[a].parent == Some(b as usize)
}

/// `p` is a chain of parent edges through the arena.
pub open spec fn is_parent_path(m: Seq<ProofNodeModel>, p: Seq<int>) -> bool {
    &&& p.len() >= 1
    &&& forall|k: int| 0 <= k < p.len() ==> 0 <= #[trigger] p[k] < m.len()
    &&& forall|k: int| 0 <= k < p.len() - 1 ==> #[trigger] parent_edge(m, p[k], p[k + 1])
}

/// Node `j` lies on the parent chain that starts at node `i`.
pub open spec fn upstream(m: Seq<ProofNodeModel>, i: int, j: int) -> bool {
    exists|p: Seq<int>| is_parent_path(m, p) && p.first() == i && p.last() == j
}

/// Every in-bounds node is upstream of itself.
pub proof fn lemma_upstream_self(m: Seq<ProofNodeModel>, i: int)
    requires
        0 <= i < m.len(),
    ensures
        upstream(m, i, i),
{
    let p = seq![i];
    assert(is_parent_path(m, p) && p.first() == i && p.last() == i);
}

/// A chain from `i` either stops at `i` or continues through its parent.
pub proof fn lemma_upstream_peel(m: Seq<ProofNodeModel>, i: int, j: int)
    requires
        upstream(m, i, j),
        i != j,
    ensures
        m[i].parent is Some,
        m[i].parent->Some_0 < m.len() ==> upstream(m, m[i].parent->Some_0 as int, j),
{
    let p = choose|p: Seq<int>| is_parent_path(m, p) && p.first() == i && p.last() == j;
    if p.len() == 1 {
        assert(false);
    } else {
        let k0: int = 0;
        assert(0 <= k0 < p.len() - 1);
        assert(parent_edge(m, p[k0], p[k0 + 1]));
        assert(parent_edge(m, p[0], p[1]));
        let q = p.drop_first();
        assert(is_parent_path(m, q)) by {
            assert forall|k: int| 0 <= k < q.len() - 1 implies #[trigger] parent_edge(
                m,
                q[k],
                q[k + 1],
            ) by {
                let k1 = k + 1;
                assert(0 <= k1 < p.len() - 1);
                assert(parent_edge(m, p[k1], p[k1 + 1]));
                assert(q[k] == p[k1] && q[k + 1] == p[k1 + 1]);
            }
        }
        assert(q.first() == p[1] && q.last() == j);
    }
}

/// A chain extends backwards over one parent edge.
pub proof fn lemma_upstream_unpeel(m: Seq<ProofNodeModel>, i: int, p: int, j: int)
    requires
        parent_edge(m, i, p),
        0 <= p < m.len(),
        upstream(m, p, j),
    ensures
        upstream(m, i, j),
{
    let q = choose|q: Seq<int>| is_parent_path(m, q) && q.first() == p && q.last() == j;
    let r = seq![i] + q;
    assert(r.first() == i && r.last() == j);
    assert(is_parent_path(m, r)) by {
        assert forall|k: int| 0 <= k < r.len() - 1 implies #[trigger] parent_edge(
            m,
            r[k],
            r[k + 1],
        ) by {
            if k == 0 {
                assert(r[0] == i && r[1] == q[0]);
            } else {
                let km = k - 1;
                assert(0 <= km < q.len() - 1);
                assert(parent_edge(m, q[km], q[km + 1]));
                assert(r[k] == q[km] && r[k + 1] == q[km + 1]);
            }
        }
    }
}

/// A chain extends forwards over one more parent edge.
pub proof fn lemma_upstream_extend(m: Seq<ProofNodeModel>, i: int, mid: int, p: int)
    requires
        upstream(m, i, mid),
        parent_edge(m, mid, p),
        0 <= p < m.len(),
    ensures
        upstream(m, i, p),
{
    let q = choose|q: Seq<int>| is_parent_path(m, q) && q.first() == i && q.last() == mid;
    let r = q.push(p);
    assert(r.first() == i && r.last() == p);
    assert(is_parent_path(m, r)) by {
        assert forall|k: int| 0 <= k < r.len() - 1 implies #[trigger] parent_edge(
            m,
            r[k],
            r[k + 1],
        ) by {
            if k < q.len() - 1 {
                assert(parent_edge(m, q[k], q[k + 1]));
                assert(r[k] == q[k] && r[k + 1] == q[k + 1]);
            } else {
                assert(r[k] == mid && r[k + 1] == p);
            }
        }
    }
}

/// On an arena whose parent links point strictly upwards, chains never
/// descend: anything upstream of `i` sits at or above `i`.
pub proof fn lemma_upstream_monotone(m: Seq<ProofNodeModel>, i: int, j: int)
    requires
        forall|a: int|
            0 <= a < m.len() && #[trigger] m[a].parent is Some ==> m[a].parent->Some_0 > a,
        upstream(m, i, j),
    ensures
        j >= i,
{
    let p = choose|p: Seq<int>| is_parent_path(m, p) && p.first() == i && p.last() == j;
    lemma_parent_path_monotone(m, p);
}

proof fn lemma_parent_path_monotone(m: Seq<ProofNodeModel>, p: Seq<int>)
    requires
        forall|a: int|
            0 <= a < m.len() && #[trigger] m[a].parent is Some ==> m[a].parent->Some_0 > a,
        is_parent_path(m, p),
    ensures
        p.last() >= p.first(),
    decreases p.len(),
{
    if p.len() > 1 {
        let q = p.drop_last();
        assert(is_parent_path(m, q)) by {
            assert forall|k: int| 0 <= k < q.len() - 1 implies #[trigger] parent_edge(
                m,
                q[k],
                q[k + 1],
            ) by {
                assert(parent_edge(m, p[k], p[k + 1]));
            }
        }
        lemma_parent_path_monotone(m, q);
        let km = p.len() - 2;
        assert(parent_edge(m, p[km], p[km + 1]));
        assert(m[p[km]].parent is Some);
    }
}

/// Chains only read parent links: two arenas with the same parent links
/// carry the same chains.
pub proof fn lemma_upstream_same_parents(
    m1: Seq<ProofNodeModel>,
    m2: Seq<ProofNodeModel>,
    i: int,
    j: int,
)
    requires
        m1.len() == m2.len(),
        forall|a: int| 0 <= a < m1.len() ==> #[trigger] m1[a].parent == m2[a].parent,
        upstream(m1, i, j),
    ensures
        upstream(m2, i, j),
{
    let p = choose|p: Seq<int>| is_parent_path(m1, p) && p.first() == i && p.last() == j;
    assert(is_parent_path(m2, p)) by {
        assert forall|k: int| 0 <= k < p.len() - 1 implies #[trigger] parent_edge(
            m2,
            p[k],
            p[k + 1],
        ) by {
            assert(parent_edge(m1, p[k], p[k + 1]));
            assert(m1[p[k]].parent == m2[p[k]].parent);
        }
    }
}

impl MrkleProof {
    /// Reset the proof to its received state: walk up from every listed
    /// leaf, clearing each digest slot on the way to the root, and drop the
    /// cached validation outcome. Idempotent.
    #[verifier::loop_isolation(false)]
    #[verifier::rlimit(60)]
    pub fn refresh(&mut self)
        requires
            old(self).wf(),
        ensures
            final(self).wf(),
            final(self).spec_expected() == old(self).spec_expected(),
            final(self).spec_leaves() == old(self).spec_leaves(),
            final(self).spec_alg() == old(self).spec_alg(),
            final(self).spec_root() == old(self).spec_root(),
            final(self).spec_valid() is None,
            ({
                let m0 = old(self).spec_models();
                let ls = old(self).spec_leaves();
                forall|j: int|
                    0 <= j < m0.len() ==> #[trigger] final(self).spec_models()[j] == if (exists|k: int|
                        0 <= k < ls.len() && upstream(m0, #[trigger] ls[k] as int, j)) {
                        ProofNodeModel { hash: None, ..m0[j] }
                    } else {
                        m0[j]
                    }
            }),
    {
        self.valid = None;
        let ghost m0 = old(self).spec_models();
        let ghost ls = old(self).spec_leaves();
        let nleaves = self.leaves.len();
        let len = self.core.len();
        for k in 0..nleaves
            invariant
                nleaves == ls.len(),
                len == m0.len(),
                self.core.nodes@.len() == len,
                self.core.root == old(self).core.root,
                self.expected == old(self).expected,
                self.leaves == old(self).leaves,
                self.alg == old(self).alg,
                self.valid is None,
                forall|j: int|
                    0 <= j < len ==> #[trigger] self.spec_models()[j] == if (exists|kk: int|
                        0 <= kk < k && upstream(m0, #[trigger] ls[kk] as int, j)) {
                        ProofNodeModel { hash: None, ..m0[j] }
                    } else {
                        m0[j]
                    },
        {
            let mut cur = self.leaves[k].index();
            proof {
                assert(ls[k as int] == self.leaves@[k as int]@);
                assert(cur < len);
                lemma_upstream_self(m0, cur as int);
            }
            #[verifier::loop_isolation(true)]
            loop
                invariant_except_break
                    old(self).wf(),
                    m0 == old(self).spec_models(),
                    ls == old(self).spec_leaves(),
                    0 <= k < ls.len(),
                    nleaves == ls.len(),
                    cur < len,
                    len == m0.len(),
                    self.core.nodes@.len() == len,
                    self.core.root == old(self).core.root,
                    self.expected == old(self).expected,
                    self.leaves == old(self).leaves,
                    self.alg == old(self).alg,
                    self.valid is None,
                    upstream(m0, ls[k as int] as int, cur as int),
                    forall|j: int|
                        0 <= j < len ==> #[trigger] self.spec_models()[j] == if ((exists|kk: int|
                            0 <= kk < k && upstream(m0, #[trigger] ls[kk] as int, j)) || (upstream(
                            m0,
                            ls[k as int] as int,
                            j,
                        ) && !upstream(m0, cur as int, j))) {
                            ProofNodeModel { hash: None, ..m0[j] }
                        } else {
                            m0[j]
                        },
                ensures
                    len == m0.len(),
                    self.core.nodes@.len() == len,
                    self.core.root == old(self).core.root,
                    self.expected == old(self).expected,
                    self.leaves == old(self).leaves,
                    self.alg == old(self).alg,
                    self.valid is None,
                    forall|j: int|
                        0 <= j < len ==> #[trigger] self.spec_models()[j] == if ((exists|kk: int|
                            0 <= kk < k && upstream(m0, #[trigger] ls[kk] as int, j)) || upstream(
                            m0,
                            ls[k as int] as int,
                            j,
                        )) {
                            ProofNodeModel { hash: None, ..m0[j] }
                        } else {
                            m0[j]
                        },
                decreases len - cur,
            {
                let ghost mpre = self.spec_models();
                let parent = self.core.nodes[cur].parent;
                {
                    let node = &mut self.core.nodes[cur];
                    node.reset();
                }
                proof {
                    // the parent links of the original arena still hold here
                    assert(mpre[cur as int].parent == m0[cur as int].parent);
                    assert forall|j: int|
                        0 <= j < len implies #[trigger] self.spec_models()[j] == if ((exists|
                        kk: int|
                        0 <= kk < k && upstream(m0, #[trigger] ls[kk] as int, j)) || (upstream(
                        m0,
                        ls[k as int] as int,
                        j,
                    ) && (!upstream(m0, cur as int, j) || j == cur as int))) {
                        ProofNodeModel { hash: None, ..m0[j] }
                    } else {
                        m0[j]
                    } by {
                        assert(self.spec_models()[j] == if j == cur as int {
                            ProofNodeModel { hash: None, ..mpre[j] }
                        } else {
                            mpre[j]
                        });
                    }
                }
                match parent {
                    Some(p) => {
                        let pi = p.index();
                        proof {
                            assert(m0[cur as int].parent == Some(pi));
                            assert(pi < len && cur < pi) by {
                                assert(old(self).spec_models()[cur as int].parent is Some);
                            }
                            assert(parent_edge(m0, cur as int, pi as int));
                            lemma_upstream_extend(m0, ls[k as int] as int, cur as int, pi as int);
                            // parent links ascend, so chains never descend
                            assert forall|a: int|
                                0 <= a < m0.len() && #[trigger] m0[a].parent is Some implies m0[a].parent->Some_0
                                > a by {
                                assert(old(self).spec_models()[a].parent is Some);
                            }
                            // a node past `cur` on the chain is past its parent, or is `cur`
                            assert forall|j: int|
                                0 <= j < len && upstream(m0, cur as int, j) && j != cur as int
                                implies upstream(m0, pi as int, j) by {
                                lemma_upstream_peel(m0, cur as int, j);
                            }
                            // and nothing the parent reaches lies at or below `cur`
                            assert forall|j: int|
                                0 <= j < len && upstream(m0, pi as int, j) implies upstream(
                                m0,
                                cur as int,
                                j,
                            ) && j != cur as int by {
                                lemma_upstream_monotone(m0, pi as int, j);
                                lemma_upstream_unpeel(m0, cur as int, pi as int, j);
                            }
                        }
                        cur = pi;
                    },
                    None => {
                        proof {
                            assert forall|j: int|
                                0 <= j < len && upstream(m0, cur as int, j) implies j == cur as int by {
                                if j != cur as int {
                                    lemma_upstream_peel(m0, cur as int, j);
                                    assert(m0[cur as int].parent is Some);
                                }
                            }
                        }
                        break ;
                    },
                }
            }
        }
    }
}

} // verus!

verus! {

/// The digest obtained by absorbing the collected siblings bottom-up into a
/// starting digest: each step hashes the sibling and the running digest in
/// positional order (`true` means the sibling sits on the left).
pub open spec fn sib_fold(alg: HashAlg, sibs: Seq<(Seq<u8>, bool)>, h: Seq<u8>) -> Seq<u8>
    decreases sibs.len(),
{
    if sibs.len() == 0 {
        h
    } else {
        let prev = sib_fold(alg, sibs.drop_last(), h);
        let sv = sibs.last();
        digest_of(
            alg,
            if sv.1 {
                sv.0 + prev
            } else {
                prev + sv.0
            },
        )
    }
}

/// The concatenation of exactly two parts is their join.
pub proof fn lemma_concat_bytes_two(x: Seq<u8>, y: Seq<u8>)
    ensures
        crate::hasher::concat_bytes(seq![x, y]) == x + y,
{
    let two = seq![x, y];
    assert(two.drop_last().drop_last() =~= Seq::<Seq<u8>>::empty());
    assert(crate::hasher::concat_bytes(two.drop_last().drop_last()) =~= Seq::<u8>::empty());
    assert(two.drop_last().last() == x);
    assert(crate::hasher::concat_bytes(two.drop_last()) =~= x);
    assert(two.last() == y);
}

/// The digest views of a collected sibling list.
pub open spec fn sib_views(s: Seq<(Vec<u8>, bool)>) -> Seq<(Seq<u8>, bool)> {
    s.map_values(|sv: (Vec<u8>, bool)| (sv.0@, sv.1))
}

/// Absorbing one more sibling hashes it against the running digest.
pub proof fn lemma_sib_fold_step(
    alg: HashAlg,
    sv0: Seq<(Seq<u8>, bool)>,
    h: Seq<u8>,
    s: Seq<u8>,
    left: bool,
)
    ensures
        sib_fold(alg, sv0.push((s, left)), h) == digest_of(
            alg,
            if left {
                s + sib_fold(alg, sv0, h)
            } else {
                sib_fold(alg, sv0, h) + s
            },
        ),
{
    assert(sv0.push((s, left)).drop_last() =~= sv0);
    assert(sv0.push((s, left)).last() == (s, left));
}

/// In a well-formed tree of more than two nodes, a parent's digest is the
/// digest of its two children's digests, joined in order.
#[verifier::rlimit(100)]
pub proof fn lemma_parent_hash(tree: &MrkleTree, p: int, c0: usize, c1: usize)
    requires
        tree.wf(),
        0 <= p < tree.spec_len(),
        tree.spec_nodes()[p].spec_children().len() == 2,
        tree.spec_nodes()[p].spec_children()[0] == c0,
        tree.spec_nodes()[p].spec_children()[1] == c1,
        c0 < tree.spec_len(),
        c1 < tree.spec_len(),
    ensures
        tree.spec_nodes()[p].spec_hash() == digest_of(
            tree.spec_alg(),
            tree.spec_nodes()[c0 as int].spec_hash() + tree.spec_nodes()[c1 as int].spec_hash(),
        ),
{
    let ns = tree.spec_nodes();
    assert(ns[p].spec_hash() == digest_of(
        tree.spec_alg(),
        crate::hasher::concat_bytes(tree.child_hashes(p)),
    ));
    assert(tree.child_hashes(p).len() == 2);
    assert(tree.child_hashes(p)[0] == ns[c0 as int].spec_hash());
    assert(tree.child_hashes(p)[1] == ns[c1 as int].spec_hash());
    assert(tree.child_hashes(p) =~= seq![ns[c0 as int].spec_hash(), ns[c1 as int].spec_hash()]);
    lemma_concat_bytes_two(ns[c0 as int].spec_hash(), ns[c1 as int].spec_hash());
}

/// What the walk from `leaf` records at step `t`: the digest of the sibling
/// sitting next to the `t`-th ancestor of `leaf`, tagged `true` when that
/// sibling is the left child of their shared parent.
pub open spec fn recorded_sibling(tns: Seq<MrkleNode>, leaf: int, t: int) -> (Seq<u8>, bool) {
    let cur = crate::merkle::anc(tns, leaf, t as nat);
    let p = tns[cur].spec_parent()->Some_0 as int;
    let cs = tns[p].spec_children();
    if cs[0] == cur as usize {
        (tns[cs[1] as int].spec_hash(), false)
    } else {
        (tns[cs[0] as int].spec_hash(), true)
    }
}

/// What single-leaf generation puts at proof slots `2t+1` and `2t+2`: the
/// digest of the sibling next to the `t`-th ancestor of the target leaf,
/// and an unfilled parent whose child order mirrors the tree's.
pub open spec fn sibling_slots_match(
    tns: Seq<MrkleNode>,
    leaf: int,
    m: Seq<ProofNodeModel>,
    t: int,
) -> bool {
    let cur = crate::merkle::anc(tns, leaf, t as nat);
    let p = tns[cur].spec_parent()->Some_0 as int;
    let cs = tns[p].spec_children();
    if cs[0] == cur as usize {
        &&& m[2 * t + 1].hash == Some(tns[cs[1] as int].spec_hash())
        &&& m[2 * t + 2].children == seq![(2 * t) as usize, (2 * t + 1) as usize]
    } else {
        &&& m[2 * t + 1].hash == Some(tns[cs[0] as int].spec_hash())
        &&& m[2 * t + 2].children == seq![(2 * t + 1) as usize, (2 * t) as usize]
    }
}

impl MrkleProof {
    /// Walk from `leaf` toward the root of `tree`, collecting at each parent
    /// the sibling digests next to the current node, each tagged with
    /// whether it sits on the left.
    #[verifier::loop_isolation(false)]
    #[verifier::rlimit(100)]
    fn collect_siblings(tree: &MrkleTree, leaf: usize) -> (sibs: Vec<(Vec<u8>, bool)>)
        requires
            tree.wf(),
            tree.spec_len() > 2,
            leaf < tree.spec_len(),
            tree.spec_nodes()[leaf as int].spec_children().len() == 0,
        ensures
            sib_fold(
                tree.spec_alg(),
                sib_views(sibs@),
                tree.spec_nodes()[leaf as int].spec_hash(),
            ) == tree.spec_root_hash(),
            leaf != tree.spec_len() - 1 ==> sibs@.len() >= 1,
            sibs@.len() == crate::merkle::chain_depth(tree.spec_nodes(), leaf as int),
            forall|t: int|
                0 <= t < sibs@.len() ==> #[trigger] sib_views(sibs@)[t] == recorded_sibling(
                    tree.spec_nodes(),
                    leaf as int,
                    t,
                ),
    {
        let ghost ns = tree.spec_nodes();
        let ghost alg = tree.spec_alg();
        let ghost hleaf = ns[leaf as int].spec_hash();
        let len = tree.len();
        let mut sibs: Vec<(Vec<u8>, bool)> = Vec::new();
        let mut cur = leaf;
        proof {
            assert(sib_views(sibs@) =~= Seq::<(Seq<u8>, bool)>::empty());
        }
        #[verifier::loop_isolation(true)]
        loop
            invariant
                tree.wf(),
                tree.spec_len() > 2,
                ns == tree.spec_nodes(),
                alg == tree.spec_alg(),
                len == tree.spec_len(),
                cur < len,
                sibs@.len() == 0 ==> cur == leaf,
                cur as int == crate::merkle::anc(ns, leaf as int, sibs@.len() as nat),
                crate::merkle::chain_depth(ns, leaf as int) == sibs@.len()
                    + crate::merkle::chain_depth(ns, cur as int),
                forall|t: int|
                    0 <= t < sibs@.len() ==> #[trigger] sib_views(sibs@)[t] == recorded_sibling(
                        ns,
                        leaf as int,
                        t,
                    ),
                sib_fold(
                    alg,
                    sib_views(sibs@),
                    hleaf,
                ) == ns[cur as int].spec_hash(),
            ensures
                sibs@.len() == 0 ==> cur == leaf,
                cur == len - 1,
                sibs@.len() == crate::merkle::chain_depth(ns, leaf as int),
                forall|t: int|
                    0 <= t < sibs@.len() ==> #[trigger] sib_views(sibs@)[t] == recorded_sibling(
                        ns,
                        leaf as int,
                        t,
                    ),
                sib_fold(
                    alg,
                    sib_views(sibs@),
                    hleaf,
                ) == ns[cur as int].spec_hash(),
            decreases len - cur,
        {
            let cur_node = match tree.get(cur) {
                Some(n) => n,
                None => {
                    proof {
                        assert(false);
                    }
                    continue ;
                },
            };
            let parent = cur_node.parent();
            let p = match parent {
                Some(p) => p.index(),
                None => {
                    proof {
                        if cur as int != len - 1 {
                            assert(ns[cur as int].spec_parent() is Some);
                        }
                        assert(crate::merkle::chain_depth(ns, cur as int) == 0);
                    }
                    break ;
                },
            };
            proof {
                assert(ns[cur as int].spec_parent() == Some(p));
                assert(cur < p < len);
                assert(crate::merkle::chain_depth(ns, cur as int) == 1
                    + crate::merkle::chain_depth(ns, p as int));
                assert(ns[p as int].spec_children().contains(cur as usize));
                // with more than two nodes the tree has no single-child wrapper
                assert(ns[p as int].spec_children().len() == 2);
            }
            let p_node = match tree.get(p) {
                Some(n) => n,
                None => {
                    proof {
                        assert(false);
                    }
                    continue ;
                },
            };
            let p_children = p_node.children();
            let c0 = p_children[0].index();
            let c1 = p_children[1].index();
            let ghost cs = ns[p as int].spec_children();
            proof {
                assert(cs == p_children@.map_values(|y: NodeIndex| y@));
                assert(cs[0] == p_children@[0]@ && cs[1] == p_children@[1]@);
            }
            proof {
                assert(c0 == cs[0] && c1 == cs[1]);
                assert(c0 < p && c1 < p);
                assert(cur == c0 || cur == c1) by {
                    let kk = choose|kk: int| 0 <= kk < cs.len() && cs[kk] == cur as usize;
                    assert(kk == 0 || kk == 1);
                }
                assert(c0 != c1) by {
                    assert(cs.no_duplicates());
                }
                lemma_parent_hash(tree, p as int, c0, c1);
            }
            let ghost sv0 = sib_views(sibs@);
            let ghost prev = sib_fold(alg, sv0, hleaf);
            if cur == c0 {
                // sibling on the right
                let sib_node = match tree.get(c1) {
                    Some(n) => n,
                    None => {
                        proof {
                            assert(false);
                        }
                        continue ;
                    },
                };
                let sh = sib_node.hash().clone();
                proof {
                    assert(sh@ =~= ns[c1 as int].spec_hash());
                }
                sibs.push((sh, false));
                proof {
                    assert(sib_views(sibs@) =~= sv0.push((ns[c1 as int].spec_hash(), false)));
                    lemma_sib_fold_step(alg, sv0, hleaf, ns[c1 as int].spec_hash(), false);
                    assert(crate::merkle::anc(ns, leaf as int, (sv0.len() + 1) as nat)
                        == p as int) by {
                        assert(crate::merkle::anc(ns, leaf as int, sv0.len() as nat)
                            == cur as int);
                    }
                    assert(recorded_sibling(ns, leaf as int, sv0.len() as int) == (
                        ns[c1 as int].spec_hash(),
                        false,
                    ));
                    assert forall|t: int|
                        0 <= t < sibs@.len() implies #[trigger] sib_views(sibs@)[t]
                        == recorded_sibling(ns, leaf as int, t) by {
                        if t < sv0.len() {
                            assert(sib_views(sibs@)[t] == sv0[t]);
                        }
                    }
                }
            } else {
                // sibling on the left
                let sib_node = match tree.get(c0) {
                    Some(n) => n,
                    None => {
                        proof {
                            assert(false);
                        }
                        continue ;
                    },
                };
                let sh = sib_node.hash().clone();
                proof {
                    assert(sh@ =~= ns[c0 as int].spec_hash());
                }
                sibs.push((sh, true));
                proof {
                    assert(sib_views(sibs@) =~= sv0.push((ns[c0 as int].spec_hash(), true)));
                    lemma_sib_fold_step(alg, sv0, hleaf, ns[c0 as int].spec_hash(), true);
                    assert(crate::merkle::anc(ns, leaf as int, (sv0.len() + 1) as nat)
                        == p as int) by {
                        assert(crate::merkle::anc(ns, leaf as int, sv0.len() as nat)
                            == cur as int);
                    }
                    assert(cur == c1);
                    assert(recorded_sibling(ns, leaf as int, sv0.len() as int) == (
                        ns[c0 as int].spec_hash(),
                        true,
                    ));
                    assert forall|t: int|
                        0 <= t < sibs@.len() implies #[trigger] sib_views(sibs@)[t]
                        == recorded_sibling(ns, leaf as int, t) by {
                        if t < sv0.len() {
                            assert(sib_views(sibs@)[t] == sv0[t]);
                        }
                    }
                }
            }
            cur = p;
        }
        sibs
    }
}

} // verus!

verus! {

/// An arena whose only unfilled leaf is node 0 lists exactly node 0.
pub proof fn lemma_unfilled_single(m: Seq<ProofNodeModel>)
    requires
        m.len() >= 1,
        m[0].children.len() == 0,
        m[0].hash is None,
        forall|j: int| 1 <= j < m.len() ==> (#[trigger] m[j].children).len() > 0 || m[j].hash is Some,
    ensures
        unfilled_leaves(m) == seq![0usize],
    decreases m.len(),
{
    if m.len() == 1 {
        assert(unfilled_leaves(m.drop_last()) =~= Seq::<usize>::empty());
        assert(unfilled_leaves(m) =~= seq![0usize]);
    } else {
        assert(m.drop_last()[0] == m[0]);
        assert forall|j: int|
            1 <= j < m.drop_last().len() implies (#[trigger] m.drop_last()[j].children).len() > 0
            || m.drop_last()[j].hash is Some by {
            assert(m.drop_last()[j] == m[j]);
        }
        lemma_unfilled_single(m.drop_last());
        assert(m[m.len() - 1].children.len() > 0 || m[m.len() - 1].hash is Some);
    }
}

/// Marks that hold the start of a chain and are closed under parent edges
/// cover everything upstream of the start.
pub proof fn lemma_upstream_in_marks(m: Seq<ProofNodeModel>, marks: Seq<bool>, start: int, j: int)
    requires
        marks.len() == m.len(),
        0 <= start < m.len(),
        marks[start],
        forall|a: int, b: int|
            0 <= a < m.len() && marks[a] && #[trigger] parent_edge(m, a, b) && 0 <= b < m.len()
                ==> marks[b],
        forall|a: int|
            0 <= a < m.len() && #[trigger] m[a].parent is Some ==> m[a].parent->Some_0 < m.len(),
        upstream(m, start, j),
    ensures
        0 <= j < m.len(),
        marks[j],
{
    let p = choose|p: Seq<int>| is_parent_path(m, p) && p.first() == start && p.last() == j;
    lemma_upstream_in_marks_path(m, marks, p);
}

proof fn lemma_upstream_in_marks_path(m: Seq<ProofNodeModel>, marks: Seq<bool>, p: Seq<int>)
    requires
        marks.len() == m.len(),
        is_parent_path(m, p),
        marks[p.first()],
        forall|a: int, b: int|
            0 <= a < m.len() && marks[a] && #[trigger] parent_edge(m, a, b) && 0 <= b < m.len()
                ==> marks[b],
        forall|a: int|
            0 <= a < m.len() && #[trigger] m[a].parent is Some ==> m[a].parent->Some_0 < m.len(),
    ensures
        marks[p.last()],
    decreases p.len(),
{
    if p.len() > 1 {
        let q = p.drop_last();
        assert(is_parent_path(m, q)) by {
            assert forall|k: int| 0 <= k < q.len() - 1 implies #[trigger] parent_edge(
                m,
                q[k],
                q[k + 1],
            ) by {
                assert(parent_edge(m, p[k], p[k + 1]));
            }
        }
        lemma_upstream_in_marks_path(m, marks, q);
        let km = p.len() - 2;
        assert(parent_edge(m, p[km], p[km + 1]));
        assert(m[p[km]].parent is Some);
    }
}

impl MrkleProof {
    /// Assemble the proof arena for a collected sibling list: the unfilled
    /// leaf at slot zero, then one supplied sibling and one unfilled parent
    /// per step, ending at the root.
    #[verifier::loop_isolation(false)]
    #[verifier::rlimit(100)]
    fn build_from_siblings(
        alg: HashAlg,
        sibs: Vec<(Vec<u8>, bool)>,
        Ghost(hleaf): Ghost<Seq<u8>>,
    ) -> (r: Tree<MrkleProofNode>)
        requires
            sibs@.len() >= 1,
        ensures
            ({
                let m = models(r.nodes@);
                let root = (2 * sibs@.len()) as int;
                &&& m.len() == 2 * sibs@.len() + 1
                &&& r.spec_root() == Some((2 * sibs@.len()) as usize)
                &&& proof_arena_wf(m, r.spec_root())
                &&& m[0].children.len() == 0
                &&& m[0].hash is None
                &&& unfilled_leaves(m) == seq![0usize]
                &&& heval(alg, fill(m, 0, hleaf), root) == Some(sib_fold(alg, sib_views(sibs@), hleaf))
                &&& forall|j: int| 0 <= j < m.len() ==> ((#[trigger] m[j].children).len() > 0 <==> (
                j > 0 && j % 2 == 0))
                &&& forall|j: int| 0 <= j < m.len() ==> ((#[trigger] m[j].hash) is Some <==> j % 2
                    == 1)
                &&& forall|j: int|
                    0 <= j < m.len() ==> #[trigger] m[j].parent == (if j == m.len() - 1 {
                        None::<usize>
                    } else if j % 2 == 0 {
                        Some((j + 2) as usize)
                    } else {
                        Some((j + 1) as usize)
                    })
                &&& forall|t: int|
                    0 <= t < sibs@.len() ==> #[trigger] m[2 * t + 1].hash == Some(
                        sib_views(sibs@)[t].0,
                    ) && m[2 * t + 2].children == (if sib_views(sibs@)[t].1 {
                        seq![(2 * t + 1) as usize, (2 * t) as usize]
                    } else {
                        seq![(2 * t) as usize, (2 * t + 1) as usize]
                    })
            }),
    {
        let n = sibs.len();
        let mut arena: Tree<MrkleProofNode> = Tree::new();
        let _leaf_slot = arena.push(MrkleProofNode::new(None, Vec::new(), None));
        let mut cursor: usize = 0;
        let mut k: usize = 0;
        proof {
            let m = models(arena.nodes@);
            assert(m =~= seq![arena.nodes@[0].model()]);
            assert(m[0].children.len() == 0 && m[0].hash is None && m[0].parent is None);
            assert(sib_views(sibs@).subrange(0, 0) =~= Seq::<(Seq<u8>, bool)>::empty());
            assert(fill(m, 0, hleaf)[0].hash == Some(hleaf));
            assert(heval(alg, fill(m, 0, hleaf), 0) == Some(hleaf));
        }
        while k < n
            invariant
                n == sibs@.len(),
                k <= n,
                cursor as int == 2 * k as int,
                arena.nodes@.len() == 2 * k + 1,
                ({
                    let m = models(arena.nodes@);
                    &&& heval(alg, fill(m, 0, hleaf), cursor as int) == Some(
                        sib_fold(alg, sib_views(sibs@).subrange(0, k as int), hleaf),
                    )
                    &&& m[0].children.len() == 0
                    &&& m[0].hash is None
                    &&& forall|j: int|
                        0 <= j < m.len() ==> ((#[trigger] m[j].children).len() > 0 <==> (j > 0 && j
                            % 2 == 0))
                    &&& forall|j: int|
                        0 <= j < m.len() ==> ((#[trigger] m[j].hash) is Some <==> j % 2 == 1)
                    &&& forall|j: int|
                        0 <= j < m.len() ==> #[trigger] m[j].parent == (if j == m.len() - 1 {
                            None::<usize>
                        } else if j % 2 == 0 {
                            Some((j + 2) as usize)
                        } else {
                            Some((j + 1) as usize)
                        })
                    &&& forall|t: int|
                        0 <= t < k ==> #[trigger] m[2 * t + 1].hash == Some(sib_views(sibs@)[t].0)
                            && m[2 * t + 2].children == (if sib_views(sibs@)[t].1 {
                            seq![(2 * t + 1) as usize, (2 * t) as usize]
                        } else {
                            seq![(2 * t) as usize, (2 * t + 1) as usize]
                        })
                    &&& forall|j: int, t: int|
                        0 <= j < m.len() && 0 <= t < m[j].children.len()
                            ==> #[trigger] m[j].children[t] < j
                    &&& forall|j: int| 0 <= j < m.len() ==> (#[trigger] m[j].children).no_duplicates()
                    &&& forall|j: int, t: int|
                        0 <= j < m.len() && 0 <= t < m[j].children.len() ==> m[#[trigger] m[j].children[t] as int].parent
                            == Some(j as usize)
                    &&& forall|j: int|
                        0 <= j < m.len() && #[trigger] m[j].parent is Some ==> {
                            let p = m[j].parent->Some_0;
                            j < p < m.len() && m[p as int].children.contains(j as usize)
                        }
                }),
            decreases n - k,
        {
            let ghost mpre = models(arena.nodes@);
            let ghost pre_len = arena.nodes@.len() as int;
            let (sh, is_left) = (sibs[k].0.clone(), sibs[k].1);
            proof {
                assert(sh@ =~= sibs@[k as int].0@);
            }
            let sib_idx = arena.push(MrkleProofNode::new(None, Vec::new(), Some(sh)));
            let mut children: Vec<NodeIndex> = Vec::new();
            if is_left {
                children.push(sib_idx);
                children.push(NodeIndex::new(cursor));
            } else {
                children.push(NodeIndex::new(cursor));
                children.push(sib_idx);
            }
            let parent_idx = arena.push(MrkleProofNode::new(None, children, None));
            {
                let nc = &mut arena.nodes[cursor];
                nc.set_parent(parent_idx);
            }
            {
                let ns2 = &mut arena.nodes[sib_idx.index()];
                ns2.set_parent(parent_idx);
            }
            proof {
                let m = models(arena.nodes@);
                let si = 2 * (k as int) + 1;
                let pi = 2 * (k as int) + 2;
                assert(sib_idx@ == si && parent_idx@ == pi);
                assert(m.len() == pre_len + 2);
                // pointwise picture of the arena after this step
                assert forall|j: int|
                    0 <= j < pre_len && j != cursor as int implies #[trigger] m[j] == mpre[j] by {
                    assert(m[j] == arena.nodes@[j].model());
                }
                assert(m[cursor as int] == (ProofNodeModel {
                    parent: Some(pi as usize),
                    ..mpre[cursor as int]
                })) by {
                    assert(m[cursor as int] == arena.nodes@[cursor as int].model());
                }
                assert(m[si as int].parent == Some(pi as usize)) by {
                    assert(m[si as int] == arena.nodes@[si as int].model());
                }
                assert(m[pi as int].parent is None) by {
                    assert(m[pi as int] == arena.nodes@[pi as int].model());
                }
                assert(m[si as int].children.len() == 0 && m[si as int].hash == Some(
                    sibs@[k as int].0@,
                ));
                assert(m[si as int].hash == Some(sib_views(sibs@)[k as int].0));
                assert(sib_views(sibs@)[k as int].1 == sibs@[k as int].1);
                assert(m[pi as int].hash is None);
                assert(m[pi as int].children =~= (if sibs@[k as int].1 {
                    seq![si as usize, cursor as usize]
                } else {
                    seq![cursor as usize, si as usize]
                }));
                // evaluation agrees with the previous arena below the new parent
                assert forall|j: int|
                    0 <= j <= cursor as int implies fill(m, 0, hleaf)[j].children == fill(
                    mpre,
                    0,
                    hleaf,
                )[j].children && fill(m, 0, hleaf)[j].hash == fill(mpre, 0, hleaf)[j].hash by {
                    assert(m[j].children == mpre[j].children && m[j].hash == mpre[j].hash);
                }
                lemma_heval_agrees(alg, fill(mpre, 0, hleaf), fill(m, 0, hleaf), cursor as int);
                assert(heval(alg, fill(m, 0, hleaf), cursor as int) == Some(
                    sib_fold(alg, sib_views(sibs@).subrange(0, k as int), hleaf),
                ));
                assert(fill(m, 0, hleaf)[si as int].hash == Some(sibs@[k as int].0@));
                assert(heval(alg, fill(m, 0, hleaf), si as int) == Some(sibs@[k as int].0@));
                // one unfolding of the evaluation at the new parent
                let fm = fill(m, 0, hleaf);
                let cs = fm[pi as int].children;
                let h_sib = sibs@[k as int].0@;
                let h_cur = sib_fold(alg, sib_views(sibs@).subrange(0, k as int), hleaf);
                assert(fm[pi as int].children == m[pi as int].children);
                assert(cs.len() == 2);
                let c0 = cs[0];
                let c1 = cs[1];
                assert(cs.drop_first()[0] == c1);
                assert(cs.drop_first().drop_first() =~= Seq::<usize>::empty());
                assert(heval_children(alg, fm, cs.drop_first().drop_first(), pi as int) == Some(
                    Seq::<u8>::empty(),
                ));
                assert((c0 as int) < pi as int && (c1 as int) < pi as int);
                assert(heval(alg, fm, c0 as int) is Some && heval(alg, fm, c1 as int) is Some);
                assert(heval_children(alg, fm, cs.drop_first(), pi as int) == Some(
                    heval(alg, fm, c1 as int)->Some_0 + Seq::<u8>::empty(),
                ));
                assert(heval_children(alg, fm, cs, pi as int) == Some(
                    heval(alg, fm, c0 as int)->Some_0 + (heval(alg, fm, c1 as int)->Some_0
                        + Seq::<u8>::empty()),
                ));
                assert(heval_children(alg, fm, cs, pi as int) == Some(
                    if sibs@[k as int].1 {
                        h_sib + h_cur
                    } else {
                        h_cur + h_sib
                    },
                )) by {
                    if sibs@[k as int].1 {
                        assert(heval(alg, fm, c0 as int)->Some_0 + (heval(
                            alg,
                            fm,
                            c1 as int,
                        )->Some_0 + Seq::<u8>::empty()) =~= h_sib + h_cur);
                    } else {
                        assert(heval(alg, fm, c0 as int)->Some_0 + (heval(
                            alg,
                            fm,
                            c1 as int,
                        )->Some_0 + Seq::<u8>::empty()) =~= h_cur + h_sib);
                    }
                }
                assert(heval(alg, fm, pi as int) == Some(
                    digest_of(
                        alg,
                        if sibs@[k as int].1 {
                            sibs@[k as int].0@ + sib_fold(
                                alg,
                                sib_views(sibs@).subrange(0, k as int),
                                hleaf,
                            )
                        } else {
                            sib_fold(alg, sib_views(sibs@).subrange(0, k as int), hleaf)
                                + sibs@[k as int].0@
                        },
                    ),
                ));
                assert(sib_views(sibs@).subrange(0, k + 1).drop_last() =~= sib_views(
                    sibs@,
                ).subrange(0, k as int));
                assert(sib_views(sibs@).subrange(0, k + 1).last() == (
                    sibs@[k as int].0@,
                    sibs@[k as int].1,
                ));
                assert(heval(alg, fm, pi as int) == Some(
                    sib_fold(alg, sib_views(sibs@).subrange(0, k + 1), hleaf),
                ));
            }
            cursor = parent_idx.index();
            k = k + 1;
        }
        proof {
            assert(sib_views(sibs@).subrange(0, n as int) =~= sib_views(sibs@));
        }
        arena.set_root(Some(NodeIndex::new(cursor)));
        proof {
            let m = models(arena.nodes@);
            lemma_unfilled_single(m);
        }
        arena
    }
}

} // verus!

verus! {

/// The shape of a proof arena produced by single-leaf generation: slot 0 is
/// the unfilled leaf, odd slots are supplied siblings, and even slots above 0
/// are unfilled binary parents chaining up to the root at the last slot.
pub open spec fn generated_shape(m: Seq<ProofNodeModel>) -> bool {
    &&& m.len() >= 3
    &&& m.len() % 2 == 1
    &&& forall|j: int|
        0 <= j < m.len() ==> ((#[trigger] m[j].children).len() > 0 <==> (j > 0 && j % 2 == 0))
    &&& forall|j: int| 0 <= j < m.len() ==> ((#[trigger] m[j].hash) is Some <==> j % 2 == 1)
    &&& forall|j: int|
        0 <= j < m.len() ==> #[trigger] m[j].parent == (if j == m.len() - 1 {
            None::<usize>
        } else if j % 2 == 0 {
            Some((j + 2) as usize)
        } else {
            Some((j + 1) as usize)
        })
}

/// In a generated arena the nodes upstream of the leaf are exactly the even
/// slots: the unfilled leaf, the unfilled parents, and the root.
pub proof fn lemma_generated_upstream(m: Seq<ProofNodeModel>, j: int)
    requires
        generated_shape(m),
        0 <= j < m.len(),
        m.len() <= usize::MAX,
    ensures
        upstream(m, 0, j) <==> j % 2 == 0,
{
    if j % 2 == 0 {
        lemma_generated_even_upstream(m, j);
    }
    if upstream(m, 0, j) {
        let marks = Seq::new(m.len(), |a: int| a % 2 == 0);
        assert forall|a: int, b: int|
            0 <= a < m.len() && marks[a] && #[trigger] parent_edge(m, a, b) && 0 <= b < m.len()
            implies marks[b] by {
            assert(m[a].parent == Some(b as usize));
        }
        lemma_upstream_in_marks(m, marks, 0, j);
    }
}

proof fn lemma_generated_even_upstream(m: Seq<ProofNodeModel>, j: int)
    requires
        generated_shape(m),
        0 <= j < m.len(),
        j % 2 == 0,
        m.len() <= usize::MAX,
    ensures
        upstream(m, 0, j),
    decreases j,
{
    if j == 0 {
        lemma_upstream_self(m, 0);
    } else {
        lemma_generated_even_upstream(m, j - 2);
        assert(m[j - 2].parent == Some(j as usize));
        assert(parent_edge(m, j - 2, j));
        lemma_upstream_extend(m, 0, j - 2, j);
    }
}

/// The arena after the verifier's reset: every digest slot on a parent chain
/// from a listed leaf is cleared, everything else is untouched.
pub open spec fn refreshed(m: Seq<ProofNodeModel>, leaves: Seq<usize>) -> Seq<ProofNodeModel> {
    Seq::new(
        m.len(),
        |j: int|
            if (exists|k: int| 0 <= k < leaves.len() && upstream(m, #[trigger] leaves[k] as int, j)) {
                ProofNodeModel { hash: None, ..m[j] }
            } else {
                m[j]
            },
    )
}

/// Resetting a validated single-leaf proof restores it to its generated
/// state: filling the leaf again with the same digest and revalidating must
/// therefore give the same outcome as the first validation.
pub proof fn lemma_refresh_restores(alg: HashAlg, m: Seq<ProofNodeModel>, h: Seq<u8>)
    requires
        generated_shape(m),
        m.len() <= usize::MAX,
    ensures
        refreshed(saturate(alg, fill(m, 0, h)), seq![0usize]) == m,
{
    let f = fill(m, 0, h);
    let v = saturate(alg, f);
    assert(f.len() == m.len() && v.len() == m.len());
    assert forall|j: int| 0 <= j < m.len() implies #[trigger] refreshed(v, seq![0usize])[j]
        == m[j] by {
        assert(v[j] == (ProofNodeModel { hash: heval(alg, f, j), ..f[j] }));
        assert forall|a: int| 0 <= a < m.len() implies #[trigger] v[a].parent == m[a].parent by {
            assert(v[a] == (ProofNodeModel { hash: heval(alg, f, a), ..f[a] }));
        }
        lemma_generated_upstream(m, j);
        if upstream(v, 0, j) {
            lemma_upstream_same_parents(v, m, 0, j);
        }
        if upstream(m, 0, j) {
            lemma_upstream_same_parents(m, v, 0, j);
        }
        if j % 2 == 0 {
            assert(upstream(v, 0, j));
            assert(seq![0usize][0] == 0usize);
            assert(upstream(v, seq![0usize][0] as int, j));
            assert(refreshed(v, seq![0usize])[j] == (ProofNodeModel { hash: None, ..v[j] }));
            assert(m[j].hash is None);
        } else {
            assert(!upstream(v, 0, j));
            assert forall|k: int| 0 <= k < 1 implies !upstream(v, #[trigger] seq![0usize][k] as int, j) by {
                assert(seq![0usize][k] == 0usize);
            }
            assert(refreshed(v, seq![0usize])[j] == v[j]);
            // an odd slot is a supplied sibling: childless, so evaluation
            // returns its own digest, and filling slot 0 does not touch it
            assert(f[j] == m[j]);
            assert(f[j].children.len() == 0);
            assert(heval(alg, f, j) == m[j].hash);
        }
    }
    assert(refreshed(v, seq![0usize]) =~= m);
}

impl MrkleProof {
    /// Construct a proof for one leaf of a tree: walk from the leaf to the
    /// root collecting sibling digests, then assemble the proof arena
    /// bottom-up. Fails with `InvalidSize` on a tree of at most one leaf and
    /// with `ExpectedLeafHash` when the index does not name a leaf.
    #[verifier::rlimit(100)]
    pub(crate) fn generate_proof_from_leaf(tree: &MrkleTree, leaf: NodeIndex) -> (r: Result<
        MrkleProof,
        ProofError,
    >)
        requires
            tree.wf(),
        ensures
            tree.spec_len() <= 2 ==> r == Err::<MrkleProof, ProofError>(ProofError::InvalidSize),
            tree.spec_len() > 2 && !(leaf@ < tree.spec_len()
                && tree.spec_nodes()[leaf@ as int].spec_children().len() == 0) ==> r == Err::<
                MrkleProof,
                ProofError,
            >(ProofError::ExpectedLeafHash),
            tree.spec_len() > 2 && leaf@ < tree.spec_len()
                && tree.spec_nodes()[leaf@ as int].spec_children().len() == 0 ==> match r {
                Ok(p) => {
                    &&& p.wf()
                    &&& p.spec_alg() == tree.spec_alg()
                    &&& p.spec_expected() == tree.spec_root_hash()
                    &&& p.spec_valid() is None
                    &&& p.spec_leaves() == seq![0usize]
                    &&& generated_shape(p.spec_models())
                    &&& p.spec_root() == Some((p.spec_models().len() - 1) as usize)
                    &&& p.spec_models().len() == 2 * crate::merkle::chain_depth(
                        tree.spec_nodes(),
                        leaf@ as int,
                    ) + 1
                    &&& forall|t: int|
                        0 <= t < crate::merkle::chain_depth(tree.spec_nodes(), leaf@ as int)
                            ==> #[trigger] sibling_slots_match(
                            tree.spec_nodes(),
                            leaf@ as int,
                            p.spec_models(),
                            t,
                        )
                    &&& heval(
                        tree.spec_alg(),
                        fill(p.spec_models(), 0, tree.spec_nodes()[leaf@ as int].spec_hash()),
                        p.spec_root()->Some_0 as int,
                    ) == Some(tree.spec_root_hash())
                },
                Err(_) => false,
            },
    {
        let length = tree.len();
        if length <= 2 {
            return Err(ProofError::InvalidSize);
        }
        let li = leaf.index();
        let is_leaf = match tree.get(li) {
            Some(n) => n.is_leaf(),
            None => false,
        };
        if !is_leaf {
            return Err(ProofError::ExpectedLeafHash);
        }
        let expected = tree.root_hash().clone();
        proof {
            assert(expected@ =~= tree.spec_root_hash());
        }
        let ghost hleaf = tree.spec_nodes()[li as int].spec_hash();
        let sibs = MrkleProof::collect_siblings(tree, li);
        proof {
            // the leaf is childless while the root is internal, so the walk
            // climbed at least one parent and recorded a sibling
            assert(li as int != tree.spec_len() - 1) by {
                assert(tree.spec_nodes()[tree.spec_len() - 1].spec_children().len() != 0);
            }
            assert(sibs@.len() >= 1);
        }
        let arena = MrkleProof::build_from_siblings(tree.alg(), sibs, Ghost(hleaf));
        let ghost m = models(arena.nodes@);
        let leaves = vec![NodeIndex::new(0)];
        let p = MrkleProof {
            core: arena,
            expected,
            leaves,
            valid: None,
            alg: tree.alg(),
        };
        proof {
            assert(p.spec_leaves() =~= seq![0usize]);
            assert(p.wf()) by {
                assert(proof_arena_wf(m, Some((m.len() - 1) as usize)));
                assert(leaves_ok(m, seq![0usize]));
            }
            assert(generated_shape(m));
            // the recorded siblings occupy the odd slots, in path order
            assert forall|t: int|
                0 <= t < crate::merkle::chain_depth(tree.spec_nodes(), li as int)
                implies #[trigger] sibling_slots_match(tree.spec_nodes(), li as int, m, t) by {
                assert(sib_views(sibs@)[t] == recorded_sibling(tree.spec_nodes(), li as int, t));
                assert(m[2 * t + 1].hash == Some(sib_views(sibs@)[t].0));
            }
        }
        Ok(p)
    }

    /// Generate a proof for the given leaves of a tree. Exactly one leaf is
    /// supported; the validation algorithm already handles multi-leaf
    /// topologies received from elsewhere.
    pub fn generate(tree: &MrkleTree, leaves: Vec<NodeIndex>) -> (r: Result<
        MrkleProof,
        ProofError,
    >)
        requires
            tree.wf(),
            leaves@.len() == 1,
        ensures
            tree.spec_len() <= 2 ==> r == Err::<MrkleProof, ProofError>(ProofError::InvalidSize),
            tree.spec_len() > 2 && !(leaves@[0]@ < tree.spec_len()
                && tree.spec_nodes()[leaves@[0]@ as int].spec_children().len() == 0) ==> r == Err::<
                MrkleProof,
                ProofError,
            >(ProofError::ExpectedLeafHash),
            tree.spec_len() > 2 && leaves@[0]@ < tree.spec_len()
                && tree.spec_nodes()[leaves@[0]@ as int].spec_children().len() == 0 ==> match r {
                Ok(p) => {
                    &&& p.wf()
                    &&& p.spec_alg() == tree.spec_alg()
                    &&& p.spec_expected() == tree.spec_root_hash()
                    &&& p.spec_valid() is None
                    &&& p.spec_leaves() == seq![0usize]
                    &&& generated_shape(p.spec_models())
                    &&& p.spec_root() == Some((p.spec_models().len() - 1) as usize)
                    &&& p.spec_models().len() == 2 * crate::merkle::chain_depth(
                        tree.spec_nodes(),
                        leaves@[0]@ as int,
                    ) + 1
                    &&& forall|t: int|
                        0 <= t < crate::merkle::chain_depth(tree.spec_nodes(), leaves@[0]@ as int)
                            ==> #[trigger] sibling_slots_match(
                            tree.spec_nodes(),
                            leaves@[0]@ as int,
                            p.spec_models(),
                            t,
                        )
                    &&& heval(
                        tree.spec_alg(),
                        fill(
                            p.spec_models(),
                            0,
                            tree.spec_nodes()[leaves@[0]@ as int].spec_hash(),
                        ),
                        p.spec_root()->Some_0 as int,
                    ) == Some(tree.spec_root_hash())
                },
                Err(_) => false,
            },
    {
        MrkleProof::generate_proof_from_leaf(tree, leaves[0])
    }
}

/// A generated proof, filled with the digest of the leaf it was generated
/// for, validates against the tree's root digest.
pub fn verify_inclusion(tree: &MrkleTree, leaf: NodeIndex) -> (r: Result<bool, ProofError>)
    requires
        tree.wf(),
    ensures
        tree.spec_len() > 2 && leaf@ < tree.spec_len()
            && tree.spec_nodes()[leaf@ as int].spec_children().len() == 0 ==> r == Ok::<
            bool,
            ProofError,
        >(true),
{
    let mut p = match MrkleProof::generate_proof_from_leaf(tree, leaf) {
        Ok(p) => p,
        Err(e) => {
            return Err(e);
        },
    };
    let leaf_hash = match tree.get(leaf.index()) {
        Some(n) => n.hash().clone(),
        None => Vec::new(),
    };
    match p.update_leaf_hash(0, leaf_hash) {
        Ok(()) => (),
        Err(e) => {
            return Err(e);
        },
    }
    p.try_validate_basic()
}

} // verus!

verus! {

use crate::codec::{
    enc_arena, enc_children, enc_node, enc_nodes, enc_nodes_from, enc_opt_bytes, enc_opt_u64,
    enc_u64, lemma_enc_children_concat, lemma_enc_children_front, lemma_enc_children_len,
    lemma_enc_node_len, lemma_enc_node_prefix_unique, lemma_enc_nodes_split, lemma_u64_roundtrip,
    push_u64, read_u64, wire_models,
};

/// Append one proof node in wire form, substituting `expected` for the
/// digest slot when given (the root node carries the expected digest).
#[verifier::loop_isolation(false)]
#[verifier::rlimit(100)]
fn push_node(buf: &mut Vec<u8>, node: &MrkleProofNode, expected: Option<&Vec<u8>>)
    ensures
        final(buf)@ == old(buf)@ + enc_node(
            match expected {
                None => node.model(),
                Some(e) => ProofNodeModel { hash: Some(e@), ..node.model() },
            },
        ),
{
    let ghost wn = match expected {
        None => node.model(),
        Some(e) => ProofNodeModel { hash: Some(e@), ..node.model() },
    };
    let ghost pre = buf@;
    // parent slot
    match node.parent() {
        Some(p) => {
            buf.push(1u8);
            push_u64(buf, p.index() as u64);
            proof {
                assert(buf@ =~= pre + enc_opt_u64(Some(p@ as u64)));
            }
        },
        None => {
            buf.push(0u8);
            proof {
                assert(buf@ =~= pre + enc_opt_u64(None));
            }
        },
    }
    let ghost after_parent = buf@;
    proof {
        assert(after_parent =~= pre + enc_opt_u64(
            match wn.parent {
                None => None,
                Some(pp) => Some(pp as u64),
            },
        ));
    }
    // children
    let cs = node.children();
    let cn = cs.len();
    push_u64(buf, cn as u64);
    let ghost after_count = buf@;
    let ghost csv = wn.children;
    proof {
        assert(csv == cs@.map_values(|y: NodeIndex| y@));
        assert(enc_children(csv.subrange(0, 0)) =~= Seq::<u8>::empty());
        assert(after_count =~= after_count + enc_children(csv.subrange(0, 0)));
    }
    for k in 0..cn
        invariant
            cn == cs@.len(),
            csv == cs@.map_values(|y: NodeIndex| y@),
            buf@ == after_count + enc_children(csv.subrange(0, k as int)),
    {
        push_u64(buf, cs[k].index() as u64);
        proof {
            assert(csv.subrange(0, k + 1).drop_last() =~= csv.subrange(0, k as int));
            assert(csv.subrange(0, k + 1).last() == csv[k as int]);
            assert(csv[k as int] == cs@[k as int]@);
            assert(buf@ =~= after_count + enc_children(csv.subrange(0, k + 1)));
        }
    }
    proof {
        assert(csv.subrange(0, cn as int) =~= csv);
    }
    // digest slot
    let ghost before_hash = buf@;
    let hash_to_write: Option<&Vec<u8>> = match expected {
        Some(e) => Some(e),
        None => match &node.hash {
            Some(h) => Some(h),
            None => None,
        },
    };
    match hash_to_write {
        Some(h) => {
            buf.push(1u8);
            push_u64(buf, h.len() as u64);
            let mut t: usize = 0;
            let ghost hb = h@;
            let ghost hdr = buf@;
            while t < h.len()
                invariant
                    t <= hb.len(),
                    hb == h@,
                    buf@ == hdr + hb.subrange(0, t as int),
                decreases h@.len() - t,
            {
                buf.push(h[t]);
                proof {
                    assert(buf@ =~= hdr + hb.subrange(0, t + 1));
                }
                t = t + 1;
            }
            proof {
                assert(hb.subrange(0, hb.len() as int) =~= hb);
                assert(wn.hash == Some(hb));
                assert(buf@ =~= before_hash + enc_opt_bytes(Some(hb)));
            }
        },
        None => {
            buf.push(0u8);
            proof {
                assert(wn.hash is None);
                assert(buf@ =~= before_hash + enc_opt_bytes(None));
            }
        },
    }
    proof {
        assert(buf@ =~= pre + enc_node(wn));
    }
}

impl MrkleProof {
    /// Serialize the proof for transmission: the arena with the expected
    /// root digest stored in the root node's digest slot. A proof that has
    /// already been validated is rejected, so verifier-filled data is never
    /// forwarded.
    #[verifier::loop_isolation(false)]
    #[verifier::rlimit(100)]
    pub fn to_wire(&self) -> (r: Option<Vec<u8>>)
        requires
            self.wf(),
        ensures
            self.spec_valid() is Some <==> r is None,
            match r {
                Some(bytes) => bytes@ == enc_arena(
                    wire_models(
                        self.spec_models(),
                        self.spec_root()->Some_0,
                        self.spec_expected(),
                    ),
                    self.spec_root()->Some_0,
                ),
                None => true,
            },
    {
        if self.valid.is_some() {
            return None;
        }
        let ghost wm = wire_models(
            self.spec_models(),
            self.spec_root()->Some_0,
            self.spec_expected(),
        );
        let root = match self.core.start() {
            Some(rt) => rt.index(),
            None => 0,
        };
        let n = self.core.len();
        let mut buf: Vec<u8> = Vec::new();
        push_u64(&mut buf, root as u64);
        push_u64(&mut buf, n as u64);
        proof {
            assert(wm.len() == n);
            assert(enc_nodes(wm.subrange(0, 0)) =~= Seq::<u8>::empty());
            assert(buf@ =~= enc_u64(root as u64) + enc_u64(n as u64) + enc_nodes(
                wm.subrange(0, 0),
            ));
        }
        for i in 0..n
            invariant
                n == self.spec_models().len(),
                root == self.spec_root()->Some_0,
                wm == wire_models(self.spec_models(), root as usize, self.spec_expected()),
                wm.len() == n,
                buf@ == enc_u64(root as u64) + enc_u64(n as u64) + enc_nodes(
                    wm.subrange(0, i as int),
                ),
        {
            let ghost pre = buf@;
            let node = &self.core.nodes[i];
            proof {
                assert(self.spec_models()[i as int] == self.core.nodes@[i as int].model());
                if i != root {
                    assert(wm[i as int] == self.spec_models()[i as int]);
                }
            }
            if i == root {
                push_node(&mut buf, node, Some(&self.expected));
            } else {
                push_node(&mut buf, node, None);
            }
            proof {
                assert(buf@ =~= pre + enc_node(wm[i as int]));
                assert(wm.subrange(0, i + 1).drop_last() =~= wm.subrange(0, i as int));
                assert(wm.subrange(0, i + 1).last() == wm[i as int]);
                assert(buf@ =~= enc_u64(root as u64) + enc_u64(n as u64) + enc_nodes(
                    wm.subrange(0, i + 1),
                ));
            }
        }
        proof {
            assert(wm.subrange(0, n as int) =~= wm);
        }
        Some(buf)
    }
}

} // verus!

verus! {

/// A childless, unfilled node is listed among the unfilled leaves.
pub proof fn lemma_unfilled_leaves_contains(m: Seq<ProofNodeModel>, j: int)
    requires
        0 <= j < m.len(),
        m.len() <= usize::MAX,
        m[j].children.len() == 0,
        m[j].hash is None,
    ensures
        unfilled_leaves(m).len() >= 1,
    decreases m.len(),
{
    if j == m.len() - 1 {
    } else {
        assert(m.drop_last()[j] == m[j]);
        lemma_unfilled_leaves_contains(m.drop_last(), j);
    }
}

/// The bytes at `start` hold the wire form of node `wn`, and `wn` is a
/// consistent next node for an arena that so far holds `prior` (children
/// strictly below it, none repeated, each pointing back at it, any parent
/// strictly above it and below the declared count `n`).
pub open spec fn node_wire_at(
    bytes: Seq<u8>,
    start: int,
    n: int,
    prior: Seq<ProofNodeModel>,
    wn: ProofNodeModel,
) -> bool {
    let i = prior.len() as int;
    &&& 0 <= start
    &&& start + enc_node(wn).len() <= bytes.len()
    &&& bytes.subrange(start, start + enc_node(wn).len() as int) == enc_node(wn)
    &&& forall|k: int| 0 <= k < wn.children.len() ==> #[trigger] wn.children[k] < i
    &&& wn.children.no_duplicates()
    &&& forall|k: int|
        0 <= k < wn.children.len() ==> prior[#[trigger] wn.children[k] as int].parent == Some(
            i as usize,
        )
    &&& (wn.parent is Some ==> i < wn.parent->Some_0 < n)
    &&& wn.children.len() <= usize::MAX
    &&& (wn.hash is Some ==> wn.hash->Some_0.len() <= u64::MAX)
}

/// Parse an optional 64-bit field: a tag byte, then the value when present.
/// Any byte sequence that is the wire form of such a field is accepted and
/// read back unchanged.
#[verifier::loop_isolation(false)]
fn parse_opt_u64(bytes: &Vec<u8>, start: usize) -> (r: Option<(Option<u64>, usize)>)
    requires
        start <= bytes@.len(),
    ensures
        match r {
            Some(p) => start <= p.1 <= bytes@.len() && bytes@.subrange(start as int, p.1 as int)
                == enc_opt_u64(p.0),
            None => true,
        },
        forall|ov: Option<u64>|
            start + (#[trigger] enc_opt_u64(ov)).len() <= bytes@.len() && bytes@.subrange(
                start as int,
                start + enc_opt_u64(ov).len() as int,
            ) == enc_opt_u64(ov) ==> r == Some(
                (ov, (start + enc_opt_u64(ov).len()) as usize),
            ),
{
    let total = bytes.len();
    proof {
        assert forall|ov: Option<u64>| true implies (#[trigger] enc_opt_u64(ov)).len() == (
        match ov {
            None => 1int,
            Some(_) => 9int,
        }) by {}
    }
    if total - start < 1 {
        proof {
            assert forall|ov: Option<u64>|
                start + (#[trigger] enc_opt_u64(ov)).len() <= bytes@.len() implies false by {}
        }
        return None;
    }
    let tag = bytes[start];
    if tag == 0 {
        proof {
            assert(bytes@.subrange(start as int, start as int + 1) =~= enc_opt_u64(None));
            assert forall|ov: Option<u64>|
                start + (#[trigger] enc_opt_u64(ov)).len() <= bytes@.len() && bytes@.subrange(
                    start as int,
                    start + enc_opt_u64(ov).len() as int,
                ) == enc_opt_u64(ov) implies ov is None by {
                if ov is Some {
                    assert(enc_opt_u64(ov)[0] == 1u8);
                    assert(bytes@[start as int] == 1u8);
                }
            }
        }
        Some((None, start + 1))
    } else if tag == 1 {
        if total - start < 9 {
            proof {
                assert forall|ov: Option<u64>|
                    start + (#[trigger] enc_opt_u64(ov)).len() <= bytes@.len() && bytes@.subrange(
                        start as int,
                        start + enc_opt_u64(ov).len() as int,
                    ) == enc_opt_u64(ov) implies false by {
                    if ov is None {
                        assert(enc_opt_u64(ov)[0] == 0u8);
                        assert(bytes@[start as int] == 0u8);
                    }
                }
            }
            return None;
        }
        let v = read_u64(bytes, start + 1);
        proof {
            assert(bytes@.subrange(start as int, start as int + 9) =~= seq![1u8] + enc_u64(v));
            assert(bytes@.subrange(start as int, start as int + 9) =~= enc_opt_u64(Some(v)));
            assert forall|ov: Option<u64>|
                start + (#[trigger] enc_opt_u64(ov)).len() <= bytes@.len() && bytes@.subrange(
                    start as int,
                    start + enc_opt_u64(ov).len() as int,
                ) == enc_opt_u64(ov) implies ov == Some(v) by {
                if ov is None {
                    assert(enc_opt_u64(ov)[0] == 0u8);
                    assert(bytes@[start as int] == 0u8);
                } else {
                    let x = ov->Some_0;
                    crate::codec::lemma_sub_segment(
                        bytes@,
                        start as int,
                        enc_opt_u64(ov),
                        1,
                        9,
                    );
                    assert(enc_opt_u64(ov).subrange(1, 9) =~= enc_u64(x));
                    assert(enc_u64(x) =~= bytes@.subrange(start as int + 1, start as int + 9));
                    lemma_u64_roundtrip(x);
                    assert(x == v);
                }
            }
        }
        Some((Some(v), start + 9))
    } else {
        proof {
            assert forall|ov: Option<u64>|
                start + (#[trigger] enc_opt_u64(ov)).len() <= bytes@.len() && bytes@.subrange(
                    start as int,
                    start + enc_opt_u64(ov).len() as int,
                ) == enc_opt_u64(ov) implies false by {
                if ov is None {
                    assert(enc_opt_u64(ov)[0] == 0u8);
                } else {
                    assert(enc_opt_u64(ov)[0] == 1u8);
                }
                assert(bytes@[start as int] == enc_opt_u64(ov)[0]);
            }
        }
        None
    }
}

/// Parse an optional length-prefixed byte field. Any byte sequence that is
/// the wire form of such a field is accepted and read back unchanged.
#[verifier::loop_isolation(false)]
#[verifier::rlimit(100)]
fn parse_opt_bytes(bytes: &Vec<u8>, start: usize) -> (r: Option<(Option<Vec<u8>>, usize)>)
    requires
        start <= bytes@.len(),
    ensures
        match r {
            Some(p) => start <= p.1 <= bytes@.len() && bytes@.subrange(start as int, p.1 as int)
                == enc_opt_bytes(opt_bytes(p.0)),
            None => true,
        },
        forall|oh: Option<Seq<u8>>|
            start + (#[trigger] enc_opt_bytes(oh)).len() <= bytes@.len() && bytes@.subrange(
                start as int,
                start + enc_opt_bytes(oh).len() as int,
            ) == enc_opt_bytes(oh) && (oh is Some ==> oh->Some_0.len() <= u64::MAX) ==> r is Some
                && opt_bytes(r->Some_0.0) == oh && r->Some_0.1 == start + enc_opt_bytes(oh).len(),
{
    let total = bytes.len();
    if total - start < 1 {
        proof {
            assert forall|oh: Option<Seq<u8>>|
                start + (#[trigger] enc_opt_bytes(oh)).len() <= bytes@.len() implies false by {
                assert(enc_opt_bytes(oh).len() >= 1);
            }
        }
        return None;
    }
    let tag = bytes[start];
    if tag == 0 {
        proof {
            assert(bytes@.subrange(start as int, start as int + 1) =~= enc_opt_bytes(None));
            assert forall|oh: Option<Seq<u8>>|
                start + (#[trigger] enc_opt_bytes(oh)).len() <= bytes@.len() && bytes@.subrange(
                    start as int,
                    start + enc_opt_bytes(oh).len() as int,
                ) == enc_opt_bytes(oh) implies oh is None by {
                if oh is Some {
                    assert(enc_opt_bytes(oh)[0] == 1u8);
                    assert(bytes@[start as int] == 1u8);
                }
            }
        }
        Some((None, start + 1))
    } else if tag == 1 {
        if total - start < 9 {
            proof {
                assert forall|oh: Option<Seq<u8>>|
                    start + (#[trigger] enc_opt_bytes(oh)).len() <= bytes@.len()
                        && bytes@.subrange(
                        start as int,
                        start + enc_opt_bytes(oh).len() as int,
                    ) == enc_opt_bytes(oh) implies false by {
                    if oh is None {
                        assert(enc_opt_bytes(oh)[0] == 0u8);
                        assert(bytes@[start as int] == 0u8);
                    } else {
                        assert(enc_opt_bytes(oh).len() == 9 + oh->Some_0.len());
                    }
                }
            }
            return None;
        }
        let hl64 = read_u64(bytes, start + 1);
        let mut pos = start + 9;
        if hl64 > (total - pos) as u64 {
            proof {
                assert forall|oh: Option<Seq<u8>>|
                    start + (#[trigger] enc_opt_bytes(oh)).len() <= bytes@.len()
                        && bytes@.subrange(
                        start as int,
                        start + enc_opt_bytes(oh).len() as int,
                    ) == enc_opt_bytes(oh) && (oh is Some ==> oh->Some_0.len() <= u64::MAX) implies false by {
                    if oh is None {
                        assert(enc_opt_bytes(oh)[0] == 0u8);
                        assert(bytes@[start as int] == 0u8);
                    } else {
                        crate::codec::lemma_sub_segment(
                            bytes@,
                            start as int,
                            enc_opt_bytes(oh),
                            1,
                            9,
                        );
                        assert(enc_opt_bytes(oh).subrange(1, 9) =~= enc_u64(
                            oh->Some_0.len() as u64,
                        ));
                        lemma_u64_roundtrip(oh->Some_0.len() as u64);
                        assert(hl64 == oh->Some_0.len() as u64);
                    }
                }
            }
            return None;
        }
        let hl = hl64 as usize;
        let mut hv: Vec<u8> = Vec::new();
        let ghost pos_bytes = pos as int;
        for t in 0..hl
            invariant
                total == bytes@.len(),
                pos_bytes + hl <= total,
                pos == pos_bytes + t,
                hv@ == bytes@.subrange(pos_bytes, pos as int),
        {
            hv.push(bytes[pos]);
            pos = pos + 1;
            proof {
                assert(hv@ =~= bytes@.subrange(pos_bytes, pos as int));
            }
        }
        proof {
            assert(hv@.len() == hl);
            assert((hv@.len() as u64) == hl64);
            assert(bytes@.subrange(start as int, pos as int) =~= seq![1u8] + enc_u64(hl64) + hv@);
            assert(bytes@.subrange(start as int, pos as int) =~= enc_opt_bytes(Some(hv@)));
            assert forall|oh: Option<Seq<u8>>|
                start + (#[trigger] enc_opt_bytes(oh)).len() <= bytes@.len() && bytes@.subrange(
                    start as int,
                    start + enc_opt_bytes(oh).len() as int,
                ) == enc_opt_bytes(oh) && (oh is Some ==> oh->Some_0.len() <= u64::MAX) implies oh
                == Some(hv@) && pos as int == start + enc_opt_bytes(oh).len() by {
                if oh is None {
                    assert(enc_opt_bytes(oh)[0] == 0u8);
                    assert(bytes@[start as int] == 0u8);
                } else {
                    let h = oh->Some_0;
                    crate::codec::lemma_sub_segment(bytes@, start as int, enc_opt_bytes(oh), 1, 9);
                    assert(enc_opt_bytes(oh).subrange(1, 9) =~= enc_u64(h.len() as u64));
                    lemma_u64_roundtrip(h.len() as u64);
                    assert(hl64 == h.len() as u64);
                    assert(h.len() == hl);
                    crate::codec::lemma_sub_segment(
                        bytes@,
                        start as int,
                        enc_opt_bytes(oh),
                        9,
                        9 + h.len() as int,
                    );
                    assert(enc_opt_bytes(oh).subrange(9, 9 + h.len() as int) =~= h);
                    assert(hv@ =~= h);
                }
            }
        }
        Some((Some(hv), pos))
    } else {
        proof {
            assert forall|oh: Option<Seq<u8>>|
                start + (#[trigger] enc_opt_bytes(oh)).len() <= bytes@.len() && bytes@.subrange(
                    start as int,
                    start + enc_opt_bytes(oh).len() as int,
                ) == enc_opt_bytes(oh) implies false by {
                if oh is None {
                    assert(enc_opt_bytes(oh)[0] == 0u8);
                } else {
                    assert(enc_opt_bytes(oh)[0] == 1u8);
                }
                assert(bytes@[start as int] == enc_opt_bytes(oh)[0]);
            }
        }
        None
    }
}

/// Parse one proof node at `start`, checking as it goes that children sit
/// strictly below the node being built, repeat no index, and point back at
/// it as their parent, and that a declared parent sits strictly above it.
/// Any byte sequence that is the wire form of such a node is accepted and
/// parsed back to exactly that node.
#[verifier::loop_isolation(false)]
#[verifier::rlimit(100)]
fn parse_node(bytes: &Vec<u8>, start: usize, nodes: &Vec<MrkleProofNode>, n: usize) -> (r: Option<
    (MrkleProofNode, usize),
>)
    requires
        start <= bytes@.len(),
        nodes@.len() < n,
    ensures
        match r {
            Some(parsed) => {
                let node = parsed.0;
                let end = parsed.1;
                let i = nodes@.len() as int;
                &&& start <= end <= bytes@.len()
                &&& bytes@.subrange(start as int, end as int) == enc_node(node.model())
                &&& forall|k: int|
                    0 <= k < node.model().children.len() ==> #[trigger] node.model().children[k]
                        < i
                &&& node.model().children.no_duplicates()
                &&& (node.model().parent is Some ==> i < node.model().parent->Some_0 < n)
                &&& forall|k: int|
                    0 <= k < node.model().children.len() ==> models(
                        nodes@,
                    )[#[trigger] node.model().children[k] as int].parent == Some(i as usize)
            },
            None => true,
        },
        forall|wn: ProofNodeModel|
            node_wire_at(bytes@, start as int, n as int, models(nodes@), wn) ==> (r is Some
                && #[trigger] r->Some_0.0.model() == wn && r->Some_0.1 == start + enc_node(
                wn,
            ).len()),
{
    let ghost hw = exists|wn: ProofNodeModel|
        node_wire_at(bytes@, start as int, n as int, models(nodes@), wn);
    let ghost w = choose|wn: ProofNodeModel|
        node_wire_at(bytes@, start as int, n as int, models(nodes@), wn);
    let ghost wparent: Option<u64> = match w.parent {
        None => None,
        Some(p) => Some(p as u64),
    };
    proof {
        if hw {
            assert(enc_node(w) == enc_opt_u64(wparent) + enc_u64(w.children.len() as u64)
                + enc_children(w.children) + enc_opt_bytes(w.hash));
            lemma_enc_node_len(w);
            lemma_enc_children_len(w.children);
            crate::codec::lemma_sub_segment(
                bytes@,
                start as int,
                enc_node(w),
                0,
                enc_opt_u64(wparent).len() as int,
            );
            assert(enc_node(w).subrange(0, enc_opt_u64(wparent).len() as int) =~= enc_opt_u64(
                wparent,
            ));
        }
    }
    let total = bytes.len();
    let i = nodes.len();
    // parent slot
    let (parent64, after_parent) = match parse_opt_u64(bytes, start) {
        Some(p) => p,
        None => {
            proof {
                if hw {
                    assert(false);
                }
            }
            return None;
        },
    };
    proof {
        if hw {
            assert(parent64 == wparent && after_parent == start + enc_opt_u64(wparent).len());
        }
    }
    let parent: Option<NodeIndex> = match parent64 {
        None => None,
        Some(v) => {
            if v > usize::MAX as u64 || v <= i as u64 || v >= n as u64 {
                proof {
                    if hw {
                        assert(w.parent is Some && wparent == Some(w.parent->Some_0 as u64));
                        assert(models(nodes@).len() == i);
                        assert(false);
                    }
                }
                return None;
            }
            Some(NodeIndex::new(v as usize))
        },
    };
    proof {
        if hw {
            assert(opt_index(parent) == w.parent);
            assert(enc_opt_u64(parent64) =~= enc_opt_u64(
                match opt_index(parent) {
                    None => None,
                    Some(p) => Some(p as u64),
                },
            ));
        }
    }
    let mut pos = after_parent;
    let ghost pos_count = pos as int;
    proof {
        if hw {
            crate::codec::lemma_sub_segment(
                bytes@,
                start as int,
                enc_node(w),
                pos_count - start,
                pos_count - start + 8,
            );
            assert(enc_node(w).subrange(pos_count - start, pos_count - start + 8) =~= enc_u64(
                w.children.len() as u64,
            ));
            assert(bytes@.subrange(pos_count, pos_count + 8) =~= enc_u64(
                w.children.len() as u64,
            ));
        }
    }
    // children
    if total - pos < 8 {
        proof {
            if hw {
                assert(false);
            }
        }
        return None;
    }
    let cnt64 = read_u64(bytes, pos);
    proof {
        if hw {
            lemma_u64_roundtrip(w.children.len() as u64);
            assert(cnt64 == w.children.len() as u64);
        }
    }
    pos = pos + 8;
    let ghost pos_list = pos as int;
    if cnt64 > usize::MAX as u64 {
        proof {
            if hw {
                assert(w.children.len() <= usize::MAX);
                assert(false);
            }
        }
        return None;
    }
    let cnt = cnt64 as usize;
    let mut children: Vec<NodeIndex> = Vec::new();
    proof {
        assert(enc_children(crate::tree::idxs(children@)) =~= Seq::<u8>::empty());
        if hw {
            crate::codec::lemma_sub_segment(
                bytes@,
                start as int,
                enc_node(w),
                pos_list - start,
                pos_list - start + 8 * w.children.len() as int,
            );
            assert(enc_node(w).subrange(
                pos_list - start,
                pos_list - start + 8 * w.children.len() as int,
            ) =~= enc_children(w.children));
            assert(bytes@.subrange(pos_list, pos_list + 8 * w.children.len()) =~= enc_children(
                w.children,
            ));
            assert(crate::tree::idxs(children@) =~= w.children.subrange(0, 0));
        }
    }
    for k in 0..cnt
        invariant
            total == bytes@.len(),
            pos <= total,
            pos_list <= pos as int,
            children@.len() == k,
            pos as int == pos_list + 8 * k,
            bytes@.subrange(pos_list, pos as int) == enc_children(crate::tree::idxs(children@)),
            forall|t: int| 0 <= t < k ==> #[trigger] children@[t]@ < i,
            crate::tree::idxs(children@).no_duplicates(),
            forall|t: int|
                0 <= t < k ==> models(nodes@)[#[trigger] children@[t]@ as int].parent == Some(
                    i as usize,
                ),
            nodes@.len() == i,
            hw ==> cnt == w.children.len() && crate::tree::idxs(children@) == w.children.subrange(
                0,
                k as int,
            ),
    {
        proof {
            if hw {
                crate::codec::lemma_child_slice(bytes@, pos_list, w.children, k as int);
                assert(bytes@.subrange(pos as int, pos as int + 8) =~= enc_u64(
                    w.children[k as int] as u64,
                ));
            }
        }
        if total - pos < 8 {
            proof {
                if hw {
                    assert(false);
                }
            }
            return None;
        }
        let v = read_u64(bytes, pos);
        proof {
            if hw {
                lemma_u64_roundtrip(w.children[k as int] as u64);
                assert(v == w.children[k as int] as u64);
            }
        }
        if v >= i as u64 {
            proof {
                if hw {
                    assert(false);
                }
            }
            return None;
        }
        let ci = v as usize;
        // reject duplicate children
        let mut dup = false;
        let mut t: usize = 0;
        while t < children.len()
            invariant
                t <= children@.len(),
                dup ==> crate::tree::idxs(children@).contains(ci),
                !dup ==> forall|u: int| 0 <= u < t ==> #[trigger] children@[u]@ != ci,
            decreases children@.len() - t,
        {
            if children[t].index() == ci {
                proof {
                    assert(crate::tree::idxs(children@)[t as int] == ci);
                }
                dup = true;
            }
            t = t + 1;
        }
        if dup {
            proof {
                if hw {
                    // the witness's children are duplicate-free
                    let u = choose|u: int|
                        0 <= u < crate::tree::idxs(children@).len() && crate::tree::idxs(
                            children@,
                        )[u] == ci;
                    assert(w.children.subrange(0, k as int)[u] == w.children[u]);
                    assert(w.children[u] == w.children[k as int]);
                    assert(false);
                }
            }
            return None;
        }
        // a child must point back at this node as its parent
        let child_parent = nodes[ci].parent;
        let back_ok = match child_parent {
            Some(cp) => cp.index() == i,
            None => false,
        };
        if !back_ok {
            proof {
                if hw {
                    assert(models(nodes@)[ci as int].parent == Some(i as usize));
                    assert(models(nodes@)[ci as int] == nodes@[ci as int].model());
                    assert(false);
                }
            }
            return None;
        }
        proof {
            assert(models(nodes@)[ci as int] == nodes@[ci as int].model());
        }
        let ghost c0 = crate::tree::idxs(children@);
        children.push(NodeIndex::new(ci));
        pos = pos + 8;
        proof {
            assert((ci as u64) == v);
            assert(crate::tree::idxs(children@) =~= c0.push(ci));
            assert(crate::tree::idxs(children@).drop_last() =~= c0);
            assert(enc_u64(v) =~= bytes@.subrange(pos as int - 8, pos as int));
            assert(bytes@.subrange(pos_list, pos as int) =~= bytes@.subrange(
                pos_list,
                pos as int - 8,
            ) + bytes@.subrange(pos as int - 8, pos as int));
            assert(crate::tree::idxs(children@).no_duplicates()) by {
                assert forall|a: int, b: int|
                    0 <= a < b < crate::tree::idxs(children@).len() implies crate::tree::idxs(
                    children@,
                )[a] != crate::tree::idxs(children@)[b] by {
                    if b < c0.len() {
                        assert(crate::tree::idxs(children@)[a] == c0[a] && crate::tree::idxs(
                            children@,
                        )[b] == c0[b]);
                    } else {
                        assert(crate::tree::idxs(children@)[a] == c0[a]);
                        assert(!(forall|u: int| 0 <= u < c0.len() ==> #[trigger] c0[u] != ci)
                            ==> false);
                    }
                }
            }
            if hw {
                assert(crate::tree::idxs(children@) =~= w.children.subrange(0, k + 1));
            }
        }
    }
    proof {
        if hw {
            assert(crate::tree::idxs(children@) =~= w.children);
        }
    }
    // digest slot
    let ghost pos_hash = pos as int;
    proof {
        if hw {
            crate::codec::lemma_sub_segment(
                bytes@,
                start as int,
                enc_node(w),
                pos_hash - start,
                enc_node(w).len() as int,
            );
            assert(enc_node(w).subrange(pos_hash - start, enc_node(w).len() as int)
                =~= enc_opt_bytes(w.hash));
            assert(bytes@.subrange(pos_hash, start + enc_node(w).len()) =~= enc_opt_bytes(
                w.hash,
            ));
        }
    }
    let (hash, end) = match parse_opt_bytes(bytes, pos) {
        Some(p) => p,
        None => {
            proof {
                if hw {
                    assert(false);
                }
            }
            return None;
        },
    };
    proof {
        if hw {
            assert(opt_bytes(hash) == w.hash && end == pos_hash + enc_opt_bytes(w.hash).len());
        }
    }
    let node = MrkleProofNode::new(parent, children, hash);
    proof {
        assert(enc_node(node.model()) =~= bytes@.subrange(start as int, end as int));
        if hw {
            assert(node.model().children =~= w.children);
            assert(node.model() == w);
            assert(end as int == start + enc_node(w).len());
        }
        assert forall|wn: ProofNodeModel|
            node_wire_at(bytes@, start as int, n as int, models(nodes@), wn) implies node.model()
            == wn && end as int == start + enc_node(wn).len() by {
            // any two wire nodes at the same position coincide, since the
            // encoding is self-delimiting; the parse recovered the first
            assert(node_wire_at(bytes@, start as int, n as int, models(nodes@), w));
            lemma_enc_node_prefix_unique(bytes@, start as int, w, wn);
        }
    }
    Some((node, end))
}

/// The bytes are the wire form of a machine-representable, well-formed
/// proof arena in prover state: the root digest slot is empty apart from the
/// expected digest the wire carries there, and at least one leaf is left for
/// the verifier to fill.
pub open spec fn wire_image(
    bytes: Seq<u8>,
    m: Seq<ProofNodeModel>,
    root: usize,
    expected: Seq<u8>,
    alg: HashAlg,
) -> bool {
    &&& proof_arena_wf(m, Some(root))
    &&& m.len() <= usize::MAX
    &&& forall|j: int| 0 <= j < m.len() ==> (#[trigger] m[j]).children.len() <= usize::MAX
    &&& forall|j: int|
        0 <= j < m.len() && (#[trigger] m[j]).hash is Some ==> m[j].hash->Some_0.len()
            <= u64::MAX
    &&& m[root as int].hash is None
    &&& unfilled_leaves(m).len() >= 1
    &&& expected.len() == output_len(alg)
    &&& bytes == enc_arena(wire_models(m, root, expected), root)
}

/// In a wire image, the `i`-th node's encoding sits right after the first
/// `i` nodes' encodings, and it is a consistent next node for the prefix.
proof fn lemma_witness_node_at(
    bytes: Seq<u8>,
    m0: Seq<ProofNodeModel>,
    root: usize,
    e: Seq<u8>,
    alg: HashAlg,
    i: int,
    pos: int,
)
    requires
        wire_image(bytes, m0, root, e, alg),
        0 <= i < m0.len(),
        pos == 16 + enc_nodes(wire_models(m0, root, e).subrange(0, i)).len(),
    ensures
        node_wire_at(
            bytes,
            pos,
            m0.len() as int,
            wire_models(m0, root, e).subrange(0, i),
            wire_models(m0, root, e)[i],
        ),
        pos + enc_node(wire_models(m0, root, e)[i]).len() == 16 + enc_nodes(
            wire_models(m0, root, e).subrange(0, i + 1),
        ).len(),
{
    let ww = wire_models(m0, root, e);
    let prior = ww.subrange(0, i);
    assert(bytes == enc_u64(root as u64) + enc_u64(ww.len() as u64) + enc_nodes(ww));
    assert(bytes.subrange(16, bytes.len() as int) =~= enc_nodes(ww));
    crate::codec::lemma_node_slice(bytes, 16, ww, i);
    assert(bytes.subrange(pos, pos + enc_node(ww[i]).len() as int) == enc_node(ww[i]));
    assert(ww[i].children == m0[i].children);
    assert forall|k: int|
        0 <= k < ww[i].children.len() implies prior[#[trigger] ww[i].children[k] as int].parent
        == Some(i as usize) by {
        assert(m0[i].children[k] < i);
        assert(m0[m0[i].children[k] as int].parent == Some(i as usize));
        assert(ww[m0[i].children[k] as int].parent == m0[m0[i].children[k] as int].parent);
        assert(prior[ww[i].children[k] as int] == ww[ww[i].children[k] as int]);
    }
    if i == root as int {
        assert(ww[i].hash == Some(e));
        assert(e.len() <= u64::MAX);
    } else {
        assert(ww[i].hash == m0[i].hash);
    }
    assert(node_wire_at(bytes, pos, m0.len() as int, prior, ww[i]));
}

/// An arena whose parsed links passed the decoder's checks, with the root
/// digest slot cleared, is a well-formed proof arena.
proof fn lemma_decoded_wf(parsed: Seq<ProofNodeModel>, m: Seq<ProofNodeModel>, root: usize)
    requires
        root < parsed.len(),
        m == parsed.update(
            root as int,
            ProofNodeModel { hash: None, ..parsed[root as int] },
        ),
        forall|j: int, k: int|
            #![auto]
            0 <= j < parsed.len() && 0 <= k < parsed[j].children.len() ==> parsed[j].children[k]
                < j,
        forall|j: int| 0 <= j < parsed.len() ==> (#[trigger] parsed[j].children).no_duplicates(),
        forall|j: int|
            0 <= j < parsed.len() && #[trigger] parsed[j].parent is Some ==> j
                < parsed[j].parent->Some_0 < parsed.len(),
        forall|j: int, k: int|
            #![auto]
            0 <= j < parsed.len() && 0 <= k < parsed[j].children.len() ==> parsed[parsed[j].children[k] as int].parent
                == Some(j as usize),
        forall|j: int|
            0 <= j < parsed.len() && #[trigger] parsed[j].parent is Some
                ==> parsed[parsed[j].parent->Some_0 as int].children.contains(j as usize),
        parsed[root as int].parent is None,
    ensures
        proof_arena_wf(m, Some(root)),
{
    assert forall|j: int, k: int|
        #![auto]
        0 <= j < m.len() && 0 <= k < m[j].children.len() implies m[j].children[k] < j by {
        assert(m[j].children == parsed[j].children);
    }
    assert forall|j: int|
        0 <= j < m.len() && #[trigger] m[j].parent is Some implies {
        let p = m[j].parent->Some_0;
        j < p < m.len() && m[p as int].children.contains(j as usize)
    } by {
        assert(m[j].parent == parsed[j].parent);
        let p = m[j].parent->Some_0;
        assert(j < p < m.len());
        assert(m[p as int].children == parsed[p as int].children);
        assert(parsed[p as int].children.contains(j as usize));
    }
    assert forall|j: int, k: int|
        #![auto]
        0 <= j < m.len() && 0 <= k < m[j].children.len() implies m[m[j].children[k] as int].parent
        == Some(j as usize) by {
        assert(m[j].children == parsed[j].children);
        assert(m[m[j].children[k] as int].parent == parsed[parsed[j].children[k] as int].parent);
    }
    assert forall|j: int|
        0 <= j < m.len() implies (#[trigger] m[j].children).no_duplicates() by {
        assert(m[j].children == parsed[j].children);
    }
}

impl MrkleProof {
    /// Reconstruct a proof from its wire form: parse the arena, reject any
    /// inconsistent link, take the expected root digest out of the root
    /// node's digest slot, and rebuild the list of leaves to be filled.
    ///
    /// Every accepted input re-serializes to exactly the bytes received, and
    /// every well-formed wire image is accepted: serialization followed by
    /// deserialization reproduces the proof. The rebuilt leaf list is in
    /// ascending arena order, which coincides with the generation order for
    /// single-leaf proofs.
    #[verifier::loop_isolation(false)]
    #[verifier::rlimit(100)]
    pub fn from_wire(bytes: &Vec<u8>, alg: HashAlg) -> (r: Option<MrkleProof>)
        ensures
            match r {
                Some(q) => {
                    &&& q.wf()
                    &&& q.spec_valid() is None
                    &&& q.spec_alg() == alg
                    &&& q.spec_leaves() == unfilled_leaves(q.spec_models())
                    &&& q.spec_models()[q.spec_root()->Some_0 as int].hash is None
                    &&& bytes@ == enc_arena(
                        wire_models(
                            q.spec_models(),
                            q.spec_root()->Some_0,
                            q.spec_expected(),
                        ),
                        q.spec_root()->Some_0,
                    )
                },
                None => true,
            },
            (exists|m: Seq<ProofNodeModel>, root: usize, e: Seq<u8>|
                wire_image(bytes@, m, root, e, alg)) ==> r is Some,
    {
        let ghost hw = exists|m: Seq<ProofNodeModel>, root: usize, e: Seq<u8>|
            wire_image(bytes@, m, root, e, alg);
        let ghost wit = choose|m: Seq<ProofNodeModel>, root: usize, e: Seq<u8>|
            wire_image(bytes@, m, root, e, alg);
        let ghost ww = wire_models(wit.0, wit.1, wit.2);
        proof {
            if hw {
                assert(wire_image(bytes@, wit.0, wit.1, wit.2, alg));
                assert(ww.len() == wit.0.len());
                assert(bytes@ == enc_u64(wit.1 as u64) + enc_u64(ww.len() as u64) + enc_nodes(ww));
                assert(bytes@.subrange(0, 8) =~= enc_u64(wit.1 as u64));
                assert(bytes@.subrange(8, 16) =~= enc_u64(ww.len() as u64));
                assert(bytes@.subrange(16, bytes@.len() as int) =~= enc_nodes(ww));
                // the wire arena differs from the witness only at the root slot
                assert forall|j: int| 0 <= j < ww.len() implies #[trigger] ww[j].children
                    == wit.0[j].children && ww[j].parent == wit.0[j].parent && (j != wit.1
                    ==> ww[j].hash == wit.0[j].hash) by {}
                assert(ww[wit.1 as int].hash == Some(wit.2));
            }
        }
        let total = bytes.len();
        if total < 16 {
            proof {
                if hw {
                    assert(false);
                }
            }
            return None;
        }
        let root64 = read_u64(bytes, 0);
        let n64 = read_u64(bytes, 8);
        proof {
            if hw {
                lemma_u64_roundtrip(wit.1 as u64);
                lemma_u64_roundtrip(ww.len() as u64);
                assert(root64 == wit.1 as u64);
                assert(n64 == ww.len() as u64);
            }
        }
        if n64 > usize::MAX as u64 || root64 >= n64 {
            proof {
                if hw {
                    assert(wit.1 < wit.0.len());
                    assert(false);
                }
            }
            return None;
        }
        let n = n64 as usize;
        let root = root64 as usize;
        let mut nodes: Vec<MrkleProofNode> = Vec::new();
        let mut pos: usize = 16;
        proof {
            assert(bytes@.subrange(0, 16) =~= enc_u64(root64) + enc_u64(n64));
            assert(enc_nodes(models(nodes@)) =~= Seq::<u8>::empty());
            assert(models(nodes@).len() == 0);
            if hw {
                assert(root == wit.1 && n == ww.len());
                assert(models(nodes@) =~= ww.subrange(0, 0));
            }
        }
        for i in 0..n
            invariant
                total == bytes@.len(),
                pos <= total,
                nodes@.len() == i,
                bytes@.subrange(0, pos as int) == enc_u64(root64) + enc_u64(n64) + enc_nodes(
                    models(nodes@),
                ),
                forall|j: int, k: int|
                    #![auto]
                    0 <= j < i && 0 <= k < models(nodes@)[j].children.len() ==> models(
                        nodes@,
                    )[j].children[k] < j,
                forall|j: int|
                    0 <= j < i ==> (#[trigger] models(nodes@)[j].children).no_duplicates(),
                forall|j: int|
                    0 <= j < i && #[trigger] models(nodes@)[j].parent is Some ==> j < models(
                        nodes@,
                    )[j].parent->Some_0 < n,
                forall|j: int, k: int|
                    #![auto]
                    0 <= j < i && 0 <= k < models(nodes@)[j].children.len() ==> models(
                        nodes@,
                    )[models(nodes@)[j].children[k] as int].parent == Some(j as usize),
                hw ==> models(nodes@) == ww.subrange(0, i as int) && pos as int == 16 + enc_nodes(
                    ww.subrange(0, i as int),
                ).len(),
        {
            let ghost mpre = models(nodes@);
            let ghost pos0 = pos as int;
            proof {
                if hw {
                    // the witness's next node sits at the cursor
                    lemma_witness_node_at(bytes@, wit.0, wit.1, wit.2, alg, i as int, pos0);
                }
            }
            let parsed = match parse_node(bytes, pos, &nodes, n) {
                Some(p) => p,
                None => {
                    proof {
                        if hw {
                            assert(false);
                        }
                    }
                    return None;
                },
            };
            let node = parsed.0;
            let ghost nmodel = node.model();
            pos = parsed.1;
            nodes.push(node);
            proof {
                assert(models(nodes@) =~= mpre.push(nmodel));
                assert(models(nodes@).drop_last() =~= mpre);
                assert(enc_nodes(models(nodes@)) =~= enc_nodes(mpre) + enc_node(nmodel));
                assert(bytes@.subrange(0, pos as int) =~= bytes@.subrange(0, pos0)
                    + bytes@.subrange(pos0, pos as int));
                assert forall|j: int, k: int|
                    #![auto]
                    0 <= j < i + 1 && 0 <= k < models(nodes@)[j].children.len() implies models(
                    nodes@,
                )[models(nodes@)[j].children[k] as int].parent == Some(j as usize) by {
                    if j < i {
                        assert(models(nodes@)[j] == mpre[j]);
                        assert(mpre[mpre[j].children[k] as int].parent == Some(j as usize));
                        assert(models(nodes@)[mpre[j].children[k] as int] == mpre[mpre[j].children[k] as int]);
                    } else {
                        assert(models(nodes@)[j] == nmodel);
                        assert(models(nodes@)[nmodel.children[k] as int] == mpre[nmodel.children[k] as int]);
                    }
                }
                if hw {
                    lemma_witness_node_at(bytes@, wit.0, wit.1, wit.2, alg, i as int, pos0);
                    assert(nmodel == ww[i as int]);
                    assert(models(nodes@) =~= ww.subrange(0, i + 1));
                }
            }
        }
        if pos != total {
            proof {
                if hw {
                    assert(models(nodes@) =~= ww);
                    assert(ww.subrange(0, n as int) =~= ww);
                    assert(false);
                }
            }
            return None;
        }
        proof {
            if hw {
                assert(ww.subrange(0, n as int) =~= ww);
                assert(models(nodes@) == ww);
            }
        }
        // every parent link must be answered by the parent's child list
        for i in 0..n
            invariant
                nodes@.len() == n,
                hw ==> models(nodes@) == ww,
                forall|j: int|
                    0 <= j < i && #[trigger] models(nodes@)[j].parent is Some ==> models(
                        nodes@,
                    )[models(nodes@)[j].parent->Some_0 as int].children.contains(j as usize),
                forall|j: int|
                    0 <= j < n && #[trigger] models(nodes@)[j].parent is Some ==> j < models(
                        nodes@,
                    )[j].parent->Some_0 < n,
        {
            let pl = nodes[i].parent;
            match pl {
                Some(p) => {
                    proof {
                        assert(models(nodes@)[i as int] == nodes@[i as int].model());
                        assert(models(nodes@)[i as int].parent is Some);
                        assert(models(nodes@)[i as int].parent->Some_0 == p@);
                        assert(p@ < n);
                    }
                    let pi = p.index();
                    let listed = nodes[pi].contains(&NodeIndex::new(i));
                    if !listed {
                        proof {
                            if hw {
                                assert(wit.0[i as int].parent == Some(pi));
                                assert(wit.0[pi as int].children.contains(i as usize));
                                assert(models(nodes@)[pi as int].children == nodes@[pi as int].spec_children());
                                assert(false);
                            }
                        }
                        return None;
                    }
                    proof {
                        assert(models(nodes@)[pi as int].children == nodes@[pi as int].spec_children());
                    }
                },
                None => {},
            }
        }
        // the root must be parentless and carry the expected digest
        let root_parent_none = nodes[root].parent.is_none();
        if !root_parent_none {
            proof {
                if hw {
                    assert(models(nodes@)[root as int] == nodes@[root as int].model());
                    assert(wit.0[root as int].parent is None);
                    assert(false);
                }
            }
            return None;
        }
        let expected = match nodes[root].hash() {
            Some(h) => h,
            None => {
                proof {
                    if hw {
                        assert(models(nodes@)[root as int] == nodes@[root as int].model());
                        assert(ww[root as int].hash == Some(wit.2));
                        assert(false);
                    }
                }
                return None;
            },
        };
        proof {
            if hw {
                assert(models(nodes@)[root as int] == nodes@[root as int].model());
                assert(expected@ == wit.2);
            }
        }
        // the expected digest must have the algorithm's width
        if expected.len() != MrkleHasher::new(alg).output_size() {
            proof {
                if hw {
                    assert(false);
                }
            }
            return None;
        }
        let ghost parsed_models = models(nodes@);
        {
            let rn = &mut nodes[root];
            rn.reset();
        }
        proof {
            assert(models(nodes@) =~= parsed_models.update(root as int, ProofNodeModel {
                hash: None,
                ..parsed_models[root as int]
            }));
            if hw {
                // clearing the root slot recovers the witness arena exactly
                assert(models(nodes@)[root as int] == wit.0[root as int]) by {
                    assert(ww[root as int] == ProofNodeModel {
                        hash: Some(wit.2),
                        ..wit.0[root as int]
                    });
                    assert(wit.0[root as int].hash is None);
                }
                assert(models(nodes@) =~= wit.0);
            }
        }
        // at least one leaf slot must remain for the verifier to fill
        let mut has_unfilled = false;
        let mut found: usize = 0;
        for j in 0..n
            invariant
                nodes@.len() == n,
                has_unfilled ==> found < n && models(nodes@)[found as int].children.len() == 0
                    && models(nodes@)[found as int].hash is None,
                !has_unfilled ==> forall|jj: int|
                    0 <= jj < j ==> (#[trigger] models(nodes@)[jj]).children.len() > 0 || models(
                        nodes@,
                    )[jj].hash is Some,
        {
            if !has_unfilled && nodes[j].children.len() == 0 && nodes[j].hash.is_none() {
                proof {
                    assert(models(nodes@)[j as int] == nodes@[j as int].model());
                }
                has_unfilled = true;
                found = j;
            }
            proof {
                assert(models(nodes@)[j as int] == nodes@[j as int].model());
            }
        }
        if !has_unfilled {
            proof {
                if hw {
                    lemma_unfilled_leaves_ok(wit.0);
                    let j0 = unfilled_leaves(wit.0)[0];
                    assert(wit.0[j0 as int].children.len() == 0 && wit.0[j0 as int].hash
                        is None);
                    assert(false);
                }
            }
            return None;
        }
        let mut arena: Tree<MrkleProofNode> = Tree::new();
        arena.nodes = nodes;
        arena.root = Some(NodeIndex::new(root));
        proof {
            let m = models(arena.nodes@);
            assert(m =~= parsed_models.update(root as int, ProofNodeModel {
                hash: None,
                ..parsed_models[root as int]
            }));
            assert(m.len() <= usize::MAX);
            lemma_unfilled_leaves_contains(m, found as int);
            lemma_decoded_wf(parsed_models, m, root);
        }
        let q = MrkleProof::new(arena, alg, expected);
        proof {
            assert(bytes@ =~= bytes@.subrange(0, total as int));
            assert(wire_models(q.spec_models(), root, q.spec_expected()) =~= parsed_models);
        }
        Some(q)
    }
}

} // verus!

verus! {

/// Node `a` is a strict ancestor of node `leaf`: it appears on the parent
/// chain above `leaf`.
pub open spec fn on_path(ns: Seq<MrkleNode>, leaf: int, a: int) -> bool {
    exists|t: int|
        1 <= t <= crate::merkle::chain_depth(ns, leaf) && #[trigger] crate::merkle::anc(
            ns,
            leaf,
            t as nat,
        ) == a
}

/// Some two distinct listed leaves both have node `a` as a strict ancestor.
pub open spec fn shared_by_two(ns: Seq<MrkleNode>, leaves: Seq<usize>, a: int) -> bool {
    exists|k1: int, k2: int|
        0 <= k1 < k2 < leaves.len() && #[trigger] on_path(ns, leaves[k1] as int, a)
            && #[trigger] on_path(ns, leaves[k2] as int, a)
}

impl MrkleProof {
    /// The expected root digest as a digest entry.
    pub fn expected_entry(&self) -> (r: crate::entry::entry)
        ensures
            r@ == self.spec_expected(),
    {
        crate::entry::entry::from_bytes(self.expected.as_slice())
    }

    /// The indices of the ancestors of `leaf` in `tree`, from its parent up
    /// to the root: the `t`-th entry is the `t+1`-st node on the leaf's
    /// parent chain.
    #[verifier::loop_isolation(false)]
    pub(crate) fn path(tree: &MrkleTree, leaf: NodeIndex) -> (r: Result<
        Vec<NodeIndex>,
        ProofError,
    >)
        requires
            tree.wf(),
        ensures
            match r {
                Ok(p) => leaf@ < tree.spec_len() && p@.len() == crate::merkle::chain_depth(
                    tree.spec_nodes(),
                    leaf@ as int,
                ) && (forall|k: int|
                    0 <= k < p@.len() ==> #[trigger] p@[k]@ < tree.spec_len() && p@[k]@ as int
                        == crate::merkle::anc(tree.spec_nodes(), leaf@ as int, (k + 1) as nat)),
                Err(e) => leaf@ >= tree.spec_len() && e == ProofError::TreeError(
                    TreeError::IndexOutOfBounds {
                        index: leaf@,
                        len: tree.spec_len() as usize,
                    },
                ),
            },
    {
        let len = tree.len();
        if leaf.index() >= len {
            return Err(ProofError::out_of_bounds(len, leaf.index()));
        }
        let mut path: Vec<NodeIndex> = Vec::new();
        let mut cur = leaf.index();
        #[verifier::loop_isolation(true)]
        loop
            invariant
                cur < len,
                len == tree.spec_len(),
                tree.wf(),
                leaf@ < len,
                cur as int == crate::merkle::anc(tree.spec_nodes(), leaf@ as int, path@.len() as nat),
                crate::merkle::chain_depth(tree.spec_nodes(), leaf@ as int) == path@.len()
                    + crate::merkle::chain_depth(tree.spec_nodes(), cur as int),
                forall|k: int|
                    0 <= k < path@.len() ==> #[trigger] path@[k]@ < len && path@[k]@ as int
                        == crate::merkle::anc(tree.spec_nodes(), leaf@ as int, (k + 1) as nat),
            ensures
                path@.len() == crate::merkle::chain_depth(tree.spec_nodes(), leaf@ as int),
                forall|k: int|
                    0 <= k < path@.len() ==> #[trigger] path@[k]@ < len && path@[k]@ as int
                        == crate::merkle::anc(tree.spec_nodes(), leaf@ as int, (k + 1) as nat),
            decreases len - cur,
        {
            let node = match tree.get(cur) {
                Some(n) => n,
                None => {
                    proof {
                        assert(false);
                    }
                    break ;
                },
            };
            match node.parent() {
                Some(p) => {
                    proof {
                        assert(tree.spec_nodes()[cur as int].spec_parent() == Some(p@));
                        assert(cur < p@ < len);
                        assert(crate::merkle::chain_depth(tree.spec_nodes(), cur as int) == 1
                            + crate::merkle::chain_depth(tree.spec_nodes(), p@ as int));
                        assert(crate::merkle::anc(
                            tree.spec_nodes(),
                            leaf@ as int,
                            (path@.len() + 1) as nat,
                        ) == p@ as int) by {
                            assert(crate::merkle::anc(
                                tree.spec_nodes(),
                                leaf@ as int,
                                path@.len() as nat,
                            ) == cur as int);
                        }
                    }
                    path.push(p);
                    cur = p.index();
                },
                None => {
                    proof {
                        assert(crate::merkle::chain_depth(tree.spec_nodes(), cur as int) == 0);
                    }
                    break ;
                },
            }
        }
        Ok(path)
    }

    /// The child indices of `parent` in `tree`: the siblings of any one of
    /// its children, including that child itself.
    pub(crate) fn siblings(tree: &MrkleTree, parent: NodeIndex) -> (r: Vec<NodeIndex>)
        requires
            tree.wf(),
            parent@ < tree.spec_len(),
        ensures
            r@.map_values(|i: NodeIndex| i@) == tree.spec_nodes()[parent@ as int].spec_children(),
    {
        let node = match tree.get(parent.index()) {
            Some(n) => n,
            None => {
                proof {
                    assert(false);
                }
                return Vec::new();
            },
        };
        node.children()
    }
}

impl MrkleTree {
    /// Generate an inclusion proof for the given leaves of this tree.
    /// Exactly one leaf is supported.
    pub fn generate_proof(&self, leaves: Vec<NodeIndex>) -> (r: Result<MrkleProof, ProofError>)
        requires
            self.wf(),
            leaves@.len() == 1,
        ensures
            self.spec_len() <= 2 ==> r == Err::<MrkleProof, ProofError>(ProofError::InvalidSize),
            self.spec_len() > 2 && !(leaves@[0]@ < self.spec_len()
                && self.spec_nodes()[leaves@[0]@ as int].spec_children().len() == 0) ==> r == Err::<
                MrkleProof,
                ProofError,
            >(ProofError::ExpectedLeafHash),
            self.spec_len() > 2 && leaves@[0]@ < self.spec_len()
                && self.spec_nodes()[leaves@[0]@ as int].spec_children().len() == 0 ==> match r {
                Ok(p) => {
                    &&& p.wf()
                    &&& p.spec_alg() == self.spec_alg()
                    &&& p.spec_expected() == self.spec_root_hash()
                    &&& p.spec_valid() is None
                    &&& p.spec_leaves() == seq![0usize]
                    &&& generated_shape(p.spec_models())
                    &&& p.spec_root() == Some((p.spec_models().len() - 1) as usize)
                    &&& p.spec_models().len() == 2 * crate::merkle::chain_depth(
                        self.spec_nodes(),
                        leaves@[0]@ as int,
                    ) + 1
                    &&& forall|t: int|
                        0 <= t < crate::merkle::chain_depth(self.spec_nodes(), leaves@[0]@ as int)
                            ==> #[trigger] sibling_slots_match(
                            self.spec_nodes(),
                            leaves@[0]@ as int,
                            p.spec_models(),
                            t,
                        )
                    &&& heval(
                        self.spec_alg(),
                        fill(
                            p.spec_models(),
                            0,
                            self.spec_nodes()[leaves@[0]@ as int].spec_hash(),
                        ),
                        p.spec_root()->Some_0 as int,
                    ) == Some(self.spec_root_hash())
                },
                Err(_) => false,
            },
    {
        MrkleProof::generate(self, leaves)
    }
}

} // verus!

verus! {

impl MrkleProof {
    /// For every arena index shared by the ancestor paths of at least two of
    /// the given leaves, the positions (into `leaves`) of the leaves that
    /// share it, in ascending order. This supports the deferred multi-leaf
    /// generation: such shared ancestors need no supplied sibling.
    #[verifier::loop_isolation(false)]
    #[verifier::rlimit(100)]
    #[verifier::spinoff_prover]
    pub(crate) fn lca(tree: &MrkleTree, leaves: Vec<NodeIndex>) -> (r: Result<
        Vec<(NodeIndex, Vec<usize>)>,
        ProofError,
    >)
        requires
            tree.wf(),
        ensures
            tree.spec_len() <= 1 ==> r == Err::<Vec<(NodeIndex, Vec<usize>)>, ProofError>(
                ProofError::InvalidSize,
            ),
            r is Ok ==> tree.spec_len() > 1,
            r is Ok ==> forall|e: int|
                0 <= e < r->Ok_0@.len() ==> {
                    &&& (#[trigger] r->Ok_0@[e]).0@ < tree.spec_len()
                    &&& r->Ok_0@[e].1@.len() >= 2
                    &&& forall|t: int|
                        1 <= t < r->Ok_0@[e].1@.len() ==> r->Ok_0@[e].1@[t - 1]
                            < #[trigger] r->Ok_0@[e].1@[t]
                    &&& forall|k: int|
                        0 <= k < leaves@.len() ==> (#[trigger] r->Ok_0@[e].1@.contains(k as usize)
                            <==> on_path(
                            tree.spec_nodes(),
                            leaves@[k]@ as int,
                            r->Ok_0@[e].0@ as int,
                        ))
                    &&& forall|t: int|
                        0 <= t < r->Ok_0@[e].1@.len() ==> #[trigger] r->Ok_0@[e].1@[t]
                            < leaves@.len()
                },
            r is Ok ==> forall|e1: int, e2: int|
                0 <= e1 < e2 < r->Ok_0@.len() ==> (#[trigger] r->Ok_0@[e1]).0@
                    < (#[trigger] r->Ok_0@[e2]).0@,
    {
        let length = tree.len();
        if length <= 1 {
            return Err(ProofError::InvalidSize);
        }
        if leaves.len() == 0 {
            proof {
                assert forall|a: int|
                    0 <= a < tree.spec_len() && #[trigger] shared_by_two(
                        tree.spec_nodes(),
                        crate::tree::idxs(leaves@),
                        a,
                    ) implies false by {
                    let (k1, k2) = choose|k1: int, k2: int|
                        0 <= k1 < k2 < crate::tree::idxs(leaves@).len() && #[trigger] on_path(
                            tree.spec_nodes(),
                            crate::tree::idxs(leaves@)[k1] as int,
                            a,
                        ) && #[trigger] on_path(
                            tree.spec_nodes(),
                            crate::tree::idxs(leaves@)[k2] as int,
                            a,
                        );
                }
            }
            return Ok(Vec::new());
        }
        // one ancestor path per leaf
        let ghost ns = tree.spec_nodes();
        let mut paths: Vec<Vec<NodeIndex>> = Vec::new();
        let nleaves = leaves.len();
        for k in 0..nleaves
            invariant
                nleaves == leaves@.len(),
                paths@.len() == k,
                tree.wf(),
                ns == tree.spec_nodes(),
                forall|t: int|
                    0 <= t < k ==> (#[trigger] paths@[t])@.len() == crate::merkle::chain_depth(
                        ns,
                        leaves@[t]@ as int,
                    ) && (forall|u: int|
                        0 <= u < paths@[t]@.len() ==> (#[trigger] paths@[t]@[u])@ as int
                            == crate::merkle::anc(ns, leaves@[t]@ as int, (u + 1) as nat)),
        {
            match MrkleProof::path(tree, leaves[k]) {
                Ok(p) => {
                    paths.push(p);
                },
                Err(e) => {
                    return Err(e);
                },
            }
        }
        // for each node, the leaves whose paths pass through it
        let mut result: Vec<(NodeIndex, Vec<usize>)> = Vec::new();
        for a in 0..length
            invariant
                nleaves == leaves@.len(),
                paths@.len() == nleaves,
                length == tree.spec_len(),
                tree.wf(),
                ns == tree.spec_nodes(),
                forall|t: int|
                    0 <= t < nleaves ==> (#[trigger] paths@[t])@.len()
                        == crate::merkle::chain_depth(ns, leaves@[t]@ as int) && (forall|u: int|
                        0 <= u < paths@[t]@.len() ==> (#[trigger] paths@[t]@[u])@ as int
                            == crate::merkle::anc(ns, leaves@[t]@ as int, (u + 1) as nat)),
                forall|e: int|
                    0 <= e < result@.len() ==> {
                        &&& (#[trigger] result@[e]).0@ < a
                        &&& result@[e].1@.len() >= 2
                        &&& forall|t: int|
                            0 <= t < result@[e].1@.len() ==> #[trigger] result@[e].1@[t]
                                < leaves@.len()
                        &&& forall|t: int|
                            1 <= t < result@[e].1@.len() ==> result@[e].1@[t - 1]
                                < #[trigger] result@[e].1@[t]
                        &&& forall|kk: int|
                            0 <= kk < leaves@.len() ==> (#[trigger] result@[e].1@.contains(
                                kk as usize,
                            ) <==> on_path(ns, leaves@[kk]@ as int, result@[e].0@ as int))
                    },
                forall|e1: int, e2: int|
                    0 <= e1 < e2 < result@.len() ==> (#[trigger] result@[e1]).0@
                        < (#[trigger] result@[e2]).0@,
                forall|aa: int|
                    0 <= aa < a && #[trigger] shared_by_two(ns, crate::tree::idxs(leaves@), aa)
                        ==> exists|e: int|
                        0 <= e < result@.len() && (#[trigger] result@[e]).0@ == aa,
        {
            let mut sharing: Vec<usize> = Vec::new();
            for k in 0..nleaves
                invariant
                    nleaves == leaves@.len(),
                    paths@.len() == nleaves,
                    tree.wf(),
                    ns == tree.spec_nodes(),
                    a < length,
                    length == tree.spec_len(),
                    forall|t: int|
                        0 <= t < nleaves ==> (#[trigger] paths@[t])@.len()
                            == crate::merkle::chain_depth(ns, leaves@[t]@ as int) && (forall|
                            u: int,
                        |
                            0 <= u < paths@[t]@.len() ==> (#[trigger] paths@[t]@[u])@ as int
                                == crate::merkle::anc(ns, leaves@[t]@ as int, (u + 1) as nat)),
                    forall|t: int| 0 <= t < sharing@.len() ==> #[trigger] sharing@[t] < k,
                    forall|t: int|
                        1 <= t < sharing@.len() ==> sharing@[t - 1] < #[trigger] sharing@[t],
                    forall|kk: int|
                        0 <= kk < k ==> (#[trigger] sharing@.contains(kk as usize) <==> on_path(
                            ns,
                            leaves@[kk]@ as int,
                            a as int,
                        )),
            {
                let path = &paths[k];
                let mut onpath = false;
                let m = path.len();
                let mut u: usize = 0;
                while u < m
                    invariant
                        m == path@.len(),
                        u <= m,
                        path@ == paths@[k as int]@,
                        onpath <==> exists|uu: int| 0 <= uu < u && (#[trigger] path@[uu])@ == a,
                    decreases m - u,
                {
                    if path[u].index() == a {
                        proof {
                            assert((path@[u as int])@ == a);
                        }
                        onpath = true;
                    }
                    u = u + 1;
                }
                proof {
                    // membership of the walked path is exactly ancestry
                    assert(onpath <==> on_path(ns, leaves@[k as int]@ as int, a as int)) by {
                        if onpath {
                            let uu = choose|uu: int|
                                0 <= uu < m && (#[trigger] path@[uu])@ == a;
                            assert(crate::merkle::anc(ns, leaves@[k as int]@ as int, (uu
                                + 1) as nat) == a as int);
                            assert(1 <= uu + 1 <= crate::merkle::chain_depth(
                                ns,
                                leaves@[k as int]@ as int,
                            ));
                        }
                        if on_path(ns, leaves@[k as int]@ as int, a as int) {
                            let t = choose|t: int|
                                1 <= t <= crate::merkle::chain_depth(
                                    ns,
                                    leaves@[k as int]@ as int,
                                ) && #[trigger] crate::merkle::anc(
                                    ns,
                                    leaves@[k as int]@ as int,
                                    t as nat,
                                ) == a as int;
                            assert((path@[t - 1])@ as int == a as int);
                            assert((path@[t - 1])@ == a);
                        }
                    }
                }
                let ghost s0 = sharing@;
                if onpath {
                    sharing.push(k);
                    proof {
                        assert(sharing@ =~= s0.push(k as usize));
                        assert forall|kk: int|
                            0 <= kk < k + 1 implies (#[trigger] sharing@.contains(kk as usize)
                            <==> on_path(ns, leaves@[kk]@ as int, a as int)) by {
                            vstd::seq_lib::lemma_seq_contains_after_push(s0, k as usize, kk as usize);
                        }
                    }
                } else {
                    proof {
                        assert forall|kk: int|
                            0 <= kk < k + 1 implies (#[trigger] sharing@.contains(kk as usize)
                            <==> on_path(ns, leaves@[kk]@ as int, a as int)) by {
                            if kk == k {
                                if sharing@.contains(kk as usize) {
                                    let t = choose|t: int|
                                        0 <= t < sharing@.len() && sharing@[t] == kk as usize;
                                }
                            }
                        }
                    }
                }
            }
            // only ancestors shared by more than one leaf are recorded
            let ghost r0 = result@;
            if sharing.len() > 1 {
                result.push((NodeIndex::new(a), sharing));
                proof {
                    assert(result@ =~= r0.push(result@[result@.len() - 1]));
                    assert(result@[result@.len() - 1].0@ == a);
                    assert forall|aa: int|
                        0 <= aa < a + 1 && #[trigger] shared_by_two(
                            ns,
                            crate::tree::idxs(leaves@),
                            aa,
                        ) implies exists|e: int|
                        0 <= e < result@.len() && (#[trigger] result@[e]).0@ == aa by {
                        if aa < a {
                            let e = choose|e: int|
                                0 <= e < r0.len() && (#[trigger] r0[e]).0@ == aa;
                            assert(result@[e].0@ == aa);
                        } else {
                            assert(result@[result@.len() - 1].0@ == aa);
                        }
                    }
                }
            } else {
                proof {
                    // fewer than two sharers: no pair of leaves shares this node
                    assert forall|aa: int|
                        0 <= aa < a + 1 && #[trigger] shared_by_two(
                            ns,
                            crate::tree::idxs(leaves@),
                            aa,
                        ) implies exists|e: int|
                        0 <= e < result@.len() && (#[trigger] result@[e]).0@ == aa by {
                        if aa < a {
                            let e = choose|e: int|
                                0 <= e < r0.len() && (#[trigger] r0[e]).0@ == aa;
                            assert(result@[e].0@ == aa);
                        } else {
                            let (k1, k2) = choose|k1: int, k2: int|
                                0 <= k1 < k2 < crate::tree::idxs(leaves@).len()
                                    && #[trigger] on_path(
                                    ns,
                                    crate::tree::idxs(leaves@)[k1] as int,
                                    aa,
                                ) && #[trigger] on_path(
                                    ns,
                                    crate::tree::idxs(leaves@)[k2] as int,
                                    aa,
                                );
                            assert(crate::tree::idxs(leaves@)[k1] == leaves@[k1]@);
                            assert(crate::tree::idxs(leaves@)[k2] == leaves@[k2]@);
                            assert(sharing@.contains(k1 as usize));
                            assert(sharing@.contains(k2 as usize));
                            let t1 = choose|t: int|
                                0 <= t < sharing@.len() && sharing@[t] == k1 as usize;
                            let t2 = choose|t: int|
                                0 <= t < sharing@.len() && sharing@[t] == k2 as usize;
                            assert(t1 != t2);
                            assert(false);
                        }
                    }
                }
            }
        }
        proof {
            assert forall|e: int|
                0 <= e < result@.len() implies (#[trigger] result@[e]).0@ < tree.spec_len() by {}
            assert forall|a: int|
                0 <= a < tree.spec_len() && #[trigger] shared_by_two(
                    tree.spec_nodes(),
                    crate::tree::idxs(leaves@),
                    a,
                ) implies exists|e: int|
                0 <= e < result@.len() && (#[trigger] result@[e]).0@ == a by {
                assert(shared_by_two(ns, crate::tree::idxs(leaves@), a));
            }
        }
        Ok(result)
    }
}

} // verus!
