use crate::error::TreeError;
use crate::node::{opt_index, MutNode, Node, NodeIndex};
use vstd::std_specs::cmp::PartialEqSpec;
use vstd::prelude::*;

verus! {

/// A generic hierarchical tree held in a flat arena.
///
/// Nodes live in a vector and refer to each other by index. The structure is
/// not enforced at this level: callers that build trees by hand must keep the
/// links consistent themselves ([`Tree::wf_links`]); the Merkle builder and
/// proof generator only ever produce consistent arenas.
#[derive(Debug)]
pub struct Tree<N> {
    /// The index of the root node, if any.
    pub root: Option<NodeIndex>,
    /// Collection of all nodes in the tree, addressed by index.
    pub nodes: Vec<N>,
}

impl<N: Node + Clone> Clone for Tree<N> {
    fn clone(&self) -> (r: Self)
        ensures
            r.root == self.root,
            r.nodes@.len() == self.nodes@.len(),
    {
        Tree { root: self.root, nodes: self.nodes.clone() }
    }
}

impl<N: Node> Tree<N> {
    /// The number of nodes, as a mathematical value.
    pub open spec fn spec_len(&self) -> nat {
        self.nodes@.len()
    }

    /// The root slot, as a mathematical value.
    pub open spec fn spec_root(&self) -> Option<usize> {
        opt_index(self.root)
    }

    /// The child lists of all nodes, in arena order.
    pub open spec fn kids(&self) -> Seq<Seq<usize>> {
        self.nodes@.map_values(|n: N| n.spec_children())
    }

    /// All child references, parent references and the root are in bounds,
    /// and no child list repeats an index.
    pub open spec fn wf_links(&self) -> bool {
        &&& forall|i: int, k: int|
            #![auto]
            0 <= i < self.nodes@.len() && 0 <= k < self.nodes@[i].spec_children().len()
                ==> self.nodes@[i].spec_children()[k] < self.nodes@.len()
        &&& forall|i: int|
            #![auto]
            0 <= i < self.nodes@.len() && self.nodes@[i].spec_parent() is Some
                ==> self.nodes@[i].spec_parent()->Some_0 < self.nodes@.len()
        &&& forall|i: int|
            #![auto]
            0 <= i < self.nodes@.len() ==> self.nodes@[i].spec_children().no_duplicates()
        &&& (self.spec_root() is Some ==> self.spec_root()->Some_0 < self.nodes@.len())
    }

    /// There is a child edge from node `a` to node `b`.
    pub open spec fn child_edge(&self, a: int, b: int) -> bool {
        &&& 0 <= a < self.nodes@.len()
        &&& 0 <= b <= usize::MAX
        &&& self.nodes@[a].spec_children().contains(b as usize)
    }

    /// `p` is a non-empty sequence of in-bounds indices linked by child edges.
    pub open spec fn is_child_path(&self, p: Seq<int>) -> bool {
        &&& p.len() >= 1
        &&& forall|k: int| 0 <= k < p.len() ==> 0 <= #[trigger] p[k] < self.nodes@.len()
        &&& forall|k: int| 0 <= k < p.len() - 1 ==> #[trigger] self.child_edge(p[k], p[k + 1])
    }

    /// Node `to` lies in the subtree rooted at `from`: there is a (possibly
    /// empty) chain of child edges from `from` down to `to`.
    pub open spec fn reaches(&self, from: int, to: int) -> bool {
        exists|p: Seq<int>|
            self.is_child_path(p) && p.first() == from && p.last() == to
    }

    /// Every in-bounds node reaches itself.
    pub proof fn lemma_reaches_self(&self, i: int)
        requires
            0 <= i < self.nodes@.len(),
        ensures
            self.reaches(i, i),
    {
        let p = seq![i];
        assert(self.is_child_path(p) && p.first() == i && p.last() == i);
    }

    /// Reachability extends along one more child edge.
    pub proof fn lemma_reaches_step(&self, from: int, mid: int, to: int)
        requires
            self.reaches(from, mid),
            self.child_edge(mid, to),
            0 <= to < self.nodes@.len(),
        ensures
            self.reaches(from, to),
    {
        let p = choose|p: Seq<int>|
            self.is_child_path(p) && p.first() == from && p.last() == mid;
        let q = p.push(to);
        assert(q.first() == from && q.last() == to);
        assert forall|k: int| 0 <= k < q.len() - 1 implies #[trigger] self.child_edge(
            q[k],
            q[k + 1],
        ) by {
            if k < p.len() - 1 {
                assert(self.child_edge(p[k], p[k + 1]));
            }
        }
        assert(self.is_child_path(q));
    }

    /// In a well-formed arena, edge targets are in bounds.
    pub proof fn lemma_edge_target_bound(&self, a: int, b: int)
        requires
            self.wf_links(),
            self.child_edge(a, b),
        ensures
            0 <= b < self.nodes@.len(),
    {
        let cs = self.nodes@[a].spec_children();
        assert(cs.contains(b as usize));
        let k = choose|k: int| 0 <= k < cs.len() && cs[k] == b as usize;
        assert(self.nodes@[a].spec_children()[k] < self.nodes@.len());
        assert(b == cs[k] as int);
    }

    /// A set of marks that contains `from` and is closed under child edges
    /// contains everything `from` reaches.
    pub proof fn lemma_marked_closed_under_reach(&self, marked: Seq<bool>, from: int, to: int)
        requires
            marked.len() == self.nodes@.len(),
            0 <= from < self.nodes@.len(),
            marked[from],
            forall|a: int, b: int|
                0 <= a < self.nodes@.len() && marked[a] && #[trigger] self.child_edge(a, b)
                    ==> marked[b],
            self.reaches(from, to),
        ensures
            0 <= to < self.nodes@.len(),
            marked[to],
    {
        let p = choose|p: Seq<int>|
            self.is_child_path(p) && p.first() == from && p.last() == to;
        self.lemma_marked_path(marked, p);
    }

    proof fn lemma_marked_path(&self, marked: Seq<bool>, p: Seq<int>)
        requires
            marked.len() == self.nodes@.len(),
            self.is_child_path(p),
            0 <= p.first() < self.nodes@.len(),
            marked[p.first()],
            forall|a: int, b: int|
                0 <= a < self.nodes@.len() && marked[a] && #[trigger] self.child_edge(a, b)
                    ==> marked[b],
        ensures
            marked[p.last()],
        decreases p.len(),
    {
        if p.len() == 1 {
        } else {
            let q = p.drop_last();
            assert(self.is_child_path(q));
            assert(q.first() == p.first());
            self.lemma_marked_path(marked, q);
            let k = p.len() - 2;
            assert(self.child_edge(p[k], p[k + 1]));
            assert(marked[p[k]] && self.child_edge(p[k], p[k + 1]) ==> marked[p[k + 1]]);
        }
    }
}

/// The number of `true` entries in a sequence of marks.
pub open spec fn count_trues(s: Seq<bool>) -> int
    decreases s.len(),
{
    if s.len() == 0 {
        0
    } else {
        count_trues(s.drop_last()) + if s.last() {
            1int
        } else {
            0int
        }
    }
}

/// The count of marks is between zero and the sequence length.
pub proof fn lemma_count_trues_le(s: Seq<bool>)
    ensures
        0 <= count_trues(s) <= s.len(),
    decreases s.len(),
{
    if s.len() > 0 {
        lemma_count_trues_le(s.drop_last());
    }
}

/// Setting an unset mark increments the count.
pub proof fn lemma_count_trues_update(s: Seq<bool>, j: int)
    requires
        0 <= j < s.len(),
        !s[j],
    ensures
        count_trues(s.update(j, true)) == count_trues(s) + 1,
    decreases s.len(),
{
    let t = s.update(j, true);
    if j == s.len() - 1 {
        assert(t.drop_last() =~= s.drop_last());
    } else {
        assert(t.drop_last() =~= s.drop_last().update(j, true));
        lemma_count_trues_update(s.drop_last(), j);
    }
}

/// One step of breadth-first enqueueing: walk `cs` in order, marking and
/// appending every index that is in bounds and not yet marked.
pub open spec fn bfs_enqueue(cs: Seq<usize>, visited: Seq<bool>, queue: Seq<usize>) -> (Seq<
    bool,
>, Seq<usize>)
    decreases cs.len(),
{
    if cs.len() == 0 {
        (visited, queue)
    } else {
        let c = cs[0];
        if c < visited.len() && !visited[c as int] {
            bfs_enqueue(cs.drop_first(), visited.update(c as int, true), queue.push(c))
        } else {
            bfs_enqueue(cs.drop_first(), visited, queue)
        }
    }
}

/// Breadth-first traversal: pop the front of the queue, yield it, enqueue its
/// unvisited children, and continue. `fuel` bounds the number of pops; any
/// fuel at least the number of nodes is enough, because every pop was an
/// enqueue of a freshly marked node.
pub open spec fn bfs_steps(kids: Seq<Seq<usize>>, queue: Seq<usize>, visited: Seq<bool>, fuel: nat) -> Seq<usize>
    decreases fuel,
{
    if fuel == 0 || queue.len() == 0 {
        Seq::empty()
    } else {
        let x = queue[0];
        let cs = if x < kids.len() {
            kids[x as int]
        } else {
            Seq::empty()
        };
        let vq = bfs_enqueue(cs, visited, queue.drop_first());
        seq![x] + bfs_steps(kids, vq.1, vq.0, (fuel - 1) as nat)
    }
}

/// The breadth-first visit order from `start`: `start` first, then each
/// popped node's children in stored order, each node at most once.
pub open spec fn bfs_order(kids: Seq<Seq<usize>>, start: usize) -> Seq<usize> {
    bfs_steps(
        kids,
        seq![start],
        Seq::new(kids.len(), |j: int| j == start as int),
        kids.len(),
    )
}

} // verus!

verus! {

/// The views of a sequence of node indices.
pub open spec fn idxs(q: Seq<NodeIndex>) -> Seq<usize> {
    q.map_values(|x: NodeIndex| x@)
}

/// Every entry of a sequence of marks is false.
pub open spec fn all_false(s: Seq<bool>) -> bool {
    forall|j: int| 0 <= j < s.len() ==> !s[j]
}

/// A sequence of unset marks has count zero.
pub proof fn lemma_count_trues_all_false(s: Seq<bool>)
    requires
        all_false(s),
    ensures
        count_trues(s) == 0,
    decreases s.len(),
{
    if s.len() > 0 {
        assert(all_false(s.drop_last()));
        lemma_count_trues_all_false(s.drop_last());
    }
}

/// Relies on std's Vec::capacity: the capacity is at least the length.
#[verifier::external_body]
fn vec_capacity<T>(v: &Vec<T>) -> (r: usize)
    ensures
        r >= v@.len(),
{
    v.capacity()
}

impl<N: Node> Tree<N> {
    /// Creates an empty tree with no nodes.
    pub fn new() -> (r: Self)
        ensures
            r.nodes@.len() == 0,
            r.spec_root() is None,
    {
        Tree { root: None, nodes: Vec::new() }
    }

    /// Creates an empty tree with pre-allocated capacity for nodes.
    pub fn with_capacity(capacity: usize) -> (r: Self)
        ensures
            r.nodes@.len() == 0,
            r.spec_root() is None,
    {
        Tree { root: None, nodes: Vec::with_capacity(capacity) }
    }

    /// Returns the number of nodes currently in the tree.
    pub fn len(&self) -> (r: usize)
        ensures
            r == self.spec_len(),
    {
        self.nodes.len()
    }

    /// Returns the number of nodes the tree can hold without reallocating.
    pub fn capacity(&self) -> (r: usize)
        ensures
            r >= self.spec_len(),
    {
        vec_capacity(&self.nodes)
    }

    /// Returns `true` if the tree contains no nodes.
    pub fn is_empty(&self) -> (r: bool)
        ensures
            r <==> self.spec_len() == 0,
    {
        self.nodes.len() == 0
    }

    /// Unchecked setting of the root index of the tree.
    pub fn set_root(&mut self, root: Option<NodeIndex>)
        ensures
            final(self).root == root,
            final(self).nodes@ == old(self).nodes@,
    {
        self.root = root;
    }

    /// Returns the root index of the tree, if any.
    pub fn start(&self) -> (r: Option<NodeIndex>)
        ensures
            r == self.root,
    {
        self.root
    }

    /// Returns a reference to the root node.
    ///
    /// The tree must have an in-bounds root.
    pub fn root(&self) -> (r: &N)
        requires
            self.spec_root() is Some,
            self.spec_root()->Some_0 < self.spec_len(),
        ensures
            *r == self.nodes@[self.spec_root()->Some_0 as int],
    {
        let idx = match self.root {
            Some(i) => i,
            None => NodeIndex::new(0),
        };
        &self.nodes[idx.index()]
    }

    /// Attempts to return a reference to the root node.
    pub fn try_root(&self) -> (r: Result<&N, TreeError>)
        requires
            self.spec_root() is Some ==> self.spec_root()->Some_0 < self.spec_len(),
        ensures
            match r {
                Ok(n) => self.spec_root() is Some && *n == self.nodes@[self.spec_root()->Some_0 as int],
                Err(e) => self.spec_root() is None && e == TreeError::MissingRoot,
            },
    {
        if let Some(idx) = self.root {
            Ok(&self.nodes[idx.index()])
        } else {
            Err(TreeError::MissingRoot)
        }
    }

    /// Returns a reference to the node at `idx`, if it is in bounds.
    pub fn get(&self, idx: usize) -> (r: Option<&N>)
        ensures
            match r {
                Some(n) => idx < self.spec_len() && *n == self.nodes@[idx as int],
                None => idx >= self.spec_len(),
            },
    {
        if idx < self.nodes.len() {
            Some(&self.nodes[idx])
        } else {
            None
        }
    }

    /// Returns a mutable reference to the node at `idx`, if it is in bounds.
    pub fn get_mut(&mut self, idx: usize) -> (r: Option<&mut N>)
        ensures
            match r {
                Some(n) => idx < old(self).nodes@.len() && *n == old(self).nodes@[idx as int]
                    && final(self).root == old(self).root && final(self).nodes@ == old(self).nodes@.update(idx as int, *final(n)),
                None => idx >= old(self).nodes@.len() && *final(self) == *old(self),
            },
    {
        if idx < self.nodes.len() {
            Some(&mut self.nodes[idx])
        } else {
            None
        }
    }

    /// Returns the child nodes of the node at `index` as references,
    /// or an empty vector if `index` is out of bounds.
    pub fn get_children(&self, index: usize) -> (r: Vec<&N>)
        requires
            self.wf_links(),
        ensures
            index < self.spec_len() ==> {
                let cs = self.nodes@[index as int].spec_children();
                &&& r@.len() == cs.len()
                &&& forall|k: int| #![auto] 0 <= k < cs.len() ==> *r@[k] == self.nodes@[cs[k] as int]
            },
            index >= self.spec_len() ==> r@.len() == 0,
    {
        let mut r: Vec<&N> = Vec::new();
        if index >= self.nodes.len() {
            return r;
        }
        let cs = self.nodes[index].children();
        let ghost csv = self.nodes@[index as int].spec_children();
        let n = cs.len();
        for k in 0..n
            invariant
                n == cs@.len(),
                csv == cs@.map_values(|x: NodeIndex| x@),
                csv == self.nodes@[index as int].spec_children(),
                index < self.nodes@.len(),
                self.wf_links(),
                r@.len() == k,
                forall|j: int| #![auto] 0 <= j < k ==> *r@[j] == self.nodes@[csv[j] as int],
        {
            let ci = cs[k].index();
            assert(csv[k as int] == cs@[k as int]@);
            r.push(&self.nodes[ci]);
        }
        r
    }

    /// Returns the child indices of the node at `index`, or an empty vector
    /// if `index` is out of bounds.
    pub fn get_children_indices(&self, index: usize) -> (r: Vec<NodeIndex>)
        ensures
            index < self.spec_len() ==> idxs(r@) == self.nodes@[index as int].spec_children(),
            index >= self.spec_len() ==> r@.len() == 0,
    {
        if index < self.nodes.len() {
            self.nodes[index].children()
        } else {
            let r = Vec::new();
            proof {
                assert(idxs(r@) =~= Seq::<usize>::empty());
            }
            r
        }
    }

    /// Pushes a node onto the tree and returns its index.
    ///
    /// If the tree was empty and the node has no parent, it becomes the root;
    /// such a node must not already declare children, since their positions
    /// in the arena could not be inferred.
    pub fn push(&mut self, node: N) -> (r: NodeIndex)
        requires
            old(self).nodes@.len() == 0 && node.spec_parent() is None ==> node.spec_children().len()
                == 0,
        ensures
            final(self).nodes@ == old(self).nodes@.push(node),
            r@ == old(self).nodes@.len(),
            final(self).spec_root() == if old(self).nodes@.len() == 0 && node.spec_parent() is None {
                Some(0usize)
            } else {
                old(self).spec_root()
            },
    {
        if self.nodes.len() == 0 && node.is_root() {
            self.root = Some(NodeIndex::new(0));
        }
        self.nodes.push(node);
        NodeIndex::new(self.nodes.len() - 1)
    }

    /// Inserts a node at `index`, shifting all later nodes to the right.
    ///
    /// The links of other nodes are not adjusted; as with manual pushes,
    /// callers that insert by hand must keep the links consistent.
    pub fn insert(&mut self, index: NodeIndex, node: N)
        requires
            index@ <= old(self).spec_len(),
        ensures
            final(self).nodes@ == old(self).nodes@.insert(index@ as int, node),
            final(self).root == old(self).root,
    {
        self.nodes.insert(index.index(), node);
    }

    /// Clears the tree, removing all nodes and the root.
    pub(crate) fn clear(&mut self)
        ensures
            final(self).nodes@.len() == 0,
            final(self).spec_root() is None,
    {
        self.nodes.clear();
        self.root = None;
    }

    /// Mark every node reachable from `start` by child edges, and return the
    /// marks together with the breadth-first visit order.
    #[verifier::loop_isolation(false)]
    fn bfs_from(&self, start: NodeIndex) -> (r: (Vec<bool>, Vec<NodeIndex>))
        requires
            self.wf_links(),
            start@ < self.spec_len(),
        ensures
            r.0@.len() == self.spec_len(),
            forall|j: int|
                0 <= j < self.spec_len() ==> (r.0@[j] <==> self.reaches(start@ as int, j)),
            idxs(r.1@) == bfs_order(self.kids(), start@),
            idxs(r.1@).no_duplicates(),
            forall|k: int| 0 <= k < r.1@.len() ==> #[trigger] r.1@[k]@ < self.spec_len(),
            forall|j: int|
                0 <= j < self.spec_len() ==> (idxs(r.1@).contains(j as usize) <==> r.0@[j]),
            r.1@.len() >= 1 && r.1@[0]@ == start@,
            r.1@.len() <= self.spec_len(),
    {
        let len = self.nodes.len();
        let s = start.index();
        let mut marked: Vec<bool> = vec![false; len];
        proof {
            lemma_count_trues_all_false(marked@);
            lemma_count_trues_update(marked@, s as int);
        }
        marked.set(s, true);
        let mut queue: Vec<NodeIndex> = Vec::new();
        queue.push(start);
        let mut nmarked: usize = 1;
        let mut qhead: usize = 0;
        proof {
            self.lemma_reaches_self(s as int);
            assert(idxs(queue@) =~= seq![s]);
            assert(marked@ =~= Seq::new(self.kids().len(), |j: int| j == s as int));
            assert(idxs(queue@).subrange(0, 0) =~= Seq::<usize>::empty());
            assert(s == start@);
            assert(self.kids().len() == len as nat);
            assert(idxs(queue@).skip(0) =~= seq![start@]);
            assert(marked@ =~= Seq::new(self.kids().len(), |j: int| j == start@ as int));
            assert((len - 0) as nat == self.kids().len());
            assert(bfs_order(self.kids(), start@) == bfs_steps(
                self.kids(),
                idxs(queue@).skip(0),
                marked@,
                (len - 0) as nat,
            ));
            assert(bfs_order(self.kids(), start@) =~= Seq::<usize>::empty() + bfs_steps(
                self.kids(),
                idxs(queue@).skip(0),
                marked@,
                (len - 0) as nat,
            ));
        }
        while qhead < queue.len()
            invariant
                marked@.len() == len,
                qhead <= queue@.len(),
                nmarked == count_trues(marked@),
                queue@.len() == nmarked,
                nmarked <= len,
                forall|k: int| 0 <= k < queue@.len() ==> #[trigger] queue@[k]@ < len,
                forall|k: int| 0 <= k < queue@.len() ==> marked@[#[trigger] queue@[k]@ as int],
                idxs(queue@).no_duplicates(),
                forall|j: int|
                    0 <= j < len && marked@[j] ==> #[trigger] idxs(queue@).contains(j as usize),
                forall|j: int| 0 <= j < len && marked@[j] ==> self.reaches(s as int, j),
                marked@[s as int],
                queue@[0]@ == s,
                forall|k: int, c: int|
                    0 <= k < qhead && #[trigger] self.child_edge(queue@[k]@ as int, c) ==> marked@[c],
                bfs_order(self.kids(), start@) == idxs(queue@).subrange(0, qhead as int)
                    + bfs_steps(
                    self.kids(),
                    idxs(queue@).skip(qhead as int),
                    marked@,
                    (len - qhead) as nat,
                ),
            decreases len - nmarked, queue@.len() - qhead,
        {
            let x = queue[qhead];
            let xi = x.index();
            qhead = qhead + 1;
            let cs = self.nodes[xi].children();
            let ghost csv = self.nodes@[xi as int].spec_children();
            let ghost pre_marked = marked@;
            let ghost pre_rest = idxs(queue@).skip(qhead as int);
            let ghost pre_queue = queue@;
            let ghost pre_nmarked = nmarked as int;
            proof {
                assert(csv == cs@.map_values(|y: NodeIndex| y@));
                assert(csv.skip(0) =~= csv);
            }
            let m = cs.len();
            for k in 0..m
                invariant
                    m == cs@.len(),
                    csv == cs@.map_values(|y: NodeIndex| y@),
                    csv == self.nodes@[xi as int].spec_children(),
                    xi < len,
                    marked@.len() == len,
                    qhead <= queue@.len(),
                    nmarked == count_trues(marked@),
                    queue@.len() == nmarked,
                    nmarked <= len,
                    forall|kk: int| 0 <= kk < queue@.len() ==> #[trigger] queue@[kk]@ < len,
                    forall|kk: int| 0 <= kk < queue@.len() ==> marked@[#[trigger] queue@[kk]@ as int],
                    idxs(queue@).no_duplicates(),
                    forall|j: int|
                        0 <= j < len && marked@[j] ==> #[trigger] idxs(queue@).contains(j as usize),
                    forall|j: int| 0 <= j < len && marked@[j] ==> self.reaches(s as int, j),
                    marked@[s as int],
                    queue@[0]@ == s,
                    forall|kk: int, c: int|
                        0 <= kk < qhead - 1 && #[trigger] self.child_edge(queue@[kk]@ as int, c)
                            ==> marked@[c],
                    forall|j: int| 0 <= j < len && pre_marked[j] ==> marked@[j],
                    forall|j: int| 0 <= j < k ==> marked@[csv[j] as int],
                    queue@.subrange(0, qhead as int) == pre_queue.subrange(0, qhead as int),
                    bfs_enqueue(csv, pre_marked, pre_rest) == bfs_enqueue(
                        csv.skip(k as int),
                        marked@,
                        idxs(queue@).skip(qhead as int),
                    ),
                    nmarked - pre_nmarked == queue@.len() - pre_queue.len(),
                    queue@.len() >= pre_queue.len(),
            {
                let c = cs[k];
                let ci = c.index();
                proof {
                    assert(csv[k as int] == cs@[k as int]@);
                    assert(csv[k as int] < len);
                }
                let ghost rest0 = idxs(queue@).skip(qhead as int);
                let ghost marked0 = marked@;
                let ghost q0 = queue@;
                if !marked[ci] {
                    proof {
                        lemma_count_trues_update(marked@, ci as int);
                        lemma_count_trues_le(marked@.update(ci as int, true));
                        assert(self.reaches(s as int, xi as int));
                        assert(self.child_edge(xi as int, ci as int)) by {
                            assert(csv.contains(ci as usize)) by {
                                assert(csv[k as int] == ci);
                            }
                        }
                        self.lemma_reaches_step(s as int, xi as int, ci as int);
                    }
                    marked.set(ci, true);
                    queue.push(c);
                    nmarked = nmarked + 1;
                    proof {
                        assert(idxs(queue@) =~= idxs(q0).push(ci));
                        assert(idxs(queue@).skip(qhead as int) =~= rest0.push(ci));
                        assert(queue@.subrange(0, qhead as int) =~= pre_queue.subrange(
                            0,
                            qhead as int,
                        ));
                        // the freshly pushed index was unmarked, so not yet in the queue
                        assert(!idxs(q0).contains(ci)) by {
                            if idxs(q0).contains(ci) {
                                let kk = choose|kk: int|
                                    0 <= kk < idxs(q0).len() && idxs(q0)[kk] == ci;
                                assert(marked0[q0[kk]@ as int]);
                            }
                        }
                        assert(idxs(queue@).no_duplicates()) by {
                            let nq = idxs(q0).push(ci);
                            assert forall|i1: int, j1: int|
                                0 <= i1 < j1 < nq.len() implies nq[i1] != nq[j1] by {
                                if j1 == idxs(q0).len() {
                                    assert(nq[i1] == idxs(q0)[i1]);
                                    assert(idxs(q0).contains(idxs(q0)[i1]));
                                } else {
                                    assert(nq[i1] == idxs(q0)[i1] && nq[j1] == idxs(q0)[j1]);
                                }
                            }
                            assert(nq.no_duplicates());
                        }
                        assert forall|j: int|
                            0 <= j < len && marked@[j] implies #[trigger] idxs(queue@).contains(
                            j as usize,
                        ) by {
                            vstd::seq_lib::lemma_seq_contains_after_push(
                                idxs(q0),
                                ci,
                                j as usize,
                            );
                        }
                        assert(bfs_enqueue(csv.skip(k as int), marked0, rest0) == bfs_enqueue(
                            csv.skip(k + 1),
                            marked@,
                            idxs(queue@).skip(qhead as int),
                        )) by {
                            assert(csv.skip(k as int)[0] == csv[k as int]);
                            assert(csv.skip(k as int).drop_first() =~= csv.skip(k + 1));
                        }
                        assert forall|kk: int, c2: int|
                            0 <= kk < qhead - 1 && #[trigger] self.child_edge(
                                queue@[kk]@ as int,
                                c2,
                            ) implies marked@[c2] by {
                            assert(queue@[kk] == q0[kk]);
                            assert(self.child_edge(q0[kk]@ as int, c2));
                            self.lemma_edge_target_bound(q0[kk]@ as int, c2);
                            assert(marked0[c2]);
                        }
                        assert forall|kk: int| 0 <= kk < queue@.len() implies #[trigger] queue@[kk]@
                            < len by {
                            if kk < q0.len() {
                                assert(queue@[kk] == q0[kk]);
                            }
                        }
                    }
                } else {
                    proof {
                        assert(bfs_enqueue(csv.skip(k as int), marked@, rest0) == bfs_enqueue(
                            csv.skip(k + 1),
                            marked@,
                            idxs(queue@).skip(qhead as int),
                        )) by {
                            assert(csv.skip(k as int)[0] == csv[k as int]);
                            assert(csv.skip(k as int).drop_first() =~= csv.skip(k + 1));
                        }
                    }
                }
            }
            proof {
                assert(csv.skip(m as int) =~= Seq::<usize>::empty());
                assert(bfs_enqueue(csv, pre_marked, pre_rest) == (
                    marked@,
                    idxs(queue@).skip(qhead as int),
                ));
                // one unfolding of the breadth-first step relation
                let ghost old_rem = idxs(pre_queue).skip(qhead - 1);
                assert(old_rem[0] == xi) by {
                    assert(idxs(pre_queue)[qhead - 1] == xi);
                }
                assert(old_rem.drop_first() =~= pre_rest);
                assert(self.kids()[xi as int] == csv);
                assert(xi < self.kids().len());
                assert(bfs_steps(self.kids(), old_rem, pre_marked, (len - (qhead - 1)) as nat)
                    == seq![xi as usize] + bfs_steps(
                    self.kids(),
                    idxs(queue@).skip(qhead as int),
                    marked@,
                    (len - qhead) as nat,
                ));
                assert(queue@.subrange(0, qhead as int) == pre_queue.subrange(0, qhead as int));
                assert forall|i: int| 0 <= i < qhead implies queue@[i] == pre_queue[i] by {
                    assert(queue@.subrange(0, qhead as int)[i] == pre_queue.subrange(
                        0,
                        qhead as int,
                    )[i]);
                }
                assert(pre_queue[qhead - 1] == x);
                assert(idxs(queue@).subrange(0, qhead as int) =~= idxs(pre_queue).subrange(
                    0,
                    (qhead - 1) as int,
                ).push(xi));
                assert(idxs(pre_queue).subrange(0, (qhead - 1) as int).push(xi) + bfs_steps(
                    self.kids(),
                    idxs(queue@).skip(qhead as int),
                    marked@,
                    (len - qhead) as nat,
                ) =~= idxs(pre_queue).subrange(0, (qhead - 1) as int) + (seq![xi as usize]
                    + bfs_steps(
                    self.kids(),
                    idxs(queue@).skip(qhead as int),
                    marked@,
                    (len - qhead) as nat,
                )));
                // completeness: every child of the freshly popped node is marked
                assert(forall|c: int| #[trigger] self.child_edge(xi as int, c) ==> marked@[c]) by {
                    assert forall|c: int| #[trigger] self.child_edge(xi as int, c) implies marked@[c] by {
                        assert(csv.contains(c as usize));
                        self.lemma_edge_target_bound(xi as int, c);
                        let kk = choose|kk: int|
                            0 <= kk < csv.len() && csv[kk] == c as usize;
                        assert(marked@[csv[kk] as int]);
                        assert(csv[kk] as int == c);
                    }
                }
            }
        }
        proof {
            // the queue was fully processed, so the marks are closed under child edges
            assert forall|j: int|
                0 <= j < len && self.reaches(s as int, j) implies marked@[j] by {
                assert forall|a: int, b: int|
                    0 <= a < len && marked@[a] && #[trigger] self.child_edge(a, b) implies marked@[b] by {
                    assert(idxs(queue@).contains(a as usize));
                    let kk = choose|kk: int|
                        0 <= kk < idxs(queue@).len() && idxs(queue@)[kk] == a as usize;
                    assert(queue@[kk]@ == a as usize);
                    assert(self.child_edge(queue@[kk]@ as int, b));
                }
                self.lemma_marked_closed_under_reach(marked@, s as int, j);
            }
            assert(idxs(queue@).skip(queue@.len() as int) =~= Seq::<usize>::empty());
            assert(idxs(queue@).subrange(0, queue@.len() as int) =~= idxs(queue@));
            lemma_count_trues_le(marked@);
        }
        (marked, queue)
    }
}

} // verus!

verus! {

/// The number of unmarked indices below `j`: the new position of node `j`
/// after the marked nodes are removed.
pub open spec fn rank(marked: Seq<bool>, j: int) -> int
    decreases j,
{
    if j <= 0 {
        0
    } else {
        rank(marked, j - 1) + if 0 <= j - 1 < marked.len() && !marked[j - 1] {
            1int
        } else {
            0int
        }
    }
}

/// A parent or root slot after pruning: dropped if its target is marked,
/// renumbered otherwise.
pub open spec fn remap_parent(p: Option<usize>, marked: Seq<bool>) -> Option<usize> {
    match p {
        None => None,
        Some(q) => if q < marked.len() && !marked[q as int] {
            Some(rank(marked, q as int) as usize)
        } else {
            None
        },
    }
}

/// A child list after pruning: marked children are dropped, the rest are
/// renumbered, and the order is kept.
pub open spec fn surviving(cs: Seq<usize>, marked: Seq<bool>) -> Seq<usize>
    decreases cs.len(),
{
    if cs.len() == 0 {
        Seq::empty()
    } else {
        let rest = surviving(cs.drop_last(), marked);
        let c = cs.last();
        if c < marked.len() && !marked[c as int] {
            rest.push(rank(marked, c as int) as usize)
        } else {
            rest
        }
    }
}

/// A node sequence after pruning: the unmarked nodes, in order.
pub open spec fn compact<N>(ns: Seq<N>, marked: Seq<bool>) -> Seq<N>
    decreases ns.len(),
{
    if ns.len() == 0 {
        Seq::empty()
    } else if 0 < marked.len() && marked[0] {
        compact(ns.drop_first(), marked.drop_first())
    } else {
        seq![ns[0]] + compact(ns.drop_first(), marked.drop_first())
    }
}

/// Ranks never decrease, and strictly increase past an unmarked index.
pub proof fn lemma_rank_monotone(marked: Seq<bool>, j1: int, j2: int)
    requires
        j1 <= j2,
    ensures
        rank(marked, j1) <= rank(marked, j2),
        0 <= j1 < marked.len() && !marked[j1] && j1 < j2 ==> rank(marked, j1) < rank(marked, j2),
    decreases j2 - j1,
{
    if j1 < j2 {
        lemma_rank_monotone(marked, j1 + 1, j2);
    }
}

/// The rank of an index only depends on the marks below it.
pub proof fn lemma_rank_prefix(m1: Seq<bool>, m2: Seq<bool>, j: int)
    requires
        j <= m1.len(),
        j <= m2.len(),
        forall|i: int| 0 <= i < j ==> m1[i] == m2[i],
    ensures
        rank(m1, j) == rank(m2, j),
    decreases j,
{
    if j > 0 {
        lemma_rank_prefix(m1, m2, j - 1);
    }
}

/// Past the whole sequence, the rank counts all unmarked entries.
pub proof fn lemma_rank_full(marked: Seq<bool>)
    ensures
        rank(marked, marked.len() as int) == marked.len() - count_trues(marked),
    decreases marked.len(),
{
    if marked.len() > 0 {
        lemma_rank_full(marked.drop_last());
        lemma_rank_prefix(marked, marked.drop_last(), marked.len() - 1);
    }
}

/// An unmarked index is renumbered to a position below the new length.
pub proof fn lemma_rank_bound(marked: Seq<bool>, j: int)
    requires
        0 <= j < marked.len(),
        !marked[j],
    ensures
        0 <= rank(marked, j) < marked.len() - count_trues(marked),
{
    lemma_rank_monotone(marked, 0, j);
    lemma_rank_monotone(marked, j, marked.len() as int);
    lemma_rank_full(marked);
}

/// Two distinct unmarked indices are renumbered apart.
pub proof fn lemma_rank_injective(marked: Seq<bool>, j1: int, j2: int)
    requires
        0 <= j1 < marked.len(),
        0 <= j2 < marked.len(),
        !marked[j1],
        !marked[j2],
        j1 != j2,
    ensures
        rank(marked, j1) != rank(marked, j2),
{
    if j1 < j2 {
        lemma_rank_monotone(marked, j1, j2);
    } else {
        lemma_rank_monotone(marked, j2, j1);
    }
}

/// What the surviving child list holds: exactly the ranks of the unmarked
/// entries of the old list.
pub proof fn lemma_surviving_contains(cs: Seq<usize>, marked: Seq<bool>, v: usize)
    ensures
        surviving(cs, marked).contains(v) <==> exists|k: int|
            0 <= k < cs.len() && cs[k] < marked.len() && !marked[cs[k] as int] && v == rank(
                marked,
                cs[k] as int,
            ) as usize,
    decreases cs.len(),
{
    if cs.len() > 0 {
        lemma_surviving_contains(cs.drop_last(), marked, v);
        let c = cs.last();
        let rest = surviving(cs.drop_last(), marked);
        if c < marked.len() && !marked[c as int] {
            assert forall|x: usize| rest.push(rank(marked, c as int) as usize).contains(x)
                implies (rest.contains(x) || x == rank(marked, c as int) as usize) by {
                vstd::seq_lib::lemma_seq_contains_after_push(
                    rest,
                    rank(marked, c as int) as usize,
                    x,
                );
            }
            assert forall|x: usize| rest.contains(x) implies rest.push(
                rank(marked, c as int) as usize,
            ).contains(x) by {
                vstd::seq_lib::lemma_seq_contains_after_push(
                    rest,
                    rank(marked, c as int) as usize,
                    x,
                );
            }
            assert(rest.push(rank(marked, c as int) as usize).last() == rank(
                marked,
                c as int,
            ) as usize);
        }
        if exists|k: int|
            0 <= k < cs.len() && cs[k] < marked.len() && !marked[cs[k] as int] && v == rank(
                marked,
                cs[k] as int,
            ) as usize {
            let k = choose|k: int|
                0 <= k < cs.len() && cs[k] < marked.len() && !marked[cs[k] as int] && v == rank(
                    marked,
                    cs[k] as int,
                ) as usize;
            if k < cs.len() - 1 {
                assert(cs.drop_last()[k] == cs[k]);
            }
        }
    }
}

/// Counting marks from the front agrees with counting from the back.
pub proof fn lemma_count_trues_front(s: Seq<bool>)
    requires
        s.len() > 0,
    ensures
        count_trues(s) == (if s[0] {
            1int
        } else {
            0int
        }) + count_trues(s.drop_first()),
    decreases s.len(),
{
    if s.len() == 1 {
        assert(s.drop_first() =~= Seq::<bool>::empty());
        assert(s.drop_last() =~= Seq::<bool>::empty());
        assert(count_trues(Seq::<bool>::empty()) == 0);
        assert(s.last() == s[0]);
    } else {
        lemma_count_trues_front(s.drop_last());
        assert(s.drop_last()[0] == s[0]);
        assert(s.drop_last().drop_first() =~= s.drop_first().drop_last());
        assert(s.drop_first().last() == s.last());
    }
}

/// The rank seen from one position further in agrees with the full rank.
pub proof fn lemma_rank_shift(m: Seq<bool>, j: int)
    requires
        m.len() > 0,
        1 <= j,
    ensures
        rank(m, j) == (if m[0] {
            0int
        } else {
            1int
        }) + rank(m.drop_first(), j - 1),
    decreases j,
{
    if j == 1 {
        assert(rank(m, 0) == 0);
        assert(rank(m.drop_first(), 0) == 0);
    } else {
        lemma_rank_shift(m, j - 1);
        if 0 <= j - 2 < m.drop_first().len() {
            assert(m.drop_first()[j - 2] == m[j - 1]);
        }
    }
}

/// The compacted node sequence has one entry per unmarked mark.
pub proof fn lemma_compact_len<N>(ns: Seq<N>, marked: Seq<bool>)
    requires
        ns.len() == marked.len(),
    ensures
        compact(ns, marked).len() == ns.len() - count_trues(marked),
    decreases ns.len(),
{
    if ns.len() > 0 {
        lemma_count_trues_front(marked);
        lemma_compact_len(ns.drop_first(), marked.drop_first());
    }
}

/// The compacted node sequence keeps each unmarked node, at its rank.
pub proof fn lemma_compact_index<N>(ns: Seq<N>, marked: Seq<bool>, j: int)
    requires
        ns.len() == marked.len(),
        0 <= j < ns.len(),
        !marked[j],
    ensures
        0 <= rank(marked, j) < compact(ns, marked).len(),
        compact(ns, marked)[rank(marked, j)] == ns[j],
    decreases j,
{
    lemma_compact_len(ns, marked);
    lemma_rank_bound(marked, j);
    if j == 0 {
    } else {
        lemma_compact_index(ns.drop_first(), marked.drop_first(), j - 1);
        lemma_rank_shift(marked, j);
    }
}

/// On a contiguous block of marks, renumbering is a plain shift.
pub proof fn lemma_rank_contiguous(marked: Seq<bool>, start: int, cnt: int, j: int)
    requires
        0 <= start,
        0 < cnt,
        start + cnt <= marked.len(),
        forall|i: int| 0 <= i < marked.len() ==> (marked[i] <==> start <= i < start + cnt),
        0 <= j <= marked.len(),
    ensures
        j <= start ==> rank(marked, j) == j,
        start <= j ==> rank(marked, j) == if j <= start + cnt {
            start
        } else {
            j - cnt
        },
    decreases j,
{
    if j > 0 {
        lemma_rank_contiguous(marked, start, cnt, j - 1);
    }
}

} // verus!

verus! {

/// Node `post` is node `pre` with its links renumbered through [`rank`] for
/// the removal of the marked nodes, and everything else unchanged.
pub open spec fn relinked_for<N: Node>(pre: N, post: N, marked: Seq<bool>) -> bool {
    &&& post.same_content(&pre)
    &&& post.spec_children() == surviving(pre.spec_children(), marked)
    &&& post.spec_parent() == remap_parent(pre.spec_parent(), marked)
}

impl<N: MutNode> Tree<N> {
    /// What pruning leaves behind: the unmarked nodes in order, each with its
    /// links renumbered through [`rank`], and the root renumbered the same way.
    pub open spec fn pruned_arena(pre: Tree<N>, post: Tree<N>, marked: Seq<bool>) -> bool {
        &&& marked.len() == pre.nodes@.len()
        &&& post.nodes@.len() == pre.nodes@.len() - count_trues(marked)
        &&& forall|j: int|
            0 <= j < pre.nodes@.len() && !marked[j] ==> #[trigger] relinked_for(
                pre.nodes@[j],
                post.nodes@[rank(marked, j)],
                marked,
            )
        &&& post.spec_root() == remap_parent(pre.spec_root(), marked)
    }

    /// Check whether a sorted list of indices is a contiguous run.
    fn is_sequential(&self, indices: &Vec<usize>) -> (r: bool)
        ensures
            r <==> forall|t: int|
                1 <= t < indices@.len() ==> #[trigger] indices@[t] == indices@[t - 1] + 1,
    {
        let n = indices.len();
        if n == 0 {
            return true;
        }
        for t in 1..n
            invariant
                n == indices@.len(),
                forall|u: int| 1 <= u < t ==> #[trigger] indices@[u] == indices@[u - 1] + 1,
        {
            if indices[t - 1] == usize::MAX || indices[t] != indices[t - 1] + 1 {
                proof {
                    assert(indices@[t as int] != indices@[t - 1] + 1);
                }
                return false;
            }
        }
        true
    }

    /// Rewrite one surviving node's links for the removal of the marked
    /// nodes, renumbering children and parent and dropping marked targets.
    #[verifier::loop_isolation(false)]
    fn remap_node(&mut self, i: usize, marked: &Vec<bool>, map: &Vec<usize>)
        requires
            i < old(self).nodes@.len(),
            marked@.len() == old(self).nodes@.len(),
            map@.len() == old(self).nodes@.len(),
            forall|j: int| 0 <= j < map@.len() ==> map@[j] == rank(marked@, j),
            forall|k: int|
                0 <= k < old(self).nodes@[i as int].spec_children().len()
                    ==> #[trigger] old(self).nodes@[i as int].spec_children()[k] < marked@.len(),
            old(self).nodes@[i as int].spec_children().no_duplicates(),
            old(self).nodes@[i as int].spec_parent() is Some ==> old(self).nodes@[i as int].spec_parent()->Some_0 < marked@.len(),
        ensures
            final(self).nodes@.len() == old(self).nodes@.len(),
            final(self).root == old(self).root,
            forall|j: int|
                0 <= j < old(self).nodes@.len() && j != i ==> final(self).nodes@[j] == old(self).nodes@[j],
            relinked_for(old(self).nodes@[i as int], final(self).nodes@[i as int], marked@),
    {
        let ghost orig = self.nodes@[i as int];
        let cs = self.nodes[i].children();
        let ghost csv = orig.spec_children();
        let m = cs.len();
        let n = &mut self.nodes[i];
        let ghost mid0 = *n;
        let _ = n.clear();
        proof {
            mid0.lemma_same_content_refl();
            assert(surviving(csv.subrange(0, 0), marked@) =~= Seq::<usize>::empty());
        }
        for k in 0..m
            invariant
                m == cs@.len(),
                csv == cs@.map_values(|y: NodeIndex| y@),
                n.spec_children() == surviving(csv.subrange(0, k as int), marked@),
                n.same_content(&orig),
                n.spec_parent() == orig.spec_parent(),
        {
            let c = cs[k].index();
            proof {
                assert(csv[k as int] == cs@[k as int]@);
                assert(csv[k as int] < marked@.len());
                assert(csv.subrange(0, k + 1).drop_last() =~= csv.subrange(0, k as int));
                assert(csv.subrange(0, k + 1).last() == csv[k as int]);
            }
            if !marked[c] {
                // child survives: renumber it
                proof {
                    let ghost target = rank(marked@, c as int) as usize;
                    assert(!n.spec_children().contains(target)) by {
                        lemma_surviving_contains(csv.subrange(0, k as int), marked@, target);
                        if n.spec_children().contains(target) {
                            let kk = choose|kk: int|
                                0 <= kk < csv.subrange(0, k as int).len() && csv.subrange(
                                    0,
                                    k as int,
                                )[kk] < marked@.len() && !marked@[csv.subrange(0, k as int)[kk] as int]
                                    && target == rank(
                                    marked@,
                                    csv.subrange(0, k as int)[kk] as int,
                                ) as usize;
                            let c2 = csv.subrange(0, k as int)[kk];
                            lemma_rank_bound(marked@, c as int);
                            lemma_rank_bound(marked@, c2 as int);
                            if c2 != c {
                                lemma_rank_injective(marked@, c2 as int, c as int);
                            } else {
                                assert(csv[kk] == csv[k as int]);
                            }
                        }
                    }
                    let ghost prev = *n;
                }
                let ghost prev = *n;
                n.push(NodeIndex::new(map[c]));
                proof {
                    n.lemma_same_content_trans(&prev, &orig);
                    lemma_rank_bound(marked@, c as int);
                    assert(n.spec_children() =~= surviving(csv.subrange(0, k + 1), marked@));
                }
            } else {
                proof {
                    assert(surviving(csv.subrange(0, k + 1), marked@) == surviving(
                        csv.subrange(0, k as int),
                        marked@,
                    ));
                }
            }
        }
        proof {
            assert(csv.subrange(0, m as int) =~= csv);
        }
        // renumber or drop the parent link
        match n.parent() {
            Some(p) => {
                let pi = p.index();
                if marked[pi] {
                    let ghost prev = *n;
                    let _ = n.take_parent();
                    proof {
                        n.lemma_same_content_trans(&prev, &orig);
                    }
                } else {
                    let ghost prev = *n;
                    n.set_parent(NodeIndex::new(map[pi]));
                    proof {
                        n.lemma_same_content_trans(&prev, &orig);
                    }
                }
            },
            None => {},
        }
    }
}

} // verus!

verus! {

/// In a run of consecutive indices, each entry is the first plus its offset.
pub proof fn lemma_consecutive_at(s: Seq<usize>, t: int)
    requires
        forall|u: int| 1 <= u < s.len() ==> #[trigger] s[u] == s[u - 1] + 1,
        0 <= t < s.len(),
    ensures
        s[t] == s[0] + t,
    decreases t,
{
    if t > 0 {
        lemma_consecutive_at(s, t - 1);
    }
}

/// The marks on the subtree of `from`: true exactly for the nodes it reaches.
pub open spec fn reach_marks<N: Node>(t: Tree<N>, from: int) -> Seq<bool> {
    Seq::new(t.nodes@.len(), |j: int| t.reaches(from, j))
}

impl<N: MutNode> Tree<N> {
    /// Rewrite the links of every unmarked node for the removal of the
    /// marked nodes, leaving the marked nodes and the root slot untouched.
    #[verifier::loop_isolation(false)]
    fn remap_survivors(&mut self, marked: &Vec<bool>, map: &Vec<usize>)
        requires
            old(self).wf_links(),
            marked@.len() == old(self).nodes@.len(),
            map@.len() == old(self).nodes@.len(),
            forall|j: int| 0 <= j < map@.len() ==> #[trigger] map@[j] == rank(marked@, j),
        ensures
            final(self).nodes@.len() == old(self).nodes@.len(),
            final(self).root == old(self).root,
            forall|ii: int|
                #![auto]
                0 <= ii < old(self).nodes@.len() && marked@[ii] ==> final(self).nodes@[ii] == old(self).nodes@[ii],
            forall|ii: int|
                0 <= ii < old(self).nodes@.len() && !marked@[ii] ==> #[trigger] relinked_for(
                    old(self).nodes@[ii],
                    final(self).nodes@[ii],
                    marked@,
                ),
    {
        let len = self.nodes.len();
        let ghost pre = *self;
        for i in 0..len
            invariant
                self.nodes@.len() == len,
                self.root == pre.root,
                forall|ii: int| i <= ii < len ==> self.nodes@[ii] == pre.nodes@[ii],
                forall|ii: int|
                    #![auto]
                    0 <= ii < i && marked@[ii] ==> self.nodes@[ii] == pre.nodes@[ii],
                forall|ii: int|
                    0 <= ii < i && !marked@[ii] ==> #[trigger] relinked_for(
                        pre.nodes@[ii],
                        self.nodes@[ii],
                        marked@,
                    ),
        {
            if !marked[i] {
                proof {
                    assert(self.nodes@[i as int] == pre.nodes@[i as int]);
                    assert forall|k: int|
                        0 <= k < self.nodes@[i as int].spec_children().len()
                            implies #[trigger] self.nodes@[i as int].spec_children()[k]
                        < marked@.len() by {
                        assert(pre.nodes@[i as int].spec_children()[k] < pre.nodes@.len());
                    }
                    assert(self.nodes@[i as int].spec_children().no_duplicates());
                    if self.nodes@[i as int].spec_parent() is Some {
                        assert(pre.nodes@[i as int].spec_parent()->Some_0 < pre.nodes@.len());
                    }
                }
                self.remap_node(i, marked, map);
            }
        }
    }

    /// Renumber or drop the root slot for the removal of the marked nodes.
    fn remap_root(&mut self, marked: &Vec<bool>, map: &Vec<usize>)
        requires
            old(self).spec_root() is Some ==> old(self).spec_root()->Some_0 < marked@.len(),
            forall|j: int| 0 <= j < map@.len() ==> #[trigger] map@[j] == rank(marked@, j),
            map@.len() == marked@.len(),
        ensures
            final(self).nodes@ == old(self).nodes@,
            final(self).spec_root() == remap_parent(old(self).spec_root(), marked@),
    {
        match self.root {
            Some(rt) => {
                let ri = rt.index();
                if marked[ri] {
                    self.root = None;
                } else {
                    self.root = Some(NodeIndex::new(map[ri]));
                }
            },
            None => {},
        }
    }

    /// Removes the nodes marked by a contiguous run of indices: renumbering
    /// is a plain shift past the run, and the node vector is spliced once.
    #[verifier::loop_isolation(false)]
    #[verifier::rlimit(60)]
    fn prune_sequential(&mut self, indices: Vec<usize>, marked: &Vec<bool>) -> (r: Result<
        (),
        TreeError,
    >)
        requires
            old(self).wf_links(),
            marked@.len() == old(self).nodes@.len(),
            indices@.len() >= 1,
            forall|t: int| 1 <= t < indices@.len() ==> #[trigger] indices@[t] == indices@[t - 1] + 1,
            indices@[0] + indices@.len() <= old(self).nodes@.len(),
            forall|j: int|
                0 <= j < marked@.len() ==> (marked@[j] <==> indices@[0] <= j < indices@[0]
                    + indices@.len()),
        ensures
            r is Ok,
            Tree::pruned_arena(*old(self), *final(self), marked@),
    {
        let len = self.nodes.len();
        let start = indices[0];
        let cnt = indices.len();
        let end = start + cnt - 1;
        // the contiguous run turns renumbering into a plain shift
        let mut map: Vec<usize> = Vec::new();
        for j in 0..len
            invariant
                map@.len() == j,
                forall|jj: int| 0 <= jj < j ==> #[trigger] map@[jj] == rank(marked@, jj),
        {
            proof {
                lemma_rank_contiguous(marked@, start as int, cnt as int, j as int);
            }
            if j <= start {
                map.push(j);
            } else if j > end {
                map.push(j - cnt);
            } else {
                map.push(start);
            }
        }
        let ghost pre = *self;
        self.remap_survivors(marked, &map);
        self.remap_root(marked, &map);
        // splice out the doomed range in one operation
        let ghost rewritten = self.nodes@;
        let ghost root2 = self.spec_root();
        let mut tail = self.nodes.split_off(end + 1);
        self.nodes.truncate(start);
        self.nodes.append(&mut tail);
        proof {
            assert(self.nodes@ =~= rewritten.subrange(0, start as int) + rewritten.subrange(
                end + 1,
                len as int,
            ));
            lemma_rank_contiguous(marked@, start as int, cnt as int, len as int);
            lemma_rank_full(marked@);
            assert(count_trues(marked@) == cnt);
            assert forall|j: int| 0 <= j < len && !marked@[j] implies #[trigger] relinked_for(
                pre.nodes@[j],
                final(self).nodes@[rank(marked@, j)],
                marked@,
            ) by {
                lemma_rank_contiguous(marked@, start as int, cnt as int, j);
                let nj = rank(marked@, j);
                assert(relinked_for(pre.nodes@[j], rewritten[j], marked@));
                if j < start {
                    assert(self.nodes@[nj] == rewritten[j]);
                } else {
                    assert(j > end);
                    assert(nj == j - cnt);
                    assert(self.nodes@[nj] == rewritten.subrange(end + 1, len as int)[j - end - 1]);
                }
            }
        }
        Ok(())
    }

    /// Removes a scattered set of marked nodes: builds a full old-to-new
    /// index mapping, rewrites every surviving node through it, then drops
    /// the marked nodes one by one from the back.
    #[verifier::loop_isolation(false)]
    #[verifier::rlimit(60)]
    fn prune_non_sequential(&mut self, marked: &Vec<bool>) -> (r: Result<(), TreeError>)
        requires
            old(self).wf_links(),
            marked@.len() == old(self).nodes@.len(),
        ensures
            r is Ok,
            Tree::pruned_arena(*old(self), *final(self), marked@),
    {
        let len = self.nodes.len();
        // build the old-index to new-index mapping before any modification
        let mut map: Vec<usize> = Vec::new();
        let mut new_index: usize = 0;
        for j in 0..len
            invariant
                map@.len() == j,
                new_index == rank(marked@, j as int),
                new_index <= j,
                forall|jj: int| 0 <= jj < j ==> #[trigger] map@[jj] == rank(marked@, jj),
        {
            map.push(new_index);
            if !marked[j] {
                new_index = new_index + 1;
            }
        }
        let ghost pre = *self;
        self.remap_survivors(marked, &map);
        self.remap_root(marked, &map);
        // drop the marked nodes, walking down from the back
        let ghost rewritten = self.nodes@;
        let ghost root2 = self.root;
        let mut i = len;
        proof {
            assert(rewritten.skip(len as int) =~= Seq::<N>::empty());
            assert(marked@.skip(len as int) =~= Seq::<bool>::empty());
            assert(self.nodes@ =~= rewritten.subrange(0, len as int) + compact(
                rewritten.skip(len as int),
                marked@.skip(len as int),
            ));
        }
        while i > 0
            invariant
                i <= len,
                self.root == root2,
                self.nodes@ == rewritten.subrange(0, i as int) + compact(
                    rewritten.skip(i as int),
                    marked@.skip(i as int),
                ),
            decreases i,
        {
            i = i - 1;
            proof {
                assert(rewritten.skip(i as int).drop_first() =~= rewritten.skip(i + 1));
                assert(marked@.skip(i as int).drop_first() =~= marked@.skip(i + 1));
                assert(rewritten.skip(i as int)[0] == rewritten[i as int]);
                assert(marked@.skip(i as int)[0] == marked@[i as int]);
            }
            if marked[i] {
                proof {
                    lemma_compact_len(rewritten.skip(i + 1), marked@.skip(i + 1));
                }
                let _ = self.nodes.remove(i);
                proof {
                    assert(self.nodes@ =~= rewritten.subrange(0, i as int) + compact(
                        rewritten.skip(i as int),
                        marked@.skip(i as int),
                    ));
                }
            } else {
                proof {
                    assert(compact(rewritten.skip(i as int), marked@.skip(i as int)) =~= seq![
                        rewritten[i as int],
                    ] + compact(rewritten.skip(i + 1), marked@.skip(i + 1)));
                    assert(self.nodes@ =~= rewritten.subrange(0, i as int) + compact(
                        rewritten.skip(i as int),
                        marked@.skip(i as int),
                    ));
                }
            }
        }
        proof {
            assert(rewritten.subrange(0, 0) =~= Seq::<N>::empty());
            assert(rewritten.skip(0) =~= rewritten);
            assert(marked@.skip(0) =~= marked@);
            assert(self.nodes@ =~= compact(rewritten, marked@));
            lemma_compact_len(rewritten, marked@);
            assert forall|j: int| 0 <= j < len && !marked@[j] implies #[trigger] relinked_for(
                pre.nodes@[j],
                final(self).nodes@[rank(marked@, j)],
                marked@,
            ) by {
                assert(relinked_for(pre.nodes@[j], rewritten[j], marked@));
                lemma_compact_index(rewritten, marked@, j);
            }
        }
        Ok(())
    }

    /// Removes the node at `index` and every node in its subtree.
    ///
    /// Pruning the root clears the arena. Otherwise the subtree of `index` is
    /// collected breadth-first and removed, and every remaining child,
    /// parent and root reference is renumbered to account for the removed
    /// slots; a contiguous subtree is spliced out in one pass.
    #[verifier::loop_isolation(false)]
    pub fn prune(&mut self, index: NodeIndex) -> (r: Result<(), TreeError>)
        requires
            old(self).wf_links(),
        ensures
            old(self).spec_root() is None ==> r == Err::<(), TreeError>(TreeError::MissingRoot)
                && *final(self) == *old(self),
            old(self).spec_root() is Some && old(self).spec_root() == Some(index@) ==> r is Ok
                && final(self).nodes@.len() == 0 && final(self).spec_root() is None,
            old(self).spec_root() is Some && old(self).spec_root() != Some(index@) && index@ >= old(self).nodes@.len() ==> r == Err::<(), TreeError>(
                TreeError::IndexOutOfBounds { index: index@, len: old(self).nodes@.len() as usize },
            ) && *final(self) == *old(self),
            old(self).spec_root() is Some && old(self).spec_root() != Some(index@) && index@ < old(self).nodes@.len() ==> r is Ok && Tree::pruned_arena(
                *old(self),
                *final(self),
                reach_marks(*old(self), index@ as int),
            ),
    {
        let rt = match self.root {
            Some(rt) => rt,
            None => {
                return Err(TreeError::MissingRoot);
            },
        };
        if index.index() == rt.index() {
            self.clear();
            return Ok(());
        }
        if index.index() >= self.nodes.len() {
            return Err(TreeError::IndexOutOfBounds { index: index.index(), len: self.nodes.len() });
        }
        let len = self.nodes.len();
        let bfs = self.bfs_from(index);
        let marked = bfs.0;
        proof {
            assert(marked@ =~= reach_marks(*self, index@ as int));
        }
        // collect the doomed indices in ascending order
        let mut indices: Vec<usize> = Vec::new();
        proof {
            assert(marked@.subrange(0, 0) =~= Seq::<bool>::empty());
        }
        for j in 0..len
            invariant
                marked@.len() == len,
                indices@.len() == count_trues(marked@.subrange(0, j as int)),
                forall|t: int|
                    0 <= t < indices@.len() ==> #[trigger] indices@[t] < j && marked@[indices@[t] as int],
                forall|t1: int, t2: int|
                    0 <= t1 < t2 < indices@.len() ==> indices@[t1] < indices@[t2],
                forall|jj: int|
                    0 <= jj < j && marked@[jj] ==> #[trigger] indices@.contains(jj as usize),
        {
            proof {
                assert(marked@.subrange(0, j + 1).drop_last() =~= marked@.subrange(0, j as int));
                assert(marked@.subrange(0, j + 1).last() == marked@[j as int]);
            }
            if marked[j] {
                let ghost i0 = indices@;
                indices.push(j);
                proof {
                    assert(indices@.last() == j as usize);
                    assert forall|jj: int|
                        0 <= jj < j + 1 && marked@[jj] implies #[trigger] indices@.contains(
                        jj as usize,
                    ) by {
                        vstd::seq_lib::lemma_seq_contains_after_push(i0, j as usize, jj as usize);
                    }
                }
            }
        }
        proof {
            assert(marked@.subrange(0, len as int) =~= marked@);
            assert(indices@.len() >= 1) by {
                self.lemma_reaches_self(index@ as int);
                assert(marked@[index@ as int]);
                assert(indices@.contains(index@ as usize));
            }
        }
        if self.is_sequential(&indices) {
            proof {
                assert forall|t: int| 0 <= t < indices@.len() implies #[trigger] indices@[t]
                    == indices@[0] + t by {
                    lemma_consecutive_at(indices@, t);
                }
                assert(indices@[0] + indices@.len() <= len) by {
                    assert(indices@[indices@.len() - 1] == indices@[0] + indices@.len() - 1);
                    assert(indices@[indices@.len() - 1] < len);
                }
                assert forall|j: int|
                    0 <= j < marked@.len() implies (marked@[j] <==> indices@[0] <= j < indices@[0]
                    + indices@.len()) by {
                    if marked@[j] {
                        assert(indices@.contains(j as usize));
                        let t = choose|t: int|
                            0 <= t < indices@.len() && indices@[t] == j as usize;
                        assert(indices@[t] == indices@[0] + t);
                    }
                    if indices@[0] <= j < indices@[0] + indices@.len() {
                        let t = j - indices@[0];
                        assert(indices@[t] == indices@[0] + t);
                        assert(marked@[indices@[t] as int]);
                    }
                }
            }
            self.prune_sequential(indices, &marked)
        } else {
            self.prune_non_sequential(&marked)
        }
    }
}

} // verus!

verus! {

/// The entries of a visit order whose nodes are leaves, in order.
pub open spec fn leaf_filter<N: Node>(order: Seq<usize>, ns: Seq<N>) -> Seq<usize>
    decreases order.len(),
{
    if order.len() == 0 {
        Seq::empty()
    } else {
        let rest = leaf_filter(order.drop_last(), ns);
        let j = order.last();
        if j < ns.len() && ns[j as int].spec_children().len() == 0 {
            rest.push(j)
        } else {
            rest
        }
    }
}

/// An iterator over the node indices of a tree, in breadth-first order.
pub struct IterIdx {
    /// The breadth-first visit order.
    order: Vec<NodeIndex>,
    /// The next position to yield.
    pos: usize,
}

impl IterIdx {
    /// The visit order this iterator walks.
    pub closed spec fn spec_order(&self) -> Seq<usize> {
        idxs(self.order@)
    }

    /// The next position to yield.
    pub closed spec fn spec_pos(&self) -> nat {
        self.pos as nat
    }

    /// Package a visit order as an iterator.
    pub fn new(order: Vec<NodeIndex>) -> (r: Self)
        ensures
            r.spec_order() == idxs(order@),
            r.spec_pos() == 0,
    {
        IterIdx { order, pos: 0 }
    }

    /// Yield the next index of the order, if any.
    pub fn next(&mut self) -> (r: Option<NodeIndex>)
        ensures
            final(self).spec_order() == old(self).spec_order(),
            match r {
                Some(i) => old(self).spec_pos() < old(self).spec_order().len() && i@ == old(self).spec_order()[old(self).spec_pos() as int] && final(self).spec_pos() == old(self).spec_pos() + 1,
                None => old(self).spec_pos() >= old(self).spec_order().len() && final(self).spec_pos() == old(self).spec_pos(),
            },
    {
        if self.pos < self.order.len() {
            let i = self.order[self.pos];
            self.pos = self.pos + 1;
            Some(i)
        } else {
            None
        }
    }
}

/// An iterator over the nodes of a tree, in breadth-first order.
pub struct Iter<'a, N> {
    /// The tree being walked.
    tree: &'a Tree<N>,
    /// The breadth-first visit order.
    order: Vec<NodeIndex>,
    /// The next position to yield.
    pos: usize,
}

impl<'a, N: Node> Iter<'a, N> {
    /// The visit order this iterator walks.
    pub closed spec fn spec_order(&self) -> Seq<usize> {
        idxs(self.order@)
    }

    /// The next position to yield.
    pub closed spec fn spec_pos(&self) -> nat {
        self.pos as nat
    }

    /// The tree being walked.
    pub closed spec fn spec_tree(&self) -> Tree<N> {
        *self.tree
    }

    /// Package a visit order over a tree as an iterator.
    pub fn new(tree: &'a Tree<N>, order: Vec<NodeIndex>) -> (r: Self)
        requires
            forall|k: int| 0 <= k < order@.len() ==> #[trigger] order@[k]@ < tree.spec_len(),
        ensures
            r.spec_order() == idxs(order@),
            r.spec_pos() == 0,
            r.spec_tree() == *tree,
    {
        Iter { tree, order, pos: 0 }
    }

    /// Yield a reference to the next node of the order, if any.
    pub fn next(&mut self) -> (r: Option<&'a N>)
        requires
            forall|k: int|
                0 <= k < old(self).spec_order().len() ==> #[trigger] old(self).spec_order()[k] < old(self).spec_tree().spec_len(),
        ensures
            final(self).spec_order() == old(self).spec_order(),
            final(self).spec_tree() == old(self).spec_tree(),
            match r {
                Some(n) => old(self).spec_pos() < old(self).spec_order().len() && *n == old(self).spec_tree().nodes@[old(self).spec_order()[old(self).spec_pos() as int] as int]
                    && final(self).spec_pos() == old(self).spec_pos() + 1,
                None => old(self).spec_pos() >= old(self).spec_order().len() && final(self).spec_pos() == old(self).spec_pos(),
            },
    {
        if self.pos < self.order.len() {
            let i = self.order[self.pos];
            proof {
                assert(old(self).spec_order()[self.pos as int] < old(self).spec_tree().spec_len());
            }
            self.pos = self.pos + 1;
            Some(&self.tree.nodes[i.index()])
        } else {
            None
        }
    }
}

impl<N: Node> Tree<N> {
    /// The breadth-first visit order from the root; empty when there is no
    /// root.
    pub(crate) fn traversal_order(&self) -> (r: Vec<NodeIndex>)
        requires
            self.wf_links(),
        ensures
            match self.spec_root() {
                Some(rt) => idxs(r@) == bfs_order(self.kids(), rt),
                None => r@.len() == 0,
            },
            forall|k: int| 0 <= k < r@.len() ==> #[trigger] r@[k]@ < self.spec_len(),
            forall|j: int|
                0 <= j < self.spec_len() ==> (#[trigger] idxs(r@).contains(j as usize) <==> (
                self.spec_root() is Some && self.reaches(self.spec_root()->Some_0 as int, j))),
    {
        match self.root {
            Some(rt) => {
                let bfs = self.bfs_from(rt);
                proof {
                    assert forall|j: int| 0 <= j < self.spec_len() implies (#[trigger] idxs(
                        bfs.1@,
                    ).contains(j as usize) <==> self.reaches(rt@ as int, j)) by {
                        assert(idxs(bfs.1@).contains(j as usize) <==> bfs.0@[j]);
                    }
                }
                bfs.1
            },
            None => {
                let r = Vec::new();
                proof {
                    assert(idxs(r@) =~= Seq::<usize>::empty());
                }
                r
            },
        }
    }

    /// Breadth-first iterator over node references, starting at the root.
    pub fn iter(&self) -> (r: Iter<'_, N>)
        requires
            self.wf_links(),
        ensures
            r.spec_tree() == *self,
            r.spec_pos() == 0,
            match self.spec_root() {
                Some(rt) => r.spec_order() == bfs_order(self.kids(), rt),
                None => r.spec_order().len() == 0,
            },
            forall|k: int|
                0 <= k < r.spec_order().len() ==> #[trigger] r.spec_order()[k] < self.spec_len(),
    {
        let order = self.traversal_order();
        Iter::new(self, order)
    }

    /// Breadth-first iterator over node indices, starting at the root.
    pub fn iter_idx(&self) -> (r: IterIdx)
        requires
            self.wf_links(),
        ensures
            r.spec_pos() == 0,
            match self.spec_root() {
                Some(rt) => r.spec_order() == bfs_order(self.kids(), rt),
                None => r.spec_order().len() == 0,
            },
            forall|k: int|
                0 <= k < r.spec_order().len() ==> #[trigger] r.spec_order()[k] < self.spec_len(),
    {
        let order = self.traversal_order();
        IterIdx::new(order)
    }

    /// The indices of all leaves reachable from the root, in breadth-first
    /// order.
    pub fn leaf_indices(&self) -> (r: Vec<NodeIndex>)
        requires
            self.wf_links(),
        ensures
            match self.spec_root() {
                Some(rt) => idxs(r@) == leaf_filter(bfs_order(self.kids(), rt), self.nodes@),
                None => r@.len() == 0,
            },
            forall|k: int| 0 <= k < r@.len() ==> #[trigger] r@[k]@ < self.spec_len(),
    {
        let order = self.traversal_order();
        let mut r: Vec<NodeIndex> = Vec::new();
        let n = order.len();
        let ghost ov = idxs(order@);
        proof {
            assert(leaf_filter(ov.subrange(0, 0), self.nodes@) =~= Seq::<usize>::empty());
        }
        for k in 0..n
            invariant
                n == order@.len(),
                ov == idxs(order@),
                self.wf_links(),
                forall|kk: int| 0 <= kk < order@.len() ==> #[trigger] order@[kk]@ < self.spec_len(),
                idxs(r@) == leaf_filter(ov.subrange(0, k as int), self.nodes@),
                forall|kk: int| 0 <= kk < r@.len() ==> #[trigger] r@[kk]@ < self.spec_len(),
        {
            proof {
                assert(ov.subrange(0, k + 1).drop_last() =~= ov.subrange(0, k as int));
                assert(ov.subrange(0, k + 1).last() == ov[k as int]);
                assert(ov[k as int] == order@[k as int]@);
            }
            let i = order[k];
            let ghost r0 = idxs(r@);
            if self.nodes[i.index()].is_leaf() {
                r.push(i);
                proof {
                    assert(idxs(r@) =~= r0.push(i@));
                }
            }
        }
        proof {
            assert(ov.subrange(0, n as int) =~= ov);
            if self.spec_root() is None {
                assert(r@.len() == 0);
            }
        }
        r
    }

    /// References to all leaves reachable from the root, in breadth-first
    /// order.
    pub fn leaves(&self) -> (r: Vec<&N>)
        requires
            self.wf_links(),
        ensures
            ({
                let li = match self.spec_root() {
                    Some(rt) => leaf_filter(bfs_order(self.kids(), rt), self.nodes@),
                    None => Seq::<usize>::empty(),
                };
                &&& r@.len() == li.len()
                &&& forall|k: int| #![auto] 0 <= k < li.len() ==> *r@[k] == self.nodes@[li[k] as int]
            }),
    {
        let li = self.leaf_indices();
        let mut r: Vec<&N> = Vec::new();
        let n = li.len();
        for k in 0..n
            invariant
                n == li@.len(),
                self.wf_links(),
                forall|kk: int| 0 <= kk < li@.len() ==> #[trigger] li@[kk]@ < self.spec_len(),
                r@.len() == k,
                forall|kk: int| #![auto] 0 <= kk < k ==> *r@[kk] == self.nodes@[li@[kk]@ as int],
        {
            r.push(&self.nodes[li[k].index()]);
        }
        r
    }
}

} // verus!

verus! {

/// A borrowed, read-only view of the subtree below one node: a set of
/// indices together with the arena they point into.
pub struct TreeView<'s, N> {
    /// The index of the view's root.
    pub(crate) root: NodeIndex,
    /// The indices of the view's nodes, in breadth-first order from the root.
    pub(crate) indices: Vec<NodeIndex>,
    /// The arena the view borrows from.
    pub(crate) tree: &'s Tree<N>,
}

impl<'s, N: Node> TreeView<'s, N> {
    /// The indices this view holds.
    pub closed spec fn spec_indices(&self) -> Seq<usize> {
        idxs(self.indices@)
    }

    /// The view's root index.
    pub closed spec fn spec_root(&self) -> usize {
        self.root@
    }

    /// The arena the view borrows from.
    pub closed spec fn spec_tree(&self) -> Tree<N> {
        *self.tree
    }

    /// The view points at in-bounds, distinct nodes and starts at its root.
    pub closed spec fn wf(&self) -> bool {
        &&& forall|k: int|
            0 <= k < self.spec_indices().len() ==> #[trigger] self.spec_indices()[k]
                < self.spec_tree().spec_len()
        &&& self.spec_indices().no_duplicates()
        &&& self.spec_indices().len() >= 1
        &&& self.spec_indices()[0] == self.spec_root()
    }

    /// Package a breadth-first visit order as a view.
    pub(crate) fn new(root: NodeIndex, indices: Vec<NodeIndex>, tree: &'s Tree<N>) -> (r: Self)
        requires
            forall|k: int| 0 <= k < indices@.len() ==> #[trigger] indices@[k]@ < tree.spec_len(),
            idxs(indices@).no_duplicates(),
            indices@.len() >= 1,
            indices@[0]@ == root@,
        ensures
            r.wf(),
            r.spec_root() == root@,
            r.spec_indices() == idxs(indices@),
            r.spec_tree() == *tree,
    {
        TreeView { root, indices, tree }
    }

    /// A reference to the view's root node.
    pub fn root(&self) -> (r: &'s N)
        requires
            self.wf(),
        ensures
            *r == self.spec_tree().nodes@[self.spec_root() as int],
    {
        proof {
            assert(self.spec_indices()[0] < self.spec_tree().spec_len());
        }
        &self.tree.nodes[self.root.index()]
    }

    /// The number of nodes in the view.
    pub fn len(&self) -> (r: usize)
        ensures
            r == self.spec_indices().len(),
    {
        self.indices.len()
    }

    /// Whether the view holds no nodes.
    pub fn is_empty(&self) -> (r: bool)
        ensures
            r <==> self.spec_indices().len() == 0,
    {
        self.indices.len() == 0
    }

    /// A reference to the node at `index`, if the view contains it.
    pub fn get(&self, index: &NodeIndex) -> (r: Option<&'s N>)
        requires
            self.wf(),
        ensures
            match r {
                Some(n) => self.spec_indices().contains(index@) && *n
                    == self.spec_tree().nodes@[index@ as int],
                None => !self.spec_indices().contains(index@),
            },
    {
        let n = self.indices.len();
        for k in 0..n
            invariant
                n == self.indices@.len(),
                self.wf(),
                forall|kk: int| 0 <= kk < k ==> #[trigger] self.spec_indices()[kk] != index@,
        {
            if self.indices[k].index() == index.index() {
                proof {
                    assert(self.spec_indices()[k as int] == index@);
                    assert(self.spec_indices().contains(index@));
                }
                return Some(&self.tree.nodes[index.index()]);
            }
        }
        proof {
            assert(forall|kk: int|
                0 <= kk < self.spec_indices().len() ==> #[trigger] self.spec_indices()[kk]
                    != index@);
        }
        None
    }

    /// Iterator over the view's node references, in breadth-first order.
    pub fn iter(self) -> (r: Iter<'s, N>)
        requires
            self.wf(),
        ensures
            r.spec_tree() == self.spec_tree(),
            r.spec_order() == self.spec_indices(),
            r.spec_pos() == 0,
    {
        proof {
            assert forall|k: int| 0 <= k < self.indices@.len() implies #[trigger] self.indices@[k]@
                < self.tree.spec_len() by {
                assert(self.spec_indices()[k] == self.indices@[k]@);
            }
        }
        Iter::new(self.tree, self.indices)
    }

    /// Iterator over the view's node indices, in breadth-first order.
    pub fn iter_idx(self) -> (r: IterIdx)
        ensures
            r.spec_order() == self.spec_indices(),
            r.spec_pos() == 0,
    {
        IterIdx::new(self.indices)
    }
}

impl<N: Node> Tree<N> {
    /// A view of the whole tree, rooted at the arena root.
    pub fn view(&self) -> (r: TreeView<'_, N>)
        requires
            self.wf_links(),
            self.spec_root() is Some,
        ensures
            r.wf(),
            r.spec_tree() == *self,
            r.spec_root() == self.spec_root()->Some_0,
            forall|j: int|
                0 <= j < self.spec_len() ==> (#[trigger] r.spec_indices().contains(j as usize) <==>
                self.reaches(self.spec_root()->Some_0 as int, j)),
    {
        let rt = match self.root {
            Some(rt) => rt,
            None => NodeIndex::new(0),
        };
        let bfs = self.bfs_from(rt);
        proof {
            assert forall|j: int| 0 <= j < self.spec_len() implies (#[trigger] idxs(
                bfs.1@,
            ).contains(j as usize) <==> self.reaches(rt@ as int, j)) by {
                assert(idxs(bfs.1@).contains(j as usize) <==> bfs.0@[j]);
            }
        }
        TreeView::new(rt, bfs.1, self)
    }

    /// A view of the subtree below `root`, or `None` if `root` is out of
    /// bounds.
    pub fn subtree_view(&self, root: NodeIndex) -> (r: Option<TreeView<'_, N>>)
        requires
            self.wf_links(),
        ensures
            match r {
                Some(v) => root@ < self.spec_len() && v.wf() && v.spec_tree() == *self
                    && v.spec_root() == root@ && (forall|j: int|
                    0 <= j < self.spec_len() ==> (#[trigger] v.spec_indices().contains(j as usize)
                        <==> self.reaches(root@ as int, j))),
                None => root@ >= self.spec_len(),
            },
    {
        if root.index() >= self.nodes.len() {
            return None;
        }
        let bfs = self.bfs_from(root);
        proof {
            assert forall|j: int| 0 <= j < self.spec_len() implies (#[trigger] idxs(
                bfs.1@,
            ).contains(j as usize) <==> self.reaches(root@ as int, j)) by {
                assert(idxs(bfs.1@).contains(j as usize) <==> bfs.0@[j]);
            }
        }
        Some(TreeView::new(root, bfs.1, self))
    }
}

} // verus!

verus! {

impl<N: Node> Tree<N> {
    /// The first node in breadth-first order satisfying the predicate, as an
    /// arena index.
    #[verifier::loop_isolation(false)]
    pub fn find_by<F: Fn(&N) -> bool>(&self, predicate: F) -> (r: Option<NodeIndex>)
        requires
            self.wf_links(),
            forall|n: N| #[trigger] call_requires(predicate, (&n,)),
        ensures
            match r {
                Some(i) => i@ < self.spec_len() && self.spec_root() is Some && self.reaches(
                    self.spec_root()->Some_0 as int,
                    i@ as int,
                ) && call_ensures(predicate, (&self.nodes@[i@ as int],), true) && exists|t: int|
                    {
                        &&& 0 <= t < bfs_order(self.kids(), self.spec_root()->Some_0).len()
                        &&& #[trigger] bfs_order(self.kids(), self.spec_root()->Some_0)[t] == i@
                        &&& forall|u: int|
                            0 <= u < t ==> #[trigger] call_ensures(
                                predicate,
                                (&self.nodes@[bfs_order(
                                    self.kids(),
                                    self.spec_root()->Some_0,
                                )[u] as int],),
                                false,
                            )
                    },
                None => forall|j: int|
                    0 <= j < self.spec_len() && self.spec_root() is Some && self.reaches(
                        self.spec_root()->Some_0 as int,
                        j,
                    ) ==> #[trigger] call_ensures(predicate, (&self.nodes@[j],), false),
            },
    {
        let order = self.traversal_order();
        let total = self.nodes.len();
        let n = order.len();
        for k in 0..n
            invariant
                n == order@.len(),
                self.wf_links(),
                total == self.spec_len(),
                forall|kk: int| 0 <= kk < order@.len() ==> #[trigger] order@[kk]@ < self.spec_len(),
                forall|j: int|
                    0 <= j < self.spec_len() ==> (#[trigger] idxs(order@).contains(j as usize) <==>
                    (self.spec_root() is Some && self.reaches(self.spec_root()->Some_0 as int, j))),
                forall|kk: int|
                    0 <= kk < k ==> #[trigger] call_ensures(
                        predicate,
                        (&self.nodes@[order@[kk]@ as int],),
                        false,
                    ),
        {
            let i = order[k];
            let n_ref = &self.nodes[i.index()];
            proof {
                assert(call_requires(predicate, (n_ref,)));
            }
            if predicate(n_ref) {
                proof {
                    assert(idxs(order@)[k as int] == i@);
                    assert(idxs(order@).contains(i@));
                    assert(i@ < self.spec_len());
                    assert(idxs(order@).contains(((i@ as int) as usize)));
                    assert(self.reaches(self.spec_root()->Some_0 as int, i@ as int));
                    assert(self.spec_root() is Some);
                    let bfs = bfs_order(self.kids(), self.spec_root()->Some_0);
                    assert(idxs(order@) == bfs);
                    assert forall|u: int| 0 <= u < k implies #[trigger] call_ensures(
                        predicate,
                        (&self.nodes@[bfs[u] as int],),
                        false,
                    ) by {
                        assert(bfs[u] == order@[u]@);
                        assert(call_ensures(predicate, (&self.nodes@[order@[u]@ as int],), false));
                    }
                    assert(exists|t: int|
                        {
                            &&& 0 <= t < bfs_order(self.kids(), self.spec_root()->Some_0).len()
                            &&& #[trigger] bfs_order(self.kids(), self.spec_root()->Some_0)[t]
                                == i@
                            &&& forall|u: int|
                                0 <= u < t ==> #[trigger] call_ensures(
                                    predicate,
                                    (&self.nodes@[bfs_order(
                                        self.kids(),
                                        self.spec_root()->Some_0,
                                    )[u] as int],),
                                    false,
                                )
                        }) by {
                        assert(bfs_order(self.kids(), self.spec_root()->Some_0)[k as int] == i@);
                        assert(0 <= k < bfs_order(self.kids(), self.spec_root()->Some_0).len() && (
                        forall|u: int|
                            0 <= u < k ==> #[trigger] call_ensures(
                                predicate,
                                (&self.nodes@[bfs_order(
                                    self.kids(),
                                    self.spec_root()->Some_0,
                                )[u] as int],),
                                false,
                            )));
                    }
                }
                return Some(i);
            }
        }
        proof {
            assert forall|j: int|
                0 <= j < self.spec_len() && self.spec_root() is Some && self.reaches(
                    self.spec_root()->Some_0 as int,
                    j,
                ) implies #[trigger] call_ensures(predicate, (&self.nodes@[j],), false) by {
                assert(idxs(order@).contains(j as usize));
                let kk = choose|kk: int|
                    0 <= kk < idxs(order@).len() && idxs(order@)[kk] == j as usize;
                assert(idxs(order@)[kk] == order@[kk]@);
                assert(order@[kk]@ == j as usize);
                assert(order@[kk]@ as int == j);
                assert(call_ensures(predicate, (&self.nodes@[order@[kk]@ as int],), false));
            }
        }
        None
    }

    /// The arena indices of every node, in breadth-first order, satisfying
    /// the predicate.
    #[verifier::loop_isolation(false)]
    pub fn find_all<F: Fn(&N) -> bool>(&self, predicate: F) -> (r: Vec<NodeIndex>)
        requires
            self.wf_links(),
            forall|n: N| #[trigger] call_requires(predicate, (&n,)),
        ensures
            forall|k: int|
                0 <= k < r@.len() ==> #[trigger] r@[k]@ < self.spec_len() && (self.spec_root()
                    is Some && self.reaches(self.spec_root()->Some_0 as int, r@[k]@ as int))
                    && call_ensures(predicate, (&self.nodes@[r@[k]@ as int],), true),
            forall|j: int|
                0 <= j < self.spec_len() && self.spec_root() is Some && self.reaches(
                    self.spec_root()->Some_0 as int,
                    j,
                ) && !idxs(r@).contains(j as usize) ==> #[trigger] call_ensures(
                    predicate,
                    (&self.nodes@[j],),
                    false,
                ),
            self.spec_root() is Some ==> exists|ps: Seq<int>|
                {
                    &&& #[trigger] ps.len() == r@.len()
                    &&& forall|k: int|
                        0 <= k < ps.len() ==> 0 <= #[trigger] ps[k] < bfs_order(
                            self.kids(),
                            self.spec_root()->Some_0,
                        ).len() && bfs_order(self.kids(), self.spec_root()->Some_0)[ps[k]]
                            == r@[k]@
                    &&& forall|k: int| 1 <= k < ps.len() ==> ps[k - 1] < #[trigger] ps[k]
                },
            self.spec_root() is None ==> r@.len() == 0,
    {
        let order = self.traversal_order();
        let total = self.nodes.len();
        let n = order.len();
        let mut r: Vec<NodeIndex> = Vec::new();
        let ghost mut ps: Seq<int> = Seq::empty();
        for k in 0..n
            invariant
                n == order@.len(),
                total == self.spec_len(),
                self.spec_root() is None ==> r@.len() == 0,
                self.wf_links(),
                forall|kk: int| 0 <= kk < order@.len() ==> #[trigger] order@[kk]@ < self.spec_len(),
                forall|j: int|
                    0 <= j < self.spec_len() ==> (#[trigger] idxs(order@).contains(j as usize) <==>
                    (self.spec_root() is Some && self.reaches(self.spec_root()->Some_0 as int, j))),
                forall|kk: int|
                    0 <= kk < r@.len() ==> #[trigger] r@[kk]@ < self.spec_len() && idxs(
                        order@,
                    ).contains(r@[kk]@) && call_ensures(
                        predicate,
                        (&self.nodes@[r@[kk]@ as int],),
                        true,
                    ),
                forall|u: int|
                    0 <= u < k && !idxs(r@).contains(#[trigger] order@[u]@) ==> call_ensures(
                        predicate,
                        (&self.nodes@[order@[u]@ as int],),
                        false,
                    ),
                ps.len() == r@.len(),
                forall|kk: int|
                    0 <= kk < ps.len() ==> 0 <= #[trigger] ps[kk] < k && order@[ps[kk]]@ == r@[kk]@,
                forall|kk: int| 1 <= kk < ps.len() ==> ps[kk - 1] < #[trigger] ps[kk],
        {
            let i = order[k];
            let n_ref = &self.nodes[i.index()];
            proof {
                assert(call_requires(predicate, (n_ref,)));
            }
            let ghost r0 = idxs(r@);
            if predicate(n_ref) {
                r.push(i);
                proof {
                    ps = ps.push(k as int);
                    assert(idxs(r@) =~= r0.push(i@));
                    assert(idxs(r@)[r@.len() - 1] == i@);
                    assert(idxs(order@)[k as int] == i@);
                    assert(idxs(order@).contains(i@));
                    assert forall|u: int|
                        0 <= u < k + 1 && !idxs(r@).contains(#[trigger] order@[u]@) implies call_ensures(
                        predicate,
                        (&self.nodes@[order@[u]@ as int],),
                        false,
                    ) by {
                        if u < k {
                            if r0.contains(order@[u]@) {
                                vstd::seq_lib::lemma_seq_contains_after_push(r0, i@, order@[u]@);
                            }
                        } else {
                            assert(idxs(r@).contains(order@[u]@));
                        }
                    }
                }
            } else {
                proof {
                    assert(call_ensures(predicate, (&self.nodes@[order@[k as int]@ as int],), false));
                }
            }
        }
        proof {
            if self.spec_root() is Some {
                assert forall|kk: int|
                    0 <= kk < ps.len() implies 0 <= #[trigger] ps[kk] < bfs_order(
                    self.kids(),
                    self.spec_root()->Some_0,
                ).len() && bfs_order(self.kids(), self.spec_root()->Some_0)[ps[kk]] == r@[kk]@ by {
                    assert(order@[ps[kk]]@ == idxs(order@)[ps[kk]]);
                }
            }
            assert forall|j: int|
                0 <= j < self.spec_len() && self.spec_root() is Some && self.reaches(
                    self.spec_root()->Some_0 as int,
                    j,
                ) && !idxs(r@).contains(j as usize) implies #[trigger] call_ensures(
                predicate,
                (&self.nodes@[j],),
                false,
            ) by {
                assert(idxs(order@).contains(j as usize));
                let u = choose|u: int|
                    0 <= u < idxs(order@).len() && idxs(order@)[u] == j as usize;
                assert(order@[u]@ == idxs(order@)[u]);
                assert(!idxs(r@).contains(order@[u]@));
                assert(call_ensures(predicate, (&self.nodes@[order@[u]@ as int],), false));
                assert(order@[u]@ as int == j);
            }
            assert forall|kk: int|
                0 <= kk < r@.len() implies #[trigger] r@[kk]@ < self.spec_len() && (
            self.spec_root() is Some && self.reaches(self.spec_root()->Some_0 as int, r@[kk]@ as int))
                && call_ensures(predicate, (&self.nodes@[r@[kk]@ as int],), true) by {
                assert(idxs(order@).contains(r@[kk]@));
                assert(idxs(order@).contains(((r@[kk]@ as int) as usize)));
            }
        }
        r
    }
}

impl<N: Node + PartialEq> Tree<N> {
    /// Locate a node by its claimed parent-child relation: if the node names
    /// a parent, look for a matching child of that parent; otherwise compare
    /// it against the root.
    ///
    /// The contract speaks under `obeys_eq_spec`, that is, for node types
    /// whose `==` is known to Verus to decide the stated equality.
    #[verifier::loop_isolation(false)]
    pub fn find(&self, node: &N) -> (r: Option<NodeIndex>)
        requires
            self.wf_links(),
        ensures
            N::obeys_eq_spec() ==> match r {
                Some(i) => i@ < self.spec_len() && self.nodes@[i@ as int].eq_spec(node) && (
                match node.spec_parent() {
                    Some(p) => p < self.spec_len() && self.nodes@[p as int].spec_children().contains(
                        i@,
                    ),
                    None => self.spec_root() == Some(i@),
                }),
                None => match node.spec_parent() {
                    Some(p) => p >= self.spec_len() || forall|k: int|
                        0 <= k < self.nodes@[p as int].spec_children().len()
                            ==> !self.nodes@[#[trigger] self.nodes@[p as int].spec_children()[k] as int].eq_spec(
                            node,
                        ),
                    None => self.spec_root() is None || !self.nodes@[self.spec_root()->Some_0 as int].eq_spec(
                        node,
                    ),
                },
            },
    {
        match node.parent() {
            Some(parent_idx) => {
                if parent_idx.index() >= self.nodes.len() {
                    return None;
                }
                let ghost p = parent_idx@ as int;
                let cs = self.nodes[parent_idx.index()].children();
                let ghost csv = self.nodes@[p].spec_children();
                let n = cs.len();
                for k in 0..n
                    invariant
                        n == cs@.len(),
                        csv == cs@.map_values(|y: NodeIndex| y@),
                        csv == self.nodes@[p].spec_children(),
                        0 <= p < self.spec_len(),
                        self.wf_links(),
                        N::obeys_eq_spec() ==> forall|kk: int|
                            0 <= kk < k ==> !self.nodes@[#[trigger] csv[kk] as int].eq_spec(node),
                {
                    let ci = cs[k].index();
                    proof {
                        assert(csv[k as int] == cs@[k as int]@);
                        assert(csv[k as int] < self.spec_len());
                    }
                    let e = self.nodes[ci] == *node;
                    if e {
                        proof {
                            assert(csv.contains(cs@[k as int]@));
                            if N::obeys_eq_spec() {
                                assert(self.nodes@[ci as int].eq_spec(node));
                            }
                        }
                        return Some(cs[k]);
                    }
                }
                None
            },
            None => {
                match self.root {
                    Some(rt) => {
                        if self.nodes[rt.index()] == *node {
                            Some(rt)
                        } else {
                            None
                        }
                    },
                    None => None,
                }
            },
        }
    }

    /// A view of the subtree below the first node, in breadth-first order,
    /// that equals `target`.
    #[verifier::loop_isolation(false)]
    pub fn subtree_from_node(&self, target: &N) -> (r: Option<TreeView<'_, N>>)
        requires
            self.wf_links(),
        ensures
            match r {
                Some(v) => v.wf() && v.spec_tree() == *self && v.spec_root() < self.spec_len()
                    && self.spec_root() is Some && self.reaches(
                    self.spec_root()->Some_0 as int,
                    v.spec_root() as int,
                ) && (N::obeys_eq_spec() ==> self.nodes@[v.spec_root() as int].eq_spec(target)
                    && exists|t: int|
                    {
                        &&& 0 <= t < bfs_order(self.kids(), self.spec_root()->Some_0).len()
                        &&& #[trigger] bfs_order(self.kids(), self.spec_root()->Some_0)[t]
                            == v.spec_root()
                        &&& forall|u: int|
                            0 <= u < t ==> !self.nodes@[#[trigger] bfs_order(
                                self.kids(),
                                self.spec_root()->Some_0,
                            )[u] as int].eq_spec(target)
                    }) && (forall|j: int|
                    0 <= j < self.spec_len() ==> (#[trigger] v.spec_indices().contains(j as usize)
                        <==> self.reaches(v.spec_root() as int, j))),
                None => N::obeys_eq_spec() ==> forall|j: int|
                    0 <= j < self.spec_len() && self.spec_root() is Some && self.reaches(
                        self.spec_root()->Some_0 as int,
                        j,
                    ) ==> !(#[trigger] self.nodes@[j]).eq_spec(target),
            },
    {
        let order = self.traversal_order();
        let total = self.nodes.len();
        let n = order.len();
        for k in 0..n
            invariant
                n == order@.len(),
                total == self.spec_len(),
                self.wf_links(),
                forall|kk: int| 0 <= kk < order@.len() ==> #[trigger] order@[kk]@ < self.spec_len(),
                forall|j: int|
                    0 <= j < self.spec_len() ==> (#[trigger] idxs(order@).contains(j as usize) <==>
                    (self.spec_root() is Some && self.reaches(self.spec_root()->Some_0 as int, j))),
                N::obeys_eq_spec() ==> forall|u: int|
                    0 <= u < k ==> !self.nodes@[#[trigger] order@[u]@ as int].eq_spec(target),
        {
            let i = order[k];
            let e = self.nodes[i.index()] == *target;
            if e {
                proof {
                    assert(idxs(order@)[k as int] == i@);
                    assert(idxs(order@).contains(i@));
                    assert(idxs(order@).contains(((i@ as int) as usize)));
                    assert(self.reaches(self.spec_root()->Some_0 as int, i@ as int));
                    if N::obeys_eq_spec() {
                        assert(self.nodes@[i@ as int].eq_spec(target));
                        assert(exists|t: int|
                            {
                                &&& 0 <= t < bfs_order(self.kids(), self.spec_root()->Some_0).len()
                                &&& #[trigger] bfs_order(self.kids(), self.spec_root()->Some_0)[t]
                                    == i@
                                &&& forall|u: int|
                                    0 <= u < t ==> !self.nodes@[#[trigger] bfs_order(
                                        self.kids(),
                                        self.spec_root()->Some_0,
                                    )[u] as int].eq_spec(target)
                            }) by {
                            assert(bfs_order(self.kids(), self.spec_root()->Some_0)[k as int]
                                == i@);
                            assert(forall|u: int|
                                0 <= u < k ==> !self.nodes@[#[trigger] bfs_order(
                                    self.kids(),
                                    self.spec_root()->Some_0,
                                )[u] as int].eq_spec(target));
                        }
                    }
                }
                return self.subtree_view(i);
            }
        }
        proof {
            if N::obeys_eq_spec() {
                assert forall|j: int|
                    0 <= j < self.spec_len() && self.spec_root() is Some && self.reaches(
                        self.spec_root()->Some_0 as int,
                        j,
                    ) implies !(#[trigger] self.nodes@[j]).eq_spec(target) by {
                    assert(idxs(order@).contains(j as usize));
                    let u = choose|u: int|
                        0 <= u < idxs(order@).len() && idxs(order@)[u] == j as usize;
                    assert(order@[u]@ == idxs(order@)[u]);
                    assert(!self.nodes@[order@[u]@ as int].eq_spec(target));
                    assert(order@[u]@ as int == j);
                }
            }
        }
        None
    }
}

} // verus!

verus! {

impl<N: Node> Tree<N> {
    /// Returns a mutable reference to the root node.
    ///
    /// The tree must have an in-bounds root.
    pub fn root_mut(&mut self) -> (r: &mut N)
        requires
            old(self).spec_root() is Some,
            old(self).spec_root()->Some_0 < old(self).spec_len(),
        ensures
            *r == old(self).nodes@[old(self).spec_root()->Some_0 as int],
            final(self).root == old(self).root,
            final(self).nodes@ == old(self).nodes@.update(
                old(self).spec_root()->Some_0 as int,
                *final(r),
            ),
    {
        let idx = match self.root {
            Some(i) => i,
            None => NodeIndex::new(0),
        };
        &mut self.nodes[idx.index()]
    }

    /// Attempts to return a mutable reference to the root node.
    pub fn try_root_mut(&mut self) -> (r: Result<&mut N, TreeError>)
        requires
            old(self).spec_root() is Some ==> old(self).spec_root()->Some_0 < old(self).spec_len(),
        ensures
            match r {
                Ok(n) => old(self).spec_root() is Some && *n == old(self).nodes@[old(self).spec_root()->Some_0 as int] && final(self).root == old(self).root && final(self).nodes@ == old(self).nodes@.update(
                    old(self).spec_root()->Some_0 as int,
                    *final(n),
                ),
                Err(e) => old(self).spec_root() is None && e == TreeError::MissingRoot && *final(self) == *old(self),
            },
    {
        match self.root {
            Some(i) => Ok(&mut self.nodes[i.index()]),
            None => Err(TreeError::MissingRoot),
        }
    }
}

} // verus!

verus! {

/// Renumbering keeps a child list free of duplicates.
pub proof fn lemma_surviving_no_duplicates(cs: Seq<usize>, marked: Seq<bool>)
    requires
        cs.no_duplicates(),
        marked.len() <= usize::MAX,
        forall|k: int| 0 <= k < cs.len() ==> #[trigger] cs[k] < marked.len(),
    ensures
        surviving(cs, marked).no_duplicates(),
    decreases cs.len(),
{
    if cs.len() > 0 {
        let pre = cs.drop_last();
        assert(pre.no_duplicates());
        lemma_surviving_no_duplicates(pre, marked);
        let c = cs.last();
        if c < marked.len() && !marked[c as int] {
            let v = rank(marked, c as int) as usize;
            assert(!surviving(pre, marked).contains(v)) by {
                lemma_surviving_contains(pre, marked, v);
                if surviving(pre, marked).contains(v) {
                    let k = choose|k: int|
                        0 <= k < pre.len() && pre[k] < marked.len() && !marked[pre[k] as int] && v
                            == rank(marked, pre[k] as int) as usize;
                    lemma_rank_bound(marked, c as int);
                    lemma_rank_bound(marked, pre[k] as int);
                    lemma_count_trues_le(marked);
                    assert((rank(marked, c as int) as usize) as int == rank(marked, c as int));
                    assert((rank(marked, pre[k] as int) as usize) as int == rank(
                        marked,
                        pre[k] as int,
                    ));
                    if pre[k] != c {
                        lemma_rank_injective(marked, pre[k] as int, c as int);
                        assert(rank(marked, pre[k] as int) != rank(marked, c as int));
                        assert(false);
                    } else {
                        assert(pre[k] == cs[k]);
                        assert(cs[k] == cs[cs.len() - 1]);
                        assert(k < cs.len() - 1);
                        assert(false);
                    }
                }
            }
            let out = surviving(pre, marked).push(v);
            assert forall|a: int, b: int| 0 <= a < b < out.len() implies out[a] != out[b] by {
                if b < out.len() - 1 {
                    assert(out[a] == surviving(pre, marked)[a] && out[b] == surviving(
                        pre,
                        marked,
                    )[b]);
                } else {
                    assert(out[a] == surviving(pre, marked)[a]);
                    assert(surviving(pre, marked).contains(surviving(pre, marked)[a]));
                }
            }
        }
    }
}

impl<N: MutNode> Tree<N> {
    /// What pruning leaves behind is again an arena with in-bounds,
    /// duplicate-free links: the renumbered children and parents all point
    /// at surviving slots.
    pub proof fn lemma_pruned_wf_links(pre: Tree<N>, post: Tree<N>, marked: Seq<bool>)
        requires
            pre.wf_links(),
            pre.nodes@.len() <= usize::MAX,
            Tree::pruned_arena(pre, post, marked),
        ensures
            post.wf_links(),
    {
        let len = pre.nodes@.len() as int;
        let newlen = post.nodes@.len() as int;
        lemma_count_trues_le(marked);
        assert forall|i: int, k: int|
            #![auto]
            0 <= i < newlen && 0 <= k < post.nodes@[i].spec_children().len() implies post.nodes@[i].spec_children()[k]
            < newlen by {
            let j = lemma_rank_preimage(marked, i);
            assert(relinked_for(pre.nodes@[j], post.nodes@[i], marked));
            let cs = pre.nodes@[j].spec_children();
            let sv = surviving(cs, marked);
            assert(sv.contains(sv[k]));
            lemma_surviving_contains(cs, marked, sv[k]);
            let kk = choose|kk: int|
                0 <= kk < cs.len() && cs[kk] < marked.len() && !marked[cs[kk] as int] && sv[k]
                    == rank(marked, cs[kk] as int) as usize;
            lemma_rank_bound(marked, cs[kk] as int);
        }
        assert forall|i: int|
            #![auto]
            0 <= i < newlen && post.nodes@[i].spec_parent() is Some implies post.nodes@[i].spec_parent()->Some_0
            < newlen by {
            let j = lemma_rank_preimage(marked, i);
            assert(relinked_for(pre.nodes@[j], post.nodes@[i], marked));
            let p = pre.nodes@[j].spec_parent();
            assert(p is Some && p->Some_0 < marked.len() && !marked[p->Some_0 as int]);
            lemma_rank_bound(marked, p->Some_0 as int);
        }
        assert forall|i: int|
            #![auto]
            0 <= i < newlen implies post.nodes@[i].spec_children().no_duplicates() by {
            let j = lemma_rank_preimage(marked, i);
            assert(relinked_for(pre.nodes@[j], post.nodes@[i], marked));
            assert forall|k: int|
                0 <= k < pre.nodes@[j].spec_children().len() implies #[trigger] pre.nodes@[j].spec_children()[k]
                < marked.len() by {
                assert(pre.nodes@[j].spec_children()[k] < pre.nodes@.len());
            }
            lemma_surviving_no_duplicates(pre.nodes@[j].spec_children(), marked);
        }
        if post.spec_root() is Some {
            let q = pre.spec_root()->Some_0;
            lemma_rank_bound(marked, q as int);
        }
    }
}

/// Every surviving slot is the renumbering of some unmarked old slot.
pub proof fn lemma_rank_preimage(marked: Seq<bool>, v: int) -> (j: int)
    requires
        0 <= v < marked.len() - count_trues(marked),
    ensures
        0 <= j < marked.len(),
        !marked[j],
        rank(marked, j) == v,
    decreases marked.len(),
{
    lemma_rank_full(marked);
    if marked.len() == 0 {
        0
    } else {
        let m0 = marked.drop_last();
        lemma_rank_full(m0);
        lemma_rank_prefix(marked, m0, marked.len() - 1);
        if !marked.last() && v == m0.len() - count_trues(m0) {
            marked.len() - 1
        } else {
            lemma_count_trues_le(m0);
            let j = lemma_rank_preimage(m0, v);
            lemma_rank_prefix(marked, m0, j);
            j
        }
    }
}

} // verus!

verus! {

impl<N: Node> Tree<N> {
    /// No chain of child edges returns to its starting node.
    pub open spec fn acyclic(&self) -> bool {
        forall|p: Seq<int>|
            #[trigger] self.is_child_path(p) && p.len() >= 2 ==> p.first() != p.last()
    }
}

/// The unmarked slot a surviving position came from.
pub open spec fn unrank(marked: Seq<bool>, v: int) -> int {
    choose|j: int| 0 <= j < marked.len() && !marked[j] && rank(marked, j) == v
}

impl<N: MutNode> Tree<N> {
    /// Pruning keeps the arena acyclic: a cycle among the renumbered nodes
    /// would renumber back to a cycle among the original nodes.
    pub proof fn lemma_pruned_acyclic(pre: Tree<N>, post: Tree<N>, marked: Seq<bool>)
        requires
            pre.wf_links(),
            pre.nodes@.len() <= usize::MAX,
            pre.acyclic(),
            Tree::pruned_arena(pre, post, marked),
        ensures
            post.acyclic(),
    {
        let newlen = post.nodes@.len() as int;
        lemma_count_trues_le(marked);
        assert forall|q: Seq<int>| #[trigger] post.is_child_path(q) && q.len() >= 2 implies q.first()
            != q.last() by {
            let lp = Seq::new(q.len(), |k: int| unrank(marked, q[k]));
            assert forall|k: int| 0 <= k < q.len() implies {
                &&& 0 <= #[trigger] lp[k] < pre.nodes@.len()
                &&& !marked[lp[k]]
                &&& rank(marked, lp[k]) == q[k]
            } by {
                assert(0 <= q[k] < newlen);
                let w = lemma_rank_preimage(marked, q[k]);
                assert(exists|j: int|
                    0 <= j < marked.len() && !marked[j] && rank(marked, j) == q[k]);
            }
            assert forall|k: int| 0 <= k < q.len() - 1 implies #[trigger] pre.child_edge(
                lp[k],
                lp[k + 1],
            ) by {
                assert(post.child_edge(q[k], q[k + 1]));
                let j = lp[k];
                assert(rank(marked, j) == q[k]);
                assert(relinked_for(pre.nodes@[j], post.nodes@[rank(marked, j)], marked));
                let cs = pre.nodes@[j].spec_children();
                let sv = surviving(cs, marked);
                assert(sv.contains(q[k + 1] as usize));
                lemma_surviving_contains(cs, marked, q[k + 1] as usize);
                let kk = choose|kk: int|
                    0 <= kk < cs.len() && cs[kk] < marked.len() && !marked[cs[kk] as int] && (q[k
                        + 1] as usize) == rank(marked, cs[kk] as int) as usize;
                let c = cs[kk] as int;
                lemma_rank_bound(marked, c);
                assert(rank(marked, c) == q[k + 1]);
                // the lifted target is exactly that child
                assert(lp[k + 1] == c) by {
                    if lp[k + 1] != c {
                        lemma_rank_injective(marked, lp[k + 1], c);
                    }
                }
                assert(cs.contains(cs[kk]));
                assert(pre.child_edge(j, c));
            }
            assert(pre.is_child_path(lp));
            assert(lp.first() != lp.last());
            if q.first() == q.last() {
                assert(lp[0] == lp[q.len() - 1]);
            }
        }
    }
}

} // verus!
