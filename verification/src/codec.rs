use crate::hasher::HashAlg;
use crate::merkle_proof::{
    models, proof_arena_wf, unfilled_leaves, MrkleProof, MrkleProofNode, ProofNodeModel,
};
use crate::node::{Node, NodeIndex};
use crate::tree::Tree;
use vstd::prelude::*;

verus! {

/// A 64-bit value as eight little-endian bytes.
pub open spec fn enc_u64(x: u64) -> Seq<u8> {
    seq![
        (x & 0xff) as u8,
        ((x >> 8) & 0xff) as u8,
        ((x >> 16) & 0xff) as u8,
        ((x >> 24) & 0xff) as u8,
        ((x >> 32) & 0xff) as u8,
        ((x >> 40) & 0xff) as u8,
        ((x >> 48) & 0xff) as u8,
        ((x >> 56) & 0xff) as u8,
    ]
}

/// Eight little-endian bytes as a 64-bit value.
pub open spec fn dec_u64(s: Seq<u8>) -> u64 {
    (s[0] as u64) | ((s[1] as u64) << 8) | ((s[2] as u64) << 16) | ((s[3] as u64) << 24) | ((
    s[4] as u64) << 32) | ((s[5] as u64) << 40) | ((s[6] as u64) << 48) | ((s[7] as u64) << 56)
}

/// An optional index: a tag byte, then the index when present.
pub open spec fn enc_opt_u64(x: Option<u64>) -> Seq<u8> {
    match x {
        None => seq![0u8],
        Some(v) => seq![1u8] + enc_u64(v),
    }
}

/// An optional digest: a tag byte, then the length and the bytes.
pub open spec fn enc_opt_bytes(h: Option<Seq<u8>>) -> Seq<u8> {
    match h {
        None => seq![0u8],
        Some(v) => seq![1u8] + enc_u64(v.len() as u64) + v,
    }
}

/// One proof node on the wire: parent, then children, then the digest slot.
pub open spec fn enc_node(n: ProofNodeModel) -> Seq<u8> {
    enc_opt_u64(
        match n.parent {
            None => None,
            Some(p) => Some(p as u64),
        },
    ) + enc_u64(n.children.len() as u64) + enc_children(n.children) + enc_opt_bytes(n.hash)
}

/// The child indices of one node, in order.
pub open spec fn enc_children(cs: Seq<usize>) -> Seq<u8>
    decreases cs.len(),
{
    if cs.len() == 0 {
        Seq::empty()
    } else {
        enc_children(cs.drop_last()) + enc_u64(cs.last() as u64)
    }
}

/// The node list, in arena order.
pub open spec fn enc_nodes(m: Seq<ProofNodeModel>) -> Seq<u8>
    decreases m.len(),
{
    if m.len() == 0 {
        Seq::empty()
    } else {
        enc_nodes(m.drop_last()) + enc_node(m.last())
    }
}

/// A whole proof arena on the wire: the root index, the node count, then the
/// nodes in order.
pub open spec fn enc_arena(m: Seq<ProofNodeModel>, root: usize) -> Seq<u8> {
    enc_u64(root as u64) + enc_u64(m.len() as u64) + enc_nodes(m)
}

/// The proof arena a prover puts on the wire: the expected root digest is
/// carried in the root node's digest slot.
pub open spec fn wire_models(m: Seq<ProofNodeModel>, root: usize, expected: Seq<u8>) -> Seq<
    ProofNodeModel,
> {
    m.update(root as int, ProofNodeModel { hash: Some(expected), ..m[root as int] })
}

} // verus!

verus! {

/// Re-encoding the value read from eight bytes yields the same bytes.
pub proof fn lemma_u64_unparse(s: Seq<u8>)
    requires
        s.len() == 8,
    ensures
        enc_u64(dec_u64(s)) == s,
{
    let b0 = s[0];
    let b1 = s[1];
    let b2 = s[2];
    let b3 = s[3];
    let b4 = s[4];
    let b5 = s[5];
    let b6 = s[6];
    let b7 = s[7];
    let x = dec_u64(s);
    assert({
        let y = (b0 as u64) | ((b1 as u64) << 8) | ((b2 as u64) << 16) | ((b3 as u64) << 24) | ((
        b4 as u64) << 32) | ((b5 as u64) << 40) | ((b6 as u64) << 48) | ((b7 as u64) << 56);
        (y & 0xff) as u8 == b0 && ((y >> 8) & 0xff) as u8 == b1 && ((y >> 16) & 0xff) as u8 == b2
            && ((y >> 24) & 0xff) as u8 == b3 && ((y >> 32) & 0xff) as u8 == b4 && ((y >> 40)
            & 0xff) as u8 == b5 && ((y >> 48) & 0xff) as u8 == b6 && ((y >> 56) & 0xff) as u8 == b7
    }) by (bit_vector);
    assert(enc_u64(x) =~= s);
}

/// Append the eight little-endian bytes of `x`.
pub(crate) fn push_u64(buf: &mut Vec<u8>, x: u64)
    ensures
        final(buf)@ == old(buf)@ + enc_u64(x),
{
    buf.push((x & 0xff) as u8);
    buf.push(((x >> 8) & 0xff) as u8);
    buf.push(((x >> 16) & 0xff) as u8);
    buf.push(((x >> 24) & 0xff) as u8);
    buf.push(((x >> 32) & 0xff) as u8);
    buf.push(((x >> 40) & 0xff) as u8);
    buf.push(((x >> 48) & 0xff) as u8);
    buf.push(((x >> 56) & 0xff) as u8);
    proof {
        assert(buf@ =~= old(buf)@ + enc_u64(x));
    }
}

/// Read eight little-endian bytes at `pos`; re-encoding the value yields
/// exactly the bytes read.
pub(crate) fn read_u64(bytes: &Vec<u8>, pos: usize) -> (r: u64)
    requires
        pos + 8 <= bytes@.len(),
    ensures
        enc_u64(r) == bytes@.subrange(pos as int, pos + 8),
        r == dec_u64(bytes@.subrange(pos as int, pos + 8)),
{
    let total = bytes.len();
    proof {
        assert(pos + 8 <= total);
    }
    let r = (bytes[pos] as u64) | ((bytes[pos + 1] as u64) << 8) | ((bytes[pos + 2] as u64) << 16)
        | ((bytes[pos + 3] as u64) << 24) | ((bytes[pos + 4] as u64) << 32) | ((bytes[pos
        + 5] as u64) << 40) | ((bytes[pos + 6] as u64) << 48) | ((bytes[pos + 7] as u64) << 56);
    proof {
        let s = bytes@.subrange(pos as int, pos + 8);
        assert(s[0] == bytes@[pos as int] && s[1] == bytes@[pos + 1] && s[2] == bytes@[pos + 2]
            && s[3] == bytes@[pos + 3] && s[4] == bytes@[pos + 4] && s[5] == bytes@[pos + 5] && s[6]
            == bytes@[pos + 6] && s[7] == bytes@[pos + 7]);
        assert(r == dec_u64(s));
        lemma_u64_unparse(s);
    }
    r
}

} // verus!

verus! {

/// Reading back the eight bytes of a value yields the value.
pub proof fn lemma_u64_roundtrip(x: u64)
    ensures
        dec_u64(enc_u64(x)) == x,
{
    let s = enc_u64(x);
    assert((((x & 0xff) as u8) as u64) | (((((x >> 8) & 0xff) as u8) as u64) << 8) | (((((x >> 16)
        & 0xff) as u8) as u64) << 16) | (((((x >> 24) & 0xff) as u8) as u64) << 24) | (((((x >> 32)
        & 0xff) as u8) as u64) << 32) | (((((x >> 40) & 0xff) as u8) as u64) << 40) | (((((x >> 48)
        & 0xff) as u8) as u64) << 48) | (((((x >> 56) & 0xff) as u8) as u64) << 56) == x)
        by (bit_vector);
    assert(dec_u64(s) == x);
}

/// A child list occupies eight bytes per child.
pub proof fn lemma_enc_children_len(cs: Seq<usize>)
    ensures
        enc_children(cs).len() == 8 * cs.len(),
    decreases cs.len(),
{
    if cs.len() > 0 {
        lemma_enc_children_len(cs.drop_last());
    }
}

/// A child list's encoding can be peeled from the front.
pub proof fn lemma_enc_children_front(cs: Seq<usize>)
    requires
        cs.len() > 0,
    ensures
        enc_children(cs) == enc_u64(cs[0] as u64) + enc_children(cs.drop_first()),
    decreases cs.len(),
{
    if cs.len() == 1 {
        assert(cs.drop_last() =~= Seq::<usize>::empty());
        assert(cs.drop_first() =~= Seq::<usize>::empty());
        assert(enc_children(Seq::<usize>::empty()) =~= Seq::<u8>::empty());
        assert(enc_children(cs) =~= enc_u64(cs[0] as u64));
        assert(enc_u64(cs[0] as u64) + Seq::<u8>::empty() =~= enc_u64(cs[0] as u64));
    } else {
        lemma_enc_children_front(cs.drop_last());
        assert(cs.drop_last()[0] == cs[0]);
        assert(cs.drop_last().drop_first() =~= cs.drop_first().drop_last());
        assert(cs.drop_first().last() == cs.last());
        assert((enc_u64(cs[0] as u64) + enc_children(cs.drop_first().drop_last())) + enc_u64(
            cs.last() as u64,
        ) =~= enc_u64(cs[0] as u64) + (enc_children(cs.drop_first().drop_last()) + enc_u64(
            cs.drop_first().last() as u64,
        )));
    }
}

/// The node list's encoding from position `i` on.
pub open spec fn enc_nodes_from(m: Seq<ProofNodeModel>, i: int) -> Seq<u8>
    decreases m.len() - i
        when i >= 0
{
    if i >= m.len() {
        Seq::empty()
    } else {
        enc_node(m[i]) + enc_nodes_from(m, i + 1)
    }
}

/// The node list's encoding splits at any position.
pub proof fn lemma_enc_nodes_split(m: Seq<ProofNodeModel>, i: int)
    requires
        0 <= i <= m.len(),
    ensures
        enc_nodes(m) == enc_nodes(m.subrange(0, i)) + enc_nodes_from(m, i),
    decreases m.len() - i,
{
    if i == m.len() {
        assert(m.subrange(0, i) =~= m);
        assert(enc_nodes(m) =~= enc_nodes(m.subrange(0, i)) + enc_nodes_from(m, i));
    } else {
        lemma_enc_nodes_split(m, i + 1);
        assert(m.subrange(0, i + 1).drop_last() =~= m.subrange(0, i));
        assert(m.subrange(0, i + 1).last() == m[i]);
        assert(enc_nodes(m.subrange(0, i + 1)) == enc_nodes(m.subrange(0, i)) + enc_node(m[i]));
        assert((enc_nodes(m.subrange(0, i)) + enc_node(m[i])) + enc_nodes_from(m, i + 1)
            =~= enc_nodes(m.subrange(0, i)) + (enc_node(m[i]) + enc_nodes_from(m, i + 1)));
    }
}

} // verus!

verus! {

/// A child list's encoding splits at any position.
pub proof fn lemma_enc_children_concat(cs: Seq<usize>, k: int)
    requires
        0 <= k <= cs.len(),
    ensures
        enc_children(cs) == enc_children(cs.subrange(0, k)) + enc_children(cs.skip(k)),
    decreases cs.len() - k,
{
    if k == cs.len() {
        assert(cs.subrange(0, k) =~= cs);
        assert(cs.skip(k) =~= Seq::<usize>::empty());
        assert(enc_children(Seq::<usize>::empty()) =~= Seq::<u8>::empty());
        assert(enc_children(cs) =~= enc_children(cs.subrange(0, k)) + enc_children(cs.skip(k)));
    } else {
        lemma_enc_children_concat(cs, k + 1);
        lemma_enc_children_front(cs.skip(k));
        assert(cs.skip(k)[0] == cs[k]);
        assert(cs.skip(k).drop_first() =~= cs.skip(k + 1));
        assert(cs.subrange(0, k + 1).drop_last() =~= cs.subrange(0, k));
        assert(cs.subrange(0, k + 1).last() == cs[k]);
        assert(enc_children(cs.subrange(0, k + 1)) == enc_children(cs.subrange(0, k)) + enc_u64(
            cs[k] as u64,
        ));
        assert((enc_children(cs.subrange(0, k)) + enc_u64(cs[k] as u64)) + enc_children(
            cs.skip(k + 1),
        ) =~= enc_children(cs.subrange(0, k)) + (enc_u64(cs[k] as u64) + enc_children(
            cs.skip(k + 1),
        )));
    }
}

/// Two child lists of the same length with the same encoding are equal.
pub proof fn lemma_enc_children_inj(cs1: Seq<usize>, cs2: Seq<usize>)
    requires
        cs1.len() == cs2.len(),
        enc_children(cs1) == enc_children(cs2),
    ensures
        cs1 == cs2,
    decreases cs1.len(),
{
    if cs1.len() == 0 {
        assert(cs1 =~= cs2);
    } else {
        lemma_enc_children_front(cs1);
        lemma_enc_children_front(cs2);
        lemma_enc_children_len(cs1.drop_first());
        lemma_enc_children_len(cs2.drop_first());
        let e1 = enc_u64(cs1[0] as u64);
        let e2 = enc_u64(cs2[0] as u64);
        assert(e1 =~= enc_children(cs1).subrange(0, 8));
        assert(e2 =~= enc_children(cs2).subrange(0, 8));
        lemma_u64_roundtrip(cs1[0] as u64);
        lemma_u64_roundtrip(cs2[0] as u64);
        assert(cs1[0] as u64 == cs2[0] as u64);
        assert(cs1[0] == cs2[0]);
        assert(enc_children(cs1.drop_first()) =~= enc_children(cs1).skip(8));
        assert(enc_children(cs2.drop_first()) =~= enc_children(cs2).skip(8));
        lemma_enc_children_inj(cs1.drop_first(), cs2.drop_first());
        assert forall|j: int| 0 <= j < cs1.len() implies cs1[j] == cs2[j] by {
            if j > 0 {
                assert(cs1.drop_first()[j - 1] == cs2.drop_first()[j - 1]);
            }
        }
        assert(cs1 =~= cs2);
    }
}

/// A window of a located encoding is the matching window of the encoding.
pub proof fn lemma_sub_segment(bytes: Seq<u8>, start: int, e: Seq<u8>, a: int, b: int)
    requires
        0 <= start,
        start + e.len() <= bytes.len(),
        bytes.subrange(start, start + e.len() as int) == e,
        0 <= a <= b <= e.len(),
    ensures
        bytes.subrange(start + a, start + b) == e.subrange(a, b),
{
    assert forall|j: int|
        0 <= j < b - a implies bytes.subrange(start + a, start + b)[j] == e.subrange(a, b)[j] by {
        assert(bytes.subrange(start, start + e.len() as int)[a + j] == e[a + j]);
    }
    assert(bytes.subrange(start + a, start + b) =~= e.subrange(a, b));
}

/// The length of an encoded node, segment by segment.
pub proof fn lemma_enc_node_len(w: ProofNodeModel)
    ensures
        enc_node(w).len() == (match w.parent {
            None => 1int,
            Some(_) => 9int,
        }) + 8 + 8 * w.children.len() + (match w.hash {
            None => 1int,
            Some(h) => 9 + h.len() as int,
        }),
{
    lemma_enc_children_len(w.children);
}

/// Two nodes whose encodings start at the same position of the same byte
/// sequence are the same node: the encoding is self-delimiting.
#[verifier::rlimit(100)]
pub proof fn lemma_enc_node_prefix_unique(
    bytes: Seq<u8>,
    start: int,
    w1: ProofNodeModel,
    w2: ProofNodeModel,
)
    requires
        0 <= start,
        start + enc_node(w1).len() <= bytes.len(),
        bytes.subrange(start, start + enc_node(w1).len() as int) == enc_node(w1),
        start + enc_node(w2).len() <= bytes.len(),
        bytes.subrange(start, start + enc_node(w2).len() as int) == enc_node(w2),
        w1.children.len() <= u64::MAX,
        w2.children.len() <= u64::MAX,
        w1.hash is Some ==> w1.hash->Some_0.len() <= u64::MAX,
        w2.hash is Some ==> w2.hash->Some_0.len() <= u64::MAX,
    ensures
        w1 == w2,
{
    let e1 = enc_node(w1);
    let e2 = enc_node(w2);
    lemma_enc_node_len(w1);
    lemma_enc_node_len(w2);
    lemma_enc_children_len(w1.children);
    lemma_enc_children_len(w2.children);
    // within the shorter encoding, the two agree byte for byte
    assert forall|j: int|
        0 <= j < e1.len() && j < e2.len() implies e1[j] == e2[j] by {
        assert(e1[j] == bytes[start + j]);
        assert(e2[j] == bytes[start + j]);
    }
    // parent slots
    let p1 = match w1.parent {
        None => seq![0u8],
        Some(p) => seq![1u8] + enc_u64(p as u64),
    };
    let p2 = match w2.parent {
        None => seq![0u8],
        Some(p) => seq![1u8] + enc_u64(p as u64),
    };
    assert(e1[0] == p1[0] && e2[0] == p2[0]);
    assert(w1.parent is Some <==> w2.parent is Some);
    if w1.parent is Some {
        assert(e1.subrange(1, 9) =~= enc_u64(w1.parent->Some_0 as u64));
        assert(e2.subrange(1, 9) =~= enc_u64(w2.parent->Some_0 as u64));
        assert(e1.subrange(1, 9) =~= e2.subrange(1, 9));
        lemma_u64_roundtrip(w1.parent->Some_0 as u64);
        lemma_u64_roundtrip(w2.parent->Some_0 as u64);
        assert(w1.parent->Some_0 == w2.parent->Some_0);
    }
    let a = p1.len() as int;
    assert(a == p2.len());
    // child counts
    assert(e1.subrange(a, a + 8) =~= enc_u64(w1.children.len() as u64));
    assert(e2.subrange(a, a + 8) =~= enc_u64(w2.children.len() as u64));
    assert(e1.subrange(a, a + 8) =~= e2.subrange(a, a + 8));
    lemma_u64_roundtrip(w1.children.len() as u64);
    lemma_u64_roundtrip(w2.children.len() as u64);
    assert(w1.children.len() == w2.children.len());
    // child lists
    let cl = 8 * w1.children.len() as int;
    assert(e1.subrange(a + 8, a + 8 + cl) =~= enc_children(w1.children));
    assert(e2.subrange(a + 8, a + 8 + cl) =~= enc_children(w2.children));
    assert(e1.subrange(a + 8, a + 8 + cl) =~= e2.subrange(a + 8, a + 8 + cl));
    lemma_enc_children_inj(w1.children, w2.children);
    // digest slots
    let b = a + 8 + cl;
    assert(e1[b] == e2[b]);
    match (w1.hash, w2.hash) {
        (None, None) => {},
        (Some(h1), Some(h2)) => {
            assert(e1.subrange(b + 1, b + 9) =~= enc_u64(h1.len() as u64));
            assert(e2.subrange(b + 1, b + 9) =~= enc_u64(h2.len() as u64));
            assert(e1.subrange(b + 1, b + 9) =~= e2.subrange(b + 1, b + 9));
            lemma_u64_roundtrip(h1.len() as u64);
            lemma_u64_roundtrip(h2.len() as u64);
            assert(h1.len() == h2.len());
            assert(e1.subrange(b + 9, b + 9 + h1.len() as int) =~= h1);
            assert(e2.subrange(b + 9, b + 9 + h2.len() as int) =~= h2);
            assert(h1 =~= h2);
        },
        (None, Some(h2)) => {
            assert(e1[b] == 0u8 && e2[b] == 1u8);
        },
        (Some(h1), None) => {
            assert(e1[b] == 1u8 && e2[b] == 0u8);
        },
    }
    assert(w1 == w2);
}

} // verus!

verus! {

/// Inside a located child-list encoding, the `k`-th eight-byte group is the
/// `k`-th child.
pub proof fn lemma_child_slice(bytes: Seq<u8>, pos_list: int, cs: Seq<usize>, k: int)
    requires
        0 <= k < cs.len(),
        0 <= pos_list,
        pos_list + 8 * cs.len() <= bytes.len(),
        bytes.subrange(pos_list, pos_list + 8 * cs.len() as int) == enc_children(cs),
    ensures
        bytes.subrange(pos_list + 8 * k, pos_list + 8 * k + 8) == enc_u64(cs[k] as u64),
{
    lemma_enc_children_len(cs);
    lemma_enc_children_concat(cs, k);
    lemma_enc_children_len(cs.subrange(0, k));
    lemma_enc_children_front(cs.skip(k));
    lemma_enc_children_len(cs.skip(k));
    assert(cs.skip(k)[0] == cs[k]);
    assert(enc_children(cs).subrange(8 * k, 8 * k + 8) =~= enc_u64(cs[k] as u64));
    lemma_sub_segment(bytes, pos_list, enc_children(cs), 8 * k, 8 * k + 8);
}

} // verus!

verus! {

/// Inside a located node-list encoding, the `i`-th node's segment is its own
/// encoding, and the prefix lengths add up.
pub proof fn lemma_node_slice(bytes: Seq<u8>, base: int, m: Seq<ProofNodeModel>, i: int)
    requires
        0 <= base,
        0 <= i < m.len(),
        base + enc_nodes(m).len() <= bytes.len(),
        bytes.subrange(base, base + enc_nodes(m).len() as int) == enc_nodes(m),
    ensures
        enc_nodes(m.subrange(0, i)).len() + enc_node(m[i]).len() <= enc_nodes(m).len(),
        enc_nodes(m.subrange(0, i + 1)).len() == enc_nodes(m.subrange(0, i)).len() + enc_node(
            m[i],
        ).len(),
        bytes.subrange(
            base + enc_nodes(m.subrange(0, i)).len(),
            base + enc_nodes(m.subrange(0, i)).len() + enc_node(m[i]).len(),
        ) == enc_node(m[i]),
{
    lemma_enc_nodes_split(m, i);
    lemma_enc_nodes_split(m, i + 1);
    assert(m.subrange(0, i + 1).drop_last() =~= m.subrange(0, i));
    assert(m.subrange(0, i + 1).last() == m[i]);
    assert(enc_nodes(m.subrange(0, i + 1)) == enc_nodes(m.subrange(0, i)) + enc_node(m[i]));
    let a = enc_nodes(m.subrange(0, i)).len() as int;
    let b = a + enc_node(m[i]).len() as int;
    assert(enc_nodes(m).subrange(a, b) =~= enc_node(m[i]));
    lemma_sub_segment(bytes, base, enc_nodes(m), a, b);
}

} // verus!
