use mrkle::entry::entry;
use mrkle::node::Node;
use mrkle::{
    BreadthOrder, HashAlg, MrkleHasher, MrkleTree, NodeIndex, OrderTraversal, Orderedentry,
    PostOrder,
};
use sha1::Digest;

fn payloads(items: &[&str]) -> Vec<Vec<u8>> {
    items.iter().map(|s| s.as_bytes().to_vec()).collect()
}

fn sha256(data: &[u8]) -> Vec<u8> {
    sha2::Sha256::digest(data).to_vec()
}

fn sha256_pair(a: &[u8], b: &[u8]) -> Vec<u8> {
    let mut buf = Vec::new();
    buf.extend_from_slice(a);
    buf.extend_from_slice(b);
    sha256(&buf)
}

#[test]
fn test_build_four_leaves_sha256() {
    let tree = MrkleTree::from_leaves(HashAlg::Sha256, payloads(&["a", "b", "c", "d"]));
    let ha = sha256(b"a");
    let hb = sha256(b"b");
    let hc = sha256(b"c");
    let hd = sha256(b"d");
    let h01 = sha256_pair(&ha, &hb);
    let h23 = sha256_pair(&hc, &hd);
    let root = sha256_pair(&h01, &h23);
    assert_eq!(tree.root_hash().as_slice(), root.as_slice());
    assert_eq!(tree.len(), 7);
}

#[test]
fn test_build_three_leaves_sha256() {
    let tree = MrkleTree::from_leaves(HashAlg::Sha256, payloads(&["a", "b", "c"]));
    let ha = sha256(b"a");
    let hb = sha256(b"b");
    let hc = sha256(b"c");
    let h01 = sha256_pair(&ha, &hb);
    // queue order: [c, p01] is folded next, so the root hashes c before p01
    let root = sha256_pair(&hc, &h01);
    assert_eq!(tree.root_hash().as_slice(), root.as_slice());
    assert_eq!(tree.len(), 5);
}

#[test]
fn test_build_single_leaf_wraps() {
    let tree = MrkleTree::from_leaves(HashAlg::Sha256, payloads(&["only"]));
    assert_eq!(tree.len(), 2);
    let leaf_hash = sha256(b"only");
    let root = sha256(&leaf_hash);
    assert_eq!(tree.get(0).unwrap().hash().as_slice(), leaf_hash.as_slice());
    assert_eq!(tree.root_hash().as_slice(), root.as_slice());
}

#[test]
fn test_build_empty() {
    let tree = MrkleTree::from_leaves(HashAlg::Sha256, Vec::new());
    assert!(tree.is_empty());
    assert_eq!(tree.len(), 0);
}

#[test]
fn test_build_is_deterministic() {
    let t1 = MrkleTree::from_leaves(HashAlg::Sha1, payloads(&["a", "b", "c", "d", "e"]));
    let t2 = MrkleTree::from_leaves(HashAlg::Sha1, payloads(&["a", "b", "c", "d", "e"]));
    assert_eq!(t1.root_hash(), t2.root_hash());
}

#[test]
fn test_different_algorithms_differ() {
    let pl = payloads(&["a", "b"]);
    let t1 = MrkleTree::from_leaves(HashAlg::Sha256, pl.clone());
    let t2 = MrkleTree::from_leaves(HashAlg::Sha3_256, pl.clone());
    let t3 = MrkleTree::from_leaves(HashAlg::Blake2s256, pl);
    assert_ne!(t1.root_hash(), t2.root_hash());
    assert_ne!(t1.root_hash(), t3.root_hash());
}

#[test]
fn test_large_tree_shape() {
    // 1024 leaves: 1023 internal nodes, 2047 nodes in the arena
    let mut pl: Vec<Vec<u8>> = Vec::new();
    for i in 0..1024u32 {
        pl.push(i.to_le_bytes().to_vec());
    }
    let tree = MrkleTree::from_leaves(HashAlg::Sha256, pl);
    assert_eq!(tree.len(), 2047);
    let mut internal = 0;
    for i in 0..tree.len() {
        if !tree.get(i).unwrap().is_leaf() {
            internal += 1;
        }
    }
    assert_eq!(internal, 1023);
    // a proof for any leaf carries exactly ten sibling digests:
    // 21 nodes = 1 leaf + 10 siblings + 10 parents
    let proof = tree.generate_proof(vec![NodeIndex::new(37)]).unwrap();
    assert_eq!(proof.len(), 21);
    assert_eq!((proof.len() - 1) / 2, 10);
    for node in proof.leaves() {
        assert!(node.hash().is_none());
    }
}

#[test]
fn test_hasher_concat_matches_one_shot() {
    let hasher = MrkleHasher::new(HashAlg::Sha256);
    let a = sha256(b"x");
    let b = sha256(b"y");
    let joined = hasher.concat(&a, &b);
    assert_eq!(joined, sha256_pair(&a, &b));
    let parts = vec![a.clone(), b.clone()];
    let joined_slice = hasher.concat_slice(&parts);
    assert_eq!(joined_slice, joined);
    assert_eq!(hasher.output_size(), 32);
}

#[test]
fn test_node_constructors() {
    let hasher = MrkleHasher::new(HashAlg::Sha1);
    let leaf = mrkle::MrkleNode::leaf(HashAlg::Sha1, b"data".to_vec());
    let leaf2 = mrkle::MrkleNode::from_hasher(b"data".to_vec(), &hasher);
    assert_eq!(leaf.hash(), leaf2.hash());
    assert!(leaf.payload().is_leaf());
    assert!(leaf.is_leaf());

    let internal = mrkle::MrkleNode::internal(
        vec![NodeIndex::new(0), NodeIndex::new(1)],
        hasher.concat(leaf.hash(), leaf2.hash()),
    );
    assert!(!internal.payload().is_leaf());
    assert!(!internal.is_leaf());
    assert!(internal.contains(&NodeIndex::new(0)));
    assert_eq!(internal.child_count(), 2);
}

#[test]
fn test_ordered_entry_traversal() {
    let h1 = sha256(b"hello");
    let h2 = sha256(b"world");
    let entries = vec![
        entry::from_bytes_unchecked(&h1),
        entry::from_bytes_unchecked(&h2),
    ];
    let mut it = Orderedentry::new(&entries);
    assert_eq!(it.len(), 2);
    assert!(!it.is_empty());
    assert_eq!(it.remaining(), 2);
    let first = it.next().unwrap();
    assert_eq!(first.as_bytes(), h1.as_slice());
    assert_eq!(it.current_position(), 1);
    it.reset();
    assert_eq!(it.current_position(), 0);
    assert_eq!(it.remaining(), 2);
}

#[test]
fn test_traversal_orders() {
    let tree = MrkleTree::from_leaves(HashAlg::Sha256, payloads(&["a", "b", "c", "d"]));
    let post = PostOrder.arrange(&tree);
    assert_eq!(post.len(), 7);
    // children always precede their parent in this order
    assert_eq!(post[0].index(), 0);
    assert_eq!(post[6].index(), 6);
    let bfs = BreadthOrder.arrange(&tree);
    assert_eq!(bfs.len(), 7);
    // breadth-first starts at the root
    assert_eq!(bfs[0].index(), 6);
}

const DATA_PAYLOAD: [u8; 32] = [0u8; 32];

#[test]
fn test_merkle_tree_default_build() {
    let tree = MrkleTree::default();
    assert!(tree.is_empty())
}

#[test]
fn test_is_leaf_logic() {
    let leaf = mrkle::MrkleNode::leaf(HashAlg::Sha1, DATA_PAYLOAD.to_vec());
    assert!(leaf.is_leaf());

    let hash = MrkleHasher::digest(HashAlg::Sha1, leaf.hash().as_slice());
    let internal = mrkle::MrkleNode::internal(vec![NodeIndex::new(1)], hash);
    assert!(!internal.is_leaf())
}

#[test]
fn test_default_mrkle_node() {
    let node = mrkle::MrkleNode::leaf(HashAlg::Sha1, DATA_PAYLOAD.to_vec());

    let expected = sha1::Sha1::digest(DATA_PAYLOAD).to_vec();
    assert_eq!(node.hash(), &expected)
}

#[test]
fn test_build_with_mrkel() {
    let hasher = MrkleHasher::new(HashAlg::Sha1);
    let node = mrkle::MrkleNode::from_hasher(DATA_PAYLOAD.to_vec(), &hasher);

    assert_eq!(node.hash(), &sha1::Sha1::digest(DATA_PAYLOAD).to_vec())
}

#[test]
fn test_build_internal_mrkel_node() {
    let hasher = MrkleHasher::new(HashAlg::Sha1);
    let node1 = mrkle::MrkleNode::from_hasher(DATA_PAYLOAD.to_vec(), &hasher);
    let node2 = mrkle::MrkleNode::from_hasher(DATA_PAYLOAD.to_vec(), &hasher);

    let children = vec![NodeIndex::new(0), NodeIndex::new(1)];

    let hash = hasher.concat_slice(&vec![node1.hash().clone(), node2.hash().clone()]);

    let parent = mrkle::MrkleNode::internal(children, hash);

    // the expected digest concatenates the two child digests
    // under the same algorithm
    let expected = {
        let mut h = sha1::Sha1::new();
        h.update(node1.hash());
        h.update(node2.hash());
        h.finalize().to_vec()
    };

    assert_eq!(parent.hash(), &expected);
}

#[test]
fn test_internal_contains_node_index() {
    let hasher = MrkleHasher::new(HashAlg::Sha1);
    let node1 = mrkle::MrkleNode::from_hasher(DATA_PAYLOAD.to_vec(), &hasher);
    let node2 = mrkle::MrkleNode::from_hasher(DATA_PAYLOAD.to_vec(), &hasher);

    let children = vec![NodeIndex::new(0), NodeIndex::new(1)];

    let hash = hasher.concat_slice(&vec![node1.hash().clone(), node2.hash().clone()]);

    let parent = mrkle::MrkleNode::internal(children, hash);

    assert!(parent.contains(&NodeIndex::new(0)));
}
