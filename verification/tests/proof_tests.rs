use mrkle::merkle_proof::verify_inclusion;
use mrkle::{HashAlg, MrkleProof, MrkleTree, NodeIndex, ProofError};
use sha2::Digest;

fn payloads(items: &[&str]) -> Vec<Vec<u8>> {
    items.iter().map(|s| s.as_bytes().to_vec()).collect()
}

fn sha256(data: &[u8]) -> Vec<u8> {
    sha2::Sha256::digest(data).to_vec()
}

#[test]
fn test_generate_fill_validate() {
    // proof for payload "c" out of four leaves
    let tree = MrkleTree::from_leaves(HashAlg::Sha256, payloads(&["a", "b", "c", "d"]));
    let mut proof = tree.generate_proof(vec![NodeIndex::new(2)]).unwrap();
    assert_eq!(proof.expected().as_slice(), tree.root_hash().as_slice());
    proof.update_leaf_hash(0, sha256(b"c")).unwrap();
    assert_eq!(proof.try_validate_basic().unwrap(), true);
    assert!(proof.valid());
}

#[test]
fn test_validate_rejects_wrong_leaf() {
    let tree = MrkleTree::from_leaves(HashAlg::Sha256, payloads(&["a", "b", "c", "d"]));
    let mut proof = tree.generate_proof(vec![NodeIndex::new(2)]).unwrap();
    proof.update_leaf_hash(0, sha256(b"x")).unwrap();
    let r = proof.try_validate_basic();
    assert!(matches!(r, Err(ProofError::RootHashMismatch { .. })));
    assert!(!proof.valid());
}

#[test]
fn test_generate_rejects_single_leaf_tree() {
    let tree = MrkleTree::from_leaves(HashAlg::Sha256, payloads(&["only"]));
    let r = tree.generate_proof(vec![NodeIndex::new(0)]);
    assert!(matches!(r, Err(ProofError::InvalidSize)));
}

#[test]
fn test_generate_rejects_non_leaf() {
    let tree = MrkleTree::from_leaves(HashAlg::Sha256, payloads(&["a", "b", "c", "d"]));
    // index six is the root, an internal node
    let r = tree.generate_proof(vec![NodeIndex::new(6)]);
    assert!(matches!(r, Err(ProofError::ExpectedLeafHash)));
    let r2 = tree.generate_proof(vec![NodeIndex::new(99)]);
    assert!(matches!(r2, Err(ProofError::ExpectedLeafHash)));
}

#[test]
fn test_verify_inclusion_end_to_end() {
    let tree = MrkleTree::from_leaves(HashAlg::Sha1, payloads(&["a", "b", "c", "d", "e"]));
    for i in 0..5 {
        assert_eq!(verify_inclusion(&tree, NodeIndex::new(i)).unwrap(), true);
    }
}

#[test]
fn test_refresh_then_revalidate_same_outcome() {
    let tree = MrkleTree::from_leaves(HashAlg::Sha256, payloads(&["a", "b", "c", "d", "e"]));
    let mut proof = tree.generate_proof(vec![NodeIndex::new(1)]).unwrap();
    let h = sha256(b"b");
    proof.update_leaf_hash(0, h.clone()).unwrap();
    let first = proof.try_validate_basic().unwrap();
    proof.refresh();
    proof.update_leaf_hash(0, h).unwrap();
    let second = proof.try_validate_basic().unwrap();
    assert_eq!(first, second);

    // and the same holds for a failing digest
    let mut proof2 = tree.generate_proof(vec![NodeIndex::new(1)]).unwrap();
    let bad = sha256(b"zzz");
    proof2.update_leaf_hash(0, bad.clone()).unwrap();
    let first2 = proof2.try_validate_basic().is_ok();
    proof2.refresh();
    proof2.update_leaf_hash(0, bad).unwrap();
    let second2 = proof2.try_validate_basic().is_ok();
    assert_eq!(first2, second2);
}

#[test]
fn test_wire_round_trip() {
    let tree = MrkleTree::from_leaves(HashAlg::Sha256, payloads(&["a", "b", "c", "d"]));
    let proof = tree.generate_proof(vec![NodeIndex::new(2)]).unwrap();
    let bytes = proof.to_wire().unwrap();

    let mut back = MrkleProof::from_wire(&bytes, HashAlg::Sha256).unwrap();
    // the reconstructed proof re-serializes to the identical bytes
    let bytes2 = back.to_wire().unwrap();
    assert_eq!(bytes, bytes2);
    assert_eq!(back.len(), proof.len());
    assert_eq!(back.expected().as_slice(), proof.expected().as_slice());
    assert_eq!(back.leaves().len(), proof.leaves().len());

    // and it still validates like the original
    back.update_leaf_hash(0, sha256(b"c")).unwrap();
    assert_eq!(back.try_validate_basic().unwrap(), true);
}

#[test]
fn test_wire_rejects_truncation() {
    let tree = MrkleTree::from_leaves(HashAlg::Sha256, payloads(&["a", "b", "c", "d"]));
    let proof = tree.generate_proof(vec![NodeIndex::new(2)]).unwrap();
    let bytes = proof.to_wire().unwrap();
    // drop the last byte of the final sibling digest
    let mut cut = bytes.clone();
    cut.pop();
    assert!(MrkleProof::from_wire(&cut, HashAlg::Sha256).is_none());
    // garbage is rejected outright
    let garbage = vec![7u8; 10];
    assert!(MrkleProof::from_wire(&garbage, HashAlg::Sha256).is_none());
}

#[test]
fn test_wire_rejects_validated_proof() {
    let tree = MrkleTree::from_leaves(HashAlg::Sha256, payloads(&["a", "b", "c", "d"]));
    let mut proof = tree.generate_proof(vec![NodeIndex::new(0)]).unwrap();
    proof.update_leaf_hash(0, sha256(b"a")).unwrap();
    let _ = proof.valid();
    assert!(proof.to_wire().is_none());
}

#[test]
fn test_update_leaf_hash_past_list_is_quiet() {
    let tree = MrkleTree::from_leaves(HashAlg::Sha256, payloads(&["a", "b", "c", "d"]));
    let mut proof = tree.generate_proof(vec![NodeIndex::new(0)]).unwrap();
    // a single-leaf proof lists one leaf; later indices change nothing
    assert!(proof.update_leaf_hash(5, sha256(b"a")).is_ok());
    proof.update_leaf_hash(0, sha256(b"a")).unwrap();
    assert_eq!(proof.try_validate_basic().unwrap(), true);
}

#[test]
fn test_unfilled_proof_cannot_derive_root() {
    let tree = MrkleTree::from_leaves(HashAlg::Sha256, payloads(&["a", "b", "c", "d"]));
    let mut proof = tree.generate_proof(vec![NodeIndex::new(2)]).unwrap();
    // without the leaf digest the root cannot be derived
    let r = proof.try_validate_basic();
    assert!(matches!(
        r,
        Err(ProofError::TreeError(mrkle::TreeError::MissingRoot))
    ));
}

#[test]
fn test_proof_accessors() {
    let tree = MrkleTree::from_leaves(HashAlg::Sha256, payloads(&["a", "b", "c"]));
    let proof = tree.generate_proof(vec![NodeIndex::new(1)]).unwrap();
    assert!(!proof.is_empty());
    assert_eq!(proof.len(), 5);
    assert_eq!(proof.leaves().len(), 1);
    assert_eq!(proof.expected_entry().as_bytes(), tree.root_hash().as_slice());
}
