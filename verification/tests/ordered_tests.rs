use mrkle::entry::entry;
use mrkle::Orderedentry;
use sha1::{Digest, Sha1};
use sha2::Sha256;

/// A serialized three-entry tree over SHA-1: parent digest first, then the
/// two leaf digests, as one flat byte buffer.
fn create_sha1_test_tree() -> Vec<u8> {
    let hash1 = Sha1::digest(b"hello");
    let hash2 = Sha1::digest(b"world");
    let (left_entry, right_entry) = (
        entry::from_bytes_unchecked(&hash1),
        entry::from_bytes_unchecked(&hash2),
    );

    let mut combined_buffer = [0u8; 40];
    combined_buffer[..20].copy_from_slice(left_entry.as_bytes());
    combined_buffer[20..].copy_from_slice(right_entry.as_bytes());

    let parent_hash = Sha1::digest(combined_buffer);
    let tree_entries = [
        entry::from_bytes_unchecked(&parent_hash),
        left_entry,
        right_entry,
    ];

    let mut serialized_tree = Vec::with_capacity(60);
    for e in &tree_entries {
        serialized_tree.extend_from_slice(e.as_bytes());
    }

    serialized_tree
}

/// The same shape over SHA-256.
fn create_sha256_test_tree() -> Vec<u8> {
    let hash1 = Sha256::digest(b"hello");
    let hash2 = Sha256::digest(b"world");
    let (left_entry, right_entry) = (
        entry::from_bytes_unchecked(&hash1),
        entry::from_bytes_unchecked(&hash2),
    );

    let mut combined_buffer = [0u8; 64];
    combined_buffer[..32].copy_from_slice(left_entry.as_bytes());
    combined_buffer[32..].copy_from_slice(right_entry.as_bytes());

    let parent_hash = Sha256::digest(combined_buffer);
    let tree_entries = [
        entry::from_bytes_unchecked(&parent_hash),
        left_entry,
        right_entry,
    ];

    let mut serialized_tree = Vec::with_capacity(96);
    for e in &tree_entries {
        serialized_tree.extend_from_slice(e.as_bytes());
    }

    serialized_tree
}

fn entries_of(tree_data: &[u8], hash_size: usize) -> Vec<entry> {
    tree_data
        .chunks_exact(hash_size)
        .map(entry::from_bytes_unchecked)
        .collect()
}

#[test]
fn test_sha1_tree_equivalence() {
    const HASH_SIZE: usize = 20;
    let tree_data = create_sha1_test_tree();

    let entries = entries_of(&tree_data, HASH_SIZE);
    let mut ordered_entries = Orderedentry::new(&entries);

    let mut index = 0;
    while let Some(e) = ordered_entries.next() {
        let expected_start = index * HASH_SIZE;
        let expected_end = expected_start + HASH_SIZE;

        assert_eq!(
            &tree_data[expected_start..expected_end],
            e.as_bytes(),
            "entry at index {} does not match expected bytes",
            index
        );
        index += 1;
    }
    assert_eq!(index, 3);
}

#[test]
fn test_sha256_tree_equivalence() {
    const HASH_SIZE: usize = 32;
    let tree_data = create_sha256_test_tree();

    let entries = entries_of(&tree_data, HASH_SIZE);
    let mut ordered_entries = Orderedentry::new(&entries);

    let mut index = 0;
    while let Some(e) = ordered_entries.next() {
        let expected_start = index * HASH_SIZE;
        let expected_end = expected_start + HASH_SIZE;

        assert_eq!(
            &tree_data[expected_start..expected_end],
            e.as_bytes(),
            "entry at index {} does not match expected bytes",
            index
        );
        index += 1;
    }
    assert_eq!(index, 3);
}

#[test]
fn test_iterator_reset_functionality() {
    const HASH_SIZE: usize = 20;
    let tree_data = create_sha1_test_tree();

    let entries = entries_of(&tree_data, HASH_SIZE);
    let mut ordered_entries = Orderedentry::new(&entries);

    // consume some entries
    let first_entry = ordered_entries.next().unwrap().clone();
    let _second_entry = ordered_entries.next().unwrap();

    assert_eq!(ordered_entries.current_position(), 2);
    assert_eq!(ordered_entries.remaining(), 1);

    // reset and verify the iterator is back at the beginning
    ordered_entries.reset();
    assert_eq!(ordered_entries.current_position(), 0);
    assert_eq!(ordered_entries.remaining(), 3);

    // the first entry is the same as before
    assert_eq!(ordered_entries.next().unwrap(), &first_entry);
}

#[test]
fn test_iterator_properties() {
    const HASH_SIZE: usize = 20;
    let tree_data = create_sha1_test_tree();

    let entries = entries_of(&tree_data, HASH_SIZE);
    let ordered_entries = Orderedentry::new(&entries);

    assert_eq!(ordered_entries.len(), 3);
    assert!(!ordered_entries.is_empty());
    assert_eq!(ordered_entries.remaining(), 3);
}
