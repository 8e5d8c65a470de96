use mrkle::entry::entry;
use mrkle::EntryError;
use sha1::Digest;

#[test]
fn test_hex_display() {
    let digest = vec![0xde, 0xad, 0xbe, 0xef];
    let e = entry::from_bytes_unchecked(&digest);

    let hex_full = e.to_hex().to_string();
    assert_eq!(hex_full, "deadbeef");

    let hex_partial = e.to_hex_with_len(4).to_string();
    assert_eq!(hex_partial, "dead");
}

#[test]
fn test_entry_creation() {
    // supported digest widths
    let digest20 = vec![0u8; 20];
    let e20 = entry::try_from_bytes(&digest20).unwrap();
    assert_eq!(e20.len(), 20);

    let digest32 = vec![0u8; 32];
    let e32 = entry::try_from_bytes(&digest32).unwrap();
    assert_eq!(e32.len(), 32);

    // an unsupported width is rejected
    let invalid = vec![0u8; 15];
    assert!(matches!(
        entry::try_from_bytes(&invalid),
        Err(EntryError::InvalidByteSliceLength(15))
    ));
}

#[test]
fn test_actual_hash() {
    // a real SHA-1 digest round-trips through an entry
    let src = sha1::Sha1::digest(b"hello world");
    let mut result = [0u8; 20];
    result.copy_from_slice(&src);

    let e = entry::try_from_bytes(&result).unwrap();
    assert_eq!(e.len(), 20);
    assert_eq!(e.first_byte(), result[0]);

    let hex = e.to_hex().to_string();
    assert_eq!(hex.len(), 40); // 20 bytes * 2 hex chars per byte
}

#[test]
fn test_with_sha256() {
    let src = sha2::Sha256::digest(b"test data");
    let mut result = [0u8; 32];
    result.copy_from_slice(&src);

    let e = entry::try_from_bytes(&result).unwrap();
    assert_eq!(e.len(), 32);

    let hex = e.to_hex().to_string();
    assert_eq!(hex.len(), 64); // 32 bytes * 2
}

#[test]
fn test_hex_to_buf() {
    let digest = vec![0x0a, 0xff];
    let e = entry::from_bytes_unchecked(&digest);
    let mut buf: Vec<u8> = Vec::new();
    let s = e.hex_to_buf(&mut buf);
    assert_eq!(s, "0aff");
    assert_eq!(buf.as_slice(), s.as_bytes());
}
