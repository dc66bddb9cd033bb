use brioche::hashing::{bytes_eq, BlobHash, ValidationHash};
use sha2::Digest;

fn hello_digest() -> Vec<u8> {
    blake3::hash(b"hello").as_bytes().to_vec()
}

#[test]
fn for_content_is_blake3() {
    let h = BlobHash::for_content(b"hello");
    assert_eq!(h.as_bytes(), hello_digest().as_slice());
}

#[test]
fn for_content_empty() {
    let h = BlobHash::for_content(b"");
    assert_eq!(h.as_bytes(), blake3::hash(b"").as_bytes());
}

#[test]
fn to_hex_known_value() {
    let bytes: Vec<u8> = (0u8..32).collect();
    let h = BlobHash::from_bytes(bytes);
    assert_eq!(
        h.to_hex(),
        "000102030405060708090a0b0c0d0e0f101112131415161718191a1b1c1d1e1f"
    );
}

#[test]
fn to_hex_matches_hex_crate() {
    let h = BlobHash::for_content(b"hello");
    assert_eq!(h.to_hex(), hex::encode(hello_digest()));
}

#[test]
fn from_hex_round_trip() {
    let h = BlobHash::for_content(b"round trip");
    let hex_form = h.to_hex();
    let parsed = BlobHash::from_hex(hex_form.as_bytes()).expect("hex form must parse");
    assert!(parsed.same_as(&h));
}

#[test]
fn from_hex_accepts_uppercase() {
    let h = BlobHash::for_content(b"upper");
    let upper = h.to_hex().to_uppercase();
    let parsed = BlobHash::from_hex(upper.as_bytes()).expect("uppercase must parse");
    assert!(parsed.same_as(&h));
}

#[test]
fn from_hex_rejects_bad_input() {
    assert!(BlobHash::from_hex(b"abc").is_none());
    assert!(BlobHash::from_hex(b"").is_none());
    let mut bad = BlobHash::for_content(b"x").to_hex().into_bytes();
    bad[10] = b'g';
    assert!(BlobHash::from_hex(&bad).is_none());
}

#[test]
fn validate_matches_accepts_and_rejects() {
    let h = BlobHash::for_content(b"content");
    assert!(h.validate_matches(b"content").is_ok());
    assert!(h.validate_matches(b"other").is_err());
}

#[test]
fn bytes_eq_cases() {
    assert!(bytes_eq(b"", b""));
    assert!(bytes_eq(b"abc", b"abc"));
    assert!(!bytes_eq(b"abc", b"abd"));
    assert!(!bytes_eq(b"abc", b"abcd"));
}

#[test]
fn validation_hash_sha256() {
    let digest = sha2::Sha256::digest(b"hello").to_vec();
    let expected = ValidationHash::Sha256 { value: digest.clone() };
    assert!(expected.matches_content(b"hello"));
    assert!(!expected.matches_content(b"world"));
    assert_eq!(
        expected.display_string(),
        format!("sha256:{}", hex::encode(digest))
    );
}
