use eh_git::hex::to_hex;
use eh_git::objects::{encode_object, hash_object, object_path, parse_object, type_matches};

#[test]
fn to_hex_renders_two_lowercase_digits_per_byte() {
    assert_eq!(to_hex(&[0x00, 0xab, 0x0f, 0xff, 0x10]), "00ab0fff10");
    assert_eq!(to_hex(&[]), "");
}

#[test]
fn encode_object_puts_kind_nul_then_content() {
    assert_eq!(encode_object(b"hello", "blob"), b"blob\0hello".to_vec());
    assert_eq!(encode_object(b"", "tree"), b"tree\0".to_vec());
}

#[test]
fn hash_object_names_the_stored_bytes_by_sha1() {
    let stored = hash_object(b"hello world".to_vec(), "blob");
    assert_eq!(stored.bytes, b"blob\0hello world".to_vec());
    assert_eq!(stored.oid.len(), 20);
    assert_eq!(to_hex(&stored.oid), "bca55841641a03038930a9ad7e89024a951a0bb2");
}

#[test]
fn hash_object_id_differs_from_its_input() {
    let stored = hash_object(b"abc".to_vec(), "blob");
    assert_ne!(stored.oid, stored.bytes);
    assert_ne!(stored.oid, b"abc".to_vec());
}

#[test]
fn parse_object_reads_back_what_was_encoded() {
    let bytes = encode_object(b"some\0content", "commit");
    let (kind, content) = parse_object(&bytes).unwrap();
    assert_eq!(kind, "commit");
    assert_eq!(content, b"some\0content".to_vec());
}

#[test]
fn parse_object_without_nul_is_none() {
    assert!(parse_object(b"blob hello").is_none());
    assert!(parse_object(b"").is_none());
}

#[test]
fn parse_object_decodes_kind_leniently() {
    let (kind, content) = parse_object(&[0xff, b'x', 0, b'y']).unwrap();
    assert_eq!(kind, "\u{fffd}x");
    assert_eq!(content, b"y".to_vec());
}

#[test]
fn type_matches_compares_with_the_expected_kind() {
    let found = String::from("tree");
    assert!(type_matches(&found, Some("tree")));
    assert!(!type_matches(&found, Some("blob")));
    assert!(type_matches(&found, None));
}

#[test]
fn object_path_lies_under_the_store() {
    assert_eq!(object_path("abc123"), ".eh-git/objects/abc123");
}
