use eh_git::commit::{build_commit, commit, commit_well_formed, parse_commit};
use eh_git::hex::to_hex;

#[test]
fn build_commit_without_parent_leaves_an_empty_line() {
    let c = build_commit(&[1, 2, 3], &[], "first");
    assert_eq!(c, b"tree0\x01\x02\x03\n\nfirst".to_vec());
}

#[test]
fn build_commit_with_parent_writes_the_parent_line() {
    let c = build_commit(b"T", b"P", "msg");
    assert_eq!(c, b"tree0T\nparent0P\nmsg".to_vec());
}

#[test]
fn commit_object_is_named_by_sha1_of_its_bytes() {
    let obj = commit(&[1, 2, 3], &[], "first");
    assert_eq!(obj.bytes, b"commit\0tree0\x01\x02\x03\n\nfirst".to_vec());
    assert_eq!(to_hex(&obj.oid), "39b83f480b067b4cf2b8f87cc29e472fca59595e");
}

#[test]
fn commit_reads_back_tree_parent_and_message() {
    let c = build_commit(b"abc", b"def", "hello there");
    assert!(commit_well_formed(&c));
    let (tree, parent, message) = parse_commit(&c);
    assert_eq!(tree, b"abc".to_vec());
    assert_eq!(parent, b"def".to_vec());
    assert_eq!(message, "hello there");
}

#[test]
fn commit_without_parent_reads_back_empty_parent() {
    let c = build_commit(b"abc", b"", "m");
    let (tree, parent, message) = parse_commit(&c);
    assert_eq!(tree, b"abc".to_vec());
    assert!(parent.is_empty());
    assert_eq!(message, "m");
}

#[test]
fn parse_commit_joins_message_lines_without_newlines() {
    let (_, _, message) = parse_commit(b"tree0X\n\nline one\nline two\n");
    assert_eq!(message, "line oneline two");
}

#[test]
fn parse_commit_takes_the_value_after_the_first_zero() {
    let (tree, parent, _) = parse_commit(b"treeXY0a0b\nparent00c\n");
    assert_eq!(tree, b"a0b".to_vec());
    assert_eq!(parent, b"0c".to_vec());
}

#[test]
fn message_line_that_opens_with_tree_is_read_as_a_header() {
    let c = build_commit(b"abc", b"", "treehouse0new");
    let (tree, _, message) = parse_commit(&c);
    assert_eq!(tree, b"new".to_vec());
    assert_eq!(message, "");
}

#[test]
fn header_without_separator_is_not_well_formed() {
    assert!(!commit_well_formed(b"tree\n\nmsg"));
    assert!(!commit_well_formed(b"tree0a\nparentless\n"));
    assert!(commit_well_formed(b"tree0a\n\nhello"));
    assert!(commit_well_formed(b""));
}
