use eh_git::cat::{render_blob, render_commit, render_tree};

#[test]
fn render_blob_ends_every_line_with_a_newline() {
    assert_eq!(render_blob(b"a\r\nb"), "a\nb\n");
    assert_eq!(render_blob(b"x\n"), "x\n");
    assert_eq!(render_blob(b""), "");
    assert_eq!(render_blob(b"\n\n"), "\n\n");
    assert_eq!(render_blob(b"a\r"), "a\r\n");
}

#[test]
fn render_tree_lists_kind_hex_id_and_name() {
    assert_eq!(render_tree(b"blob0\x01\xab0file.txt\nbroken\n"), "blob 01ab file.txt\n");
}

#[test]
fn render_commit_lists_headers_in_hex_and_the_message() {
    let (text, complete) = render_commit(b"tree0\x12\x34\nparent0\xff\nhello");
    assert!(complete);
    assert_eq!(text, "tree 1234\nparent ff\nhello");
}

#[test]
fn render_commit_stops_at_a_header_without_separator() {
    let (text, complete) = render_commit(b"tree0\x01\nmsg\nparent\nlater");
    assert!(!complete);
    assert_eq!(text, "tree 01\nmsg");
}
