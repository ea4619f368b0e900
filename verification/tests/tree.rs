use eh_git::objects::hash_object;
use eh_git::hex::to_hex;
use eh_git::text::join_path;
use eh_git::tree::{is_ignored, parse_tree_entries, resolve_entry, tree_object, EntryFault, TreeBuilder, TreeEntry, TreeStep};

#[test]
fn tree_entries_are_written_in_byte_order_of_names() {
    let mut b = TreeBuilder::new();
    b.insert("b.txt", b"22".to_vec(), "blob");
    b.insert("a.txt", b"11".to_vec(), "blob");
    b.insert("Z", b"33".to_vec(), "tree");
    assert_eq!(b.len(), 3);
    assert_eq!(b.encode(), b"tree0330Z\nblob0110a.txt\nblob0220b.txt\n".to_vec());
}

#[test]
fn tree_content_does_not_depend_on_insertion_order() {
    let mut x = TreeBuilder::new();
    x.insert("one", b"1".to_vec(), "blob");
    x.insert("two", b"2".to_vec(), "tree");
    x.insert("three", b"3".to_vec(), "blob");
    let mut y = TreeBuilder::new();
    y.insert("three", b"3".to_vec(), "blob");
    y.insert("one", b"1".to_vec(), "blob");
    y.insert("two", b"2".to_vec(), "tree");
    assert_eq!(x.encode(), y.encode());
}

#[test]
fn inserting_a_name_again_replaces_its_entry() {
    let mut b = TreeBuilder::new();
    b.insert("f", b"old".to_vec(), "blob");
    b.insert("g", b"x".to_vec(), "blob");
    b.insert("f", b"new".to_vec(), "tree");
    assert_eq!(b.len(), 2);
    assert_eq!(b.encode(), b"tree0new0f\nblob0x0g\n".to_vec());
}

#[test]
fn prefix_name_comes_first() {
    let mut b = TreeBuilder::new();
    b.insert("ab", b"2".to_vec(), "blob");
    b.insert("a", b"1".to_vec(), "blob");
    assert_eq!(b.encode(), b"blob010a\nblob020ab\n".to_vec());
}

#[test]
fn empty_tree_has_empty_content() {
    let b = TreeBuilder::new();
    assert!(b.encode().is_empty());
    let obj = tree_object(&b);
    assert_eq!(obj.bytes, b"tree\0".to_vec());
}

#[test]
fn tree_object_is_named_by_sha1_of_its_bytes() {
    let mut b = TreeBuilder::new();
    b.insert("a.txt", b"AB".to_vec(), "blob");
    let obj = tree_object(&b);
    assert_eq!(obj.bytes, b"tree\0blob0AB0a.txt\n".to_vec());
    assert_eq!(to_hex(&obj.oid), "2bbe70bacf8369075d25b17c036cef5a29b88398");
    assert_eq!(obj.oid, hash_object(b"blob0AB0a.txt\n".to_vec(), "tree").oid);
}

#[test]
fn tree_reads_back_every_entry() {
    let mut b = TreeBuilder::new();
    b.insert("x.rs", b"12".to_vec(), "blob");
    b.insert("dir", b"34".to_vec(), "tree");
    let entries = parse_tree_entries(&b.encode());
    assert_eq!(entries.len(), 2);
    assert_eq!(entries[0].kind, "tree");
    assert_eq!(entries[0].oid, b"34".to_vec());
    assert_eq!(entries[0].name, "dir");
    assert_eq!(entries[1].kind, "blob");
    assert_eq!(entries[1].oid, b"12".to_vec());
    assert_eq!(entries[1].name, "x.rs");
}

#[test]
fn tree_lines_with_fewer_than_three_fields_are_skipped() {
    let entries = parse_tree_entries(b"blob0only\n\nblob0id0name0with0zeros\nnothing");
    assert_eq!(entries.len(), 1);
    assert_eq!(entries[0].oid, b"id".to_vec());
    assert_eq!(entries[0].name, "name0with0zeros");
}

fn entry(kind: &str, name: &str) -> TreeEntry {
    TreeEntry { kind: kind.to_string(), oid: b"oid".to_vec(), name: name.to_string() }
}

#[test]
fn resolve_entry_joins_blob_and_tree_paths() {
    match resolve_entry("./", &entry("blob", "a.txt")) {
        Ok(TreeStep::Blob { path, oid }) => {
            assert_eq!(path, "./a.txt");
            assert_eq!(oid, b"oid".to_vec());
        }
        _ => panic!("expected a blob"),
    }
    match resolve_entry("./dir", &entry("tree", "sub")) {
        Ok(TreeStep::Tree { path, oid }) => {
            assert_eq!(path, "./dir/sub");
            assert_eq!(oid, b"oid".to_vec());
        }
        _ => panic!("expected a tree"),
    }
}

#[test]
fn resolve_entry_refuses_bad_names_and_kinds() {
    assert!(matches!(resolve_entry("./", &entry("blob", "a/b")), Err(EntryFault::SlashInName)));
    assert!(matches!(resolve_entry("./", &entry("blob", "..")), Err(EntryFault::DotName)));
    assert!(matches!(resolve_entry("./", &entry("blob", ".")), Err(EntryFault::DotName)));
    assert!(matches!(resolve_entry("./", &entry("link", "x")), Err(EntryFault::UnknownKind)));
    assert!(matches!(resolve_entry("./", &entry("link", "..")), Err(EntryFault::DotName)));
}

#[test]
fn join_path_adds_a_separator_only_when_needed() {
    assert_eq!(join_path("./", "a"), "./a");
    assert_eq!(join_path("./d", "a"), "./d/a");
    assert_eq!(join_path("", "a"), "a");
    assert_eq!(join_path("d", ""), "d/");
}

#[test]
fn is_ignored_matches_markers_anywhere_in_the_path() {
    assert!(is_ignored("./.eh-git"));
    assert!(is_ignored("./target/debug"));
    assert!(is_ignored("./src"));
    assert!(is_ignored("./.gitignore"));
    assert!(is_ignored("./my-eh-git-notes"));
    assert!(is_ignored("./mysrcfile"));
    assert!(!is_ignored("./resources"));
    assert!(!is_ignored("./notes.txt"));
    assert!(!is_ignored("./docs/readme.md"));
}
