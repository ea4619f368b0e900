use eh_git::refs::{checkout, create_tag, get_oid, head_path, ref_path, ref_value};

#[test]
fn create_tag_writes_the_id_text_under_refs_tags() {
    let w = create_tag("v1", "abcdef");
    assert_eq!(w.path, ".eh-git/refs/tags/v1");
    assert_eq!(w.content, b"abcdef".to_vec());
}

#[test]
fn ref_paths_lie_under_the_store() {
    assert_eq!(ref_path("HEAD"), ".eh-git/HEAD");
    assert_eq!(head_path(), ".eh-git/HEAD");
}

#[test]
fn tag_reads_back_as_its_id_text() {
    let w = create_tag("rel", "0123abcd");
    assert_eq!(get_oid("refs/tags/rel", Some(&w.content)), "0123abcd");
}

#[test]
fn head_reads_back_as_hex() {
    assert_eq!(get_oid("HEAD", Some(&[0xde, 0xad, 0x01])), "dead01");
    assert_eq!(ref_value("HEAD", &[]), Some(String::new()));
}

#[test]
fn unreadable_ref_falls_back_to_the_name() {
    assert_eq!(get_oid("abc123", None), "abc123");
    assert_eq!(get_oid("refs/tags/bad", Some(&[0xff, 0xfe])), "refs/tags/bad");
    assert_eq!(ref_value("refs/tags/bad", &[0xff]), None);
}

#[test]
fn checkout_reads_the_commit_tree_and_points_head_at_it() {
    let plan = checkout(Some(b"tree0abc\nparent0def\nmsg"));
    assert_eq!(plan.tree_oid, b"abc".to_vec());
    assert_eq!(plan.head.path, ".eh-git/HEAD");
    assert_eq!(plan.head.content, b"abc".to_vec());
}

#[test]
fn checkout_of_an_unreadable_commit_uses_an_empty_tree() {
    let plan = checkout(None);
    assert!(plan.tree_oid.is_empty());
    assert!(plan.head.content.is_empty());
}
