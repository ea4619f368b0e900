use vstd::prelude::*;
use vstd::utf8::encode_utf8;
use vstd::string::StringSliceAdditionalSpecFns;
use crate::bytes::{
    index_of, lemma_index_of_at, lemma_split_first, lemma_split_none, split_on, after_first, before_first, starts_with,
    views, split_bytes, has_prefix, find_from, copy_range, push_all,
};
use crate::objects::{StoredObject, hash_object, object_bytes, sha1_digest, commit_kind, commit_kind_str};
use crate::text::{utf8_lossy, decode_lossy};

verus! {

/// The bytes `tree`, which open the line naming a commit's tree.
pub open spec fn tree_tag() -> Seq<u8> {
    seq![116u8, 114u8, 101u8, 101u8]
}

/// The bytes `parent`, which open the line naming a commit's parent.
pub open spec fn parent_tag() -> Seq<u8> {
    seq![112u8, 97u8, 114u8, 101u8, 110u8, 116u8]
}

/// The byte `0` (the digit), which separates a header tag from its value.
pub open spec fn field_sep() -> u8 {
    48u8
}

/// The newline byte.
pub open spec fn newline() -> u8 {
    10u8
}

/// A commit's content: the tree line, the parent line when there is a parent
/// (an empty line otherwise), then the message.
pub open spec fn commit_bytes(tree: Seq<u8>, parent: Seq<u8>, message: Seq<u8>) -> Seq<u8> {
    tree_tag() + seq![field_sep()] + tree + seq![newline()] + (if parent.len() > 0 {
        parent_tag() + seq![field_sep()] + parent
    } else {
        Seq::<u8>::empty()
    }) + seq![newline()] + message
}

fn tree_tag_bytes() -> (v: Vec<u8>)
    ensures
        v@ == tree_tag(),
{
    let mut v: Vec<u8> = Vec::new();
    v.push(116u8);
    v.push(114u8);
    v.push(101u8);
    v.push(101u8);
    assert(v@ =~= tree_tag());
    v
}

fn parent_tag_bytes() -> (v: Vec<u8>)
    ensures
        v@ == parent_tag(),
{
    let mut v: Vec<u8> = Vec::new();
    v.push(112u8);
    v.push(97u8);
    v.push(114u8);
    v.push(101u8);
    v.push(110u8);
    v.push(116u8);
    assert(v@ =~= parent_tag());
    v
}

/// The content of a commit of `tree_oid` with parent `parent` (none when empty) and `message`.
pub fn build_commit(tree_oid: &[u8], parent: &[u8], message: &str) -> (r: Vec<u8>)
    ensures
        r@ == commit_bytes(tree_oid@, parent@, message.spec_bytes()),
{
    let mut c = tree_tag_bytes();
    c.push(48u8);
    push_all(&mut c, tree_oid);
    c.push(10u8);
    let ghost head = c@;
    if parent.len() > 0 {
        let p = parent_tag_bytes();
        push_all(&mut c, p.as_slice());
        c.push(48u8);
        push_all(&mut c, parent);
        assert(c@ =~= head + (parent_tag() + seq![field_sep()] + parent@));
    } else {
        assert(c@ =~= head + Seq::<u8>::empty());
    }
    c.push(10u8);
    push_all(&mut c, message.as_bytes());
    assert(c@ =~= commit_bytes(tree_oid@, parent@, message.spec_bytes()));
    c
}

/// Makes the commit object for a tree, the current head (empty when there is none) and a
/// message: its content is `build_commit`'s and its id the SHA-1 of the stored bytes.
pub fn commit(tree_oid: &[u8], head: &[u8], message: &str) -> (r: StoredObject)
    ensures
        r.bytes@ == object_bytes(encode_utf8(commit_kind()), commit_bytes(tree_oid@, head@, message.spec_bytes())),
        r.oid@ == sha1_digest(r.bytes@),
        r.oid@.len() == 20,
{
    let content = build_commit(tree_oid, head, message);
    hash_object(content, commit_kind_str())
}

/// Every `tree`/`parent` line of the commit holds a `0` separator.
pub open spec fn commit_lines_ok(lines: Seq<Seq<u8>>) -> bool {
    forall|i: int|
        0 <= i < lines.len() ==> (starts_with(#[trigger] lines[i], tree_tag()) || starts_with(lines[i], parent_tag()))
            ==> index_of(lines[i], field_sep()) is Some
}

/// The fields read from a commit's lines, in order: a `tree` line sets the tree,
/// a `parent` line sets the parent (later lines win), and every other line is
/// appended, decoded leniently and without its newline, to the message.
pub open spec fn commit_fields(lines: Seq<Seq<u8>>) -> (Seq<u8>, Seq<u8>, Seq<char>)
    decreases lines.len(),
{
    if lines.len() == 0 {
        (Seq::empty(), Seq::empty(), Seq::empty())
    } else {
        let (t, p, m) = commit_fields(lines.drop_last());
        let line = lines.last();
        if starts_with(line, tree_tag()) {
            (after_first(line, field_sep()).unwrap_or(Seq::empty()), p, m)
        } else if starts_with(line, parent_tag()) {
            (t, after_first(line, field_sep()).unwrap_or(Seq::empty()), m)
        } else if line.len() == 0 {
            (t, p, m)
        } else {
            (t, p, m + utf8_lossy(line))
        }
    }
}

/// The tree, parent and message that a commit's content holds.
pub open spec fn commit_view(content: Seq<u8>) -> (Seq<u8>, Seq<u8>, Seq<char>) {
    commit_fields(split_on(content, newline()))
}

/// Whether every header line of the content can be read (reading panics otherwise).
pub fn commit_well_formed(content: &[u8]) -> (r: bool)
    ensures
        r == commit_lines_ok(split_on(content@, newline())),
{
    let lines = split_bytes(content, 10u8);
    let tt = tree_tag_bytes();
    let pt = parent_tag_bytes();
    let n = lines.len();
    for k in 0..n
        invariant
            n == lines@.len(),
            views(lines@) == split_on(content@, newline()),
            tt@ == tree_tag(),
            pt@ == parent_tag(),
            commit_lines_ok(views(lines@).take(k as int)),
    {
        let line = &lines[k];
        assert(views(lines@)[k as int] == line@);
        if has_prefix(line.as_slice(), tt.as_slice()) || has_prefix(line.as_slice(), pt.as_slice()) {
            let found = find_from(line.as_slice(), 48u8, 0);
            proof {
                crate::bytes::lemma_find_from_index_of(line@, 48u8, 0, match found { Some(i) => Some(i as int), None => None });
                assert(line@.skip(0) == line@);
            }
            if found.is_none() {
                assert(!commit_lines_ok(views(lines@)));
                return false;
            }
        }
        assert(commit_lines_ok(views(lines@).take(k + 1))) by {
            assert forall|i: int| 0 <= i < k + 1
                && (starts_with(#[trigger] views(lines@).take(k + 1)[i], tree_tag()) || starts_with(views(lines@).take(k + 1)[i], parent_tag()))
                implies index_of(views(lines@).take(k + 1)[i], field_sep()) is Some by {
                if i < k {
                    assert(views(lines@).take(k + 1)[i] == views(lines@).take(k as int)[i]);
                }
            }
        }
    }
    assert(views(lines@).take(n as int) == views(lines@));
    true
}

/// Reads a commit's content: its tree id, its parent id (empty when there is none)
/// and its message, as `commit_view` says.
pub fn parse_commit(content: &[u8]) -> (r: (Vec<u8>, Vec<u8>, String))
    requires
        commit_lines_ok(split_on(content@, newline())),
    ensures
        (r.0@, r.1@, r.2@) == commit_view(content@),
{
    let lines = split_bytes(content, 10u8);
    let tt = tree_tag_bytes();
    let pt = parent_tag_bytes();
    let mut tree: Vec<u8> = Vec::new();
    let mut parent: Vec<u8> = Vec::new();
    let mut message = String::new();
    let n = lines.len();
    for k in 0..n
        invariant
            n == lines@.len(),
            views(lines@) == split_on(content@, newline()),
            commit_lines_ok(views(lines@)),
            tt@ == tree_tag(),
            pt@ == parent_tag(),
            (tree@, parent@, message@) == commit_fields(views(lines@).take(k as int)),
    {
        let line = &lines[k];
        let ghost ls = views(lines@);
        assert(ls[k as int] == line@);
        assert(ls.take(k + 1).drop_last() == ls.take(k as int));
        assert(ls.take(k + 1).last() == line@);
        let is_tree = has_prefix(line.as_slice(), tt.as_slice());
        let is_parent = has_prefix(line.as_slice(), pt.as_slice());
        if is_tree || is_parent {
            let found = find_from(line.as_slice(), 48u8, 0);
            proof {
                crate::bytes::lemma_find_from_index_of(line@, 48u8, 0, match found { Some(i) => Some(i as int), None => None });
                assert(line@.skip(0) == line@);
            }
            match found {
                Some(p) => {
                    let ln = line.len();
                    let rest = copy_range(line.as_slice(), p + 1, ln);
                    assert(rest@ == line@.skip(p + 1));
                    if is_tree {
                        tree = rest;
                    } else {
                        parent = rest;
                    }
                },
                None => {
                    assert(false);
                },
            }
        } else if line.len() > 0 {
            let text = decode_lossy(line.as_slice());
            message.append(text.as_str());
        }
    }
    assert(views(lines@).take(n as int) == views(lines@));
    (tree, parent, message)
}

/// A header line read back gives back its value.
pub proof fn lemma_header_value(tag: Seq<u8>, value: Seq<u8>)
    requires
        forall|i: int| 0 <= i < tag.len() ==> tag[i] != field_sep(),
    ensures
        after_first(tag + seq![field_sep()] + value, field_sep()) == Some(value),
        before_first(tag + seq![field_sep()] + value, field_sep()) == tag,
        index_of(tag + seq![field_sep()] + value, field_sep()) is Some,
        starts_with(tag + seq![field_sep()] + value, tag),
{
    let line = tag + seq![field_sep()] + value;
    assert forall|j: int| 0 <= j < tag.len() implies line[j] != field_sep() by {
        assert(line[j] == tag[j]);
    }
    lemma_index_of_at(line, field_sep(), tag.len() as int);
    assert(line.skip(tag.len() as int + 1) == value);
    assert(line.take(tag.len() as int) == tag);
}

/// A commit written and read back gives back its tree, its parent and its message
/// (decoded leniently), when neither id holds a newline and the message is a single
/// line that does not itself open with `tree` or `parent`.
pub proof fn lemma_commit_roundtrip(tree: Seq<u8>, parent: Seq<u8>, message: Seq<u8>)
    requires
        forall|i: int| 0 <= i < tree.len() ==> tree[i] != newline(),
        forall|i: int| 0 <= i < parent.len() ==> parent[i] != newline(),
        forall|i: int| 0 <= i < message.len() ==> message[i] != newline(),
        !starts_with(message, tree_tag()),
        !starts_with(message, parent_tag()),
    ensures
        commit_lines_ok(split_on(commit_bytes(tree, parent, message), newline())),
        commit_view(commit_bytes(tree, parent, message)) == (
            tree,
            parent,
            if message.len() > 0 { utf8_lossy(message) } else { Seq::<char>::empty() },
        ),
{
    let l1 = tree_tag() + seq![field_sep()] + tree;
    let l2 = if parent.len() > 0 { parent_tag() + seq![field_sep()] + parent } else { Seq::<u8>::empty() };
    let nl = newline();
    assert(commit_bytes(tree, parent, message) =~= l1 + seq![nl] + (l2 + seq![nl] + message));
    assert forall|i: int| 0 <= i < l1.len() implies l1[i] != nl by {
        if i < 4 {
            assert(l1[i] == tree_tag()[i]);
        } else if i > 4 {
            assert(l1[i] == tree[i - 5]);
        }
    }
    assert forall|i: int| 0 <= i < l2.len() implies l2[i] != nl by {
        if i < 6 {
            assert(l2[i] == parent_tag()[i]);
        } else if i > 6 {
            assert(l2[i] == parent[i - 7]);
        }
    }
    lemma_split_first(l1, l2 + seq![nl] + message, nl);
    lemma_split_first(l2, message, nl);
    lemma_split_none(message, nl);
    let lines = seq![l1, l2, message];
    assert(split_on(commit_bytes(tree, parent, message), nl) =~= lines);
    assert forall|i: int| 0 <= i < tree_tag().len() implies tree_tag()[i] != field_sep() by {}
    assert forall|i: int| 0 <= i < parent_tag().len() implies parent_tag()[i] != field_sep() by {}
    lemma_header_value(tree_tag(), tree);
    lemma_header_value(parent_tag(), parent);
    assert(!starts_with(l1, parent_tag())) by {
        assert(l1[0] != parent_tag()[0]);
        if starts_with(l1, parent_tag()) {
            assert(l1.take(6)[0] == l1[0]);
        }
    }
    assert(!starts_with(l2, tree_tag())) by {
        if l2.len() > 0 {
            assert(l2[0] != tree_tag()[0]);
            if starts_with(l2, tree_tag()) {
                assert(l2.take(4)[0] == l2[0]);
            }
        }
    }
    assert(lines.drop_last() =~= seq![l1, l2]);
    assert(seq![l1, l2].drop_last() =~= seq![l1]);
    assert(seq![l1].drop_last() =~= Seq::<Seq<u8>>::empty());
    assert(commit_fields(Seq::<Seq<u8>>::empty()) == (Seq::<u8>::empty(), Seq::<u8>::empty(), Seq::<char>::empty()));
    assert(seq![l1].last() == l1);
    assert(seq![l1, l2].last() == l2);
    assert(lines.last() == message);
    assert(commit_fields(seq![l1]) == (tree, Seq::<u8>::empty(), Seq::<char>::empty()));
    if parent.len() == 0 {
        assert(parent =~= Seq::<u8>::empty());
    }
    assert(commit_fields(seq![l1, l2]) == (tree, parent, Seq::<char>::empty()));
    assert(Seq::<char>::empty() + utf8_lossy(message) =~= utf8_lossy(message));
    assert(commit_fields(lines) == (
        tree,
        parent,
        if message.len() > 0 { utf8_lossy(message) } else { Seq::<char>::empty() },
    ));
    assert(commit_lines_ok(lines)) by {
        assert forall|i: int| 0 <= i < lines.len()
            && (starts_with(#[trigger] lines[i], tree_tag()) || starts_with(lines[i], parent_tag()))
            implies index_of(lines[i], field_sep()) is Some by {
            if i == 0 {
                assert(lines[0] == l1);
            } else if i == 1 {
                assert(lines[1] == l2);
            } else {
                assert(lines[2] == message);
            }
        }
    }
}


/// A commit's content ends with the whole message, newlines and all: it is the content
/// of the same commit with an empty message, followed by every byte of the message.
pub proof fn lemma_commit_keeps_message(tree: Seq<u8>, parent: Seq<u8>, message: Seq<u8>)
    ensures
        commit_bytes(tree, parent, message) == commit_bytes(tree, parent, Seq::<u8>::empty()) + message,
        commit_bytes(tree, parent, message).len() == commit_bytes(tree, parent, Seq::<u8>::empty()).len() + message.len(),
        commit_bytes(tree, parent, message).skip(
            commit_bytes(tree, parent, message).len() - message.len(),
        ) == message,
{
    let whole = commit_bytes(tree, parent, message);
    let head = commit_bytes(tree, parent, Seq::<u8>::empty());
    assert(head + Seq::<u8>::empty() =~= head);
    assert(whole =~= head + message);
    assert(whole.skip(whole.len() - message.len()) =~= message);
}

/// The lines of a commit whose ids and message hold no newline: the tree line, the
/// parent line (empty when there is no parent), and the message.
pub proof fn lemma_commit_lines(tree: Seq<u8>, parent: Seq<u8>, message: Seq<u8>)
    requires
        forall|i: int| 0 <= i < tree.len() ==> tree[i] != newline(),
        forall|i: int| 0 <= i < parent.len() ==> parent[i] != newline(),
        forall|i: int| 0 <= i < message.len() ==> message[i] != newline(),
    ensures
        split_on(commit_bytes(tree, parent, message), newline()) == seq![
            tree_tag() + seq![field_sep()] + tree,
            if parent.len() > 0 { parent_tag() + seq![field_sep()] + parent } else { Seq::<u8>::empty() },
            message,
        ],
{
    let l1 = tree_tag() + seq![field_sep()] + tree;
    let l2 = if parent.len() > 0 { parent_tag() + seq![field_sep()] + parent } else { Seq::<u8>::empty() };
    let nl = newline();
    assert(commit_bytes(tree, parent, message) =~= l1 + seq![nl] + (l2 + seq![nl] + message));
    assert forall|i: int| 0 <= i < l1.len() implies l1[i] != nl by {
        if i < 4 {
            assert(l1[i] == tree_tag()[i]);
        } else if i > 4 {
            assert(l1[i] == tree[i - 5]);
        }
    }
    assert forall|i: int| 0 <= i < l2.len() implies l2[i] != nl by {
        if i < 6 {
            assert(l2[i] == parent_tag()[i]);
        } else if i > 6 {
            assert(l2[i] == parent[i - 7]);
        }
    }
    lemma_split_first(l1, l2 + seq![nl] + message, nl);
    lemma_split_first(l2, message, nl);
    lemma_split_none(message, nl);
    assert(split_on(commit_bytes(tree, parent, message), nl) =~= seq![l1, l2, message]);
}
} // verus!
