use vstd::prelude::*;
use vstd::string::StringSliceAdditionalSpecFns;
use vstd::utf8::{encode_utf8, decode_utf8, valid_utf8};
use crate::bytes::{contains_run, has_run, split_on, copy_range};
use crate::hex::{hex_of, to_hex};
use crate::text::{store_dir, store_dir_str, under_dir, decode_strict, lemma_encode_concat};
use vstd::utf8::{encode_utf8_valid_utf8, encode_utf8_decode_utf8, is_ascii_chars_encode_utf8, is_ascii_chars};
use crate::commit::{commit_lines_ok, commit_view, newline, parse_commit};

verus! {

/// The file that holds the ref `name`.
pub open spec fn ref_file(name: Seq<char>) -> Seq<char> {
    store_dir() + seq!['/'] + name
}

/// The path of the ref `name`.
pub fn ref_path(ref_name: &str) -> (r: String)
    ensures
        r@ == ref_file(ref_name@),
{
    under_dir(store_dir_str(), ref_name)
}

/// The name of the head ref.
pub open spec fn head_name() -> Seq<char> {
    seq!['H', 'E', 'A', 'D']
}

/// `"HEAD"`.
pub fn head_name_str() -> (s: &'static str)
    ensures
        s@ == head_name(),
{
    proof {
        reveal_strlit("HEAD");
    }
    "HEAD"
}

/// The path of the head ref.
pub fn head_path() -> (r: String)
    ensures
        r@ == ref_file(head_name()),
{
    ref_path(head_name_str())
}

/// A write of `content` to the ref file `path`.
pub struct RefWrite {
    pub path: String,
    pub content: Vec<u8>,
}

/// The prefix under which tags live.
pub open spec fn tags_prefix() -> Seq<char> {
    seq!['r', 'e', 'f', 's', '/', 't', 'a', 'g', 's', '/']
}

/// The write that creates the tag `name` for the id text `oid`.
pub fn create_tag(name: &str, oid: &str) -> (r: RefWrite)
    ensures
        r.path@ == ref_file(tags_prefix() + name@),
        r.content@ == oid.spec_bytes(),
{
    let prefix = "refs/tags/";
    proof {
        reveal_strlit("refs/tags/");
    }
    let mut ref_name = prefix.to_owned();
    ref_name.append(name);
    let path = ref_path(ref_name.as_str());
    let bytes = oid.as_bytes();
    let content = copy_range(bytes, 0, bytes.len());
    assert(bytes@.subrange(0, bytes@.len() as int) == bytes@);
    RefWrite { path, content }
}

/// Refs whose names contain this hold text; other refs hold raw ids.
pub open spec fn refs_marker() -> Seq<char> {
    seq!['r', 'e', 'f', 's']
}

/// What reading a ref gives: for a name containing `refs`, the stored text (nothing when
/// it is not valid UTF-8); for any other name, the stored bytes in hex.
pub open spec fn ref_text(name: Seq<char>, content: Seq<u8>) -> Option<Seq<char>> {
    if contains_run(encode_utf8(name), encode_utf8(refs_marker())) {
        if valid_utf8(content) {
            Some(decode_utf8(content))
        } else {
            None
        }
    } else {
        Some(hex_of(content))
    }
}

/// Reads the stored content of the ref `ref_name`, as `ref_text` says.
pub fn ref_value(ref_name: &str, content: &[u8]) -> (r: Option<String>)
    ensures
        match r {
            Some(s) => ref_text(ref_name@, content@) == Some(s@),
            None => ref_text(ref_name@, content@) is None,
        },
{
    let marker = "refs";
    proof {
        reveal_strlit("refs");
    }
    assert(marker@ == refs_marker());
    if has_run(ref_name.as_bytes(), marker.as_bytes()) {
        decode_strict(content)
    } else {
        Some(to_hex(content))
    }
}

/// The id a name stands for: the ref's value when the ref could be read, else the name itself.
pub open spec fn resolved_oid(name: Seq<char>, stored: Option<Seq<u8>>) -> Seq<char> {
    match stored {
        Some(c) => match ref_text(name, c) {
            Some(t) => t,
            None => name,
        },
        None => name,
    }
}

/// Resolves a name given what its ref file held (`None` when it could not be read).
pub fn get_oid(name: &str, stored: Option<&[u8]>) -> (r: String)
    ensures
        r@ == resolved_oid(name@, match stored { Some(c) => Some(c@), None => None }),
{
    match stored {
        Some(c) => match ref_value(name, c) {
            Some(t) => t,
            None => name.to_owned(),
        },
        None => name.to_owned(),
    }
}

/// What a checkout does: the tree it reads into the working directory and the write to
/// the head ref (which receives that tree's id).
pub struct CheckoutPlan {
    pub tree_oid: Vec<u8>,
    pub head: RefWrite,
}

/// Plans a checkout from the content of the commit (`None` when it could not be read,
/// in which case the tree id is empty).
pub fn checkout(commit: Option<&[u8]>) -> (r: CheckoutPlan)
    requires
        match commit {
            Some(c) => commit_lines_ok(split_on(c@, newline())),
            None => true,
        },
    ensures
        r.tree_oid@ == match commit {
            Some(c) => commit_view(c@).0,
            None => Seq::<u8>::empty(),
        },
        r.head.path@ == ref_file(head_name()),
        r.head.content@ == r.tree_oid@,
{
    let tree_oid = match commit {
        Some(c) => {
            let (t, _, _) = parse_commit(c);
            t
        },
        None => Vec::new(),
    };
    let content = copy_range(tree_oid.as_slice(), 0, tree_oid.len());
    assert(tree_oid@.subrange(0, tree_oid@.len() as int) == tree_oid@);
    CheckoutPlan { tree_oid, head: RefWrite { path: head_path(), content } }
}


/// A tag read back through `get_oid` by its ref name gives back the id text it was created
/// with: the tag's content is that text's UTF-8 and its name contains `refs`.
pub proof fn lemma_tag_roundtrip(name: Seq<char>, oid: Seq<char>)
    ensures
        ref_text(tags_prefix() + name, encode_utf8(oid)) == Some(oid),
        resolved_oid(tags_prefix() + name, Some(encode_utf8(oid))) == oid,
{
    let rest = seq!['/', 't', 'a', 'g', 's', '/'];
    assert(tags_prefix() =~= refs_marker() + rest);
    assert(tags_prefix() + name =~= refs_marker() + (rest + name));
    lemma_encode_concat(refs_marker(), rest + name);
    let whole = encode_utf8(tags_prefix() + name);
    let m = encode_utf8(refs_marker());
    assert(whole.subrange(0int, 0int + m.len()) =~= m);
    assert(contains_run(whole, m));
    encode_utf8_valid_utf8(oid);
    encode_utf8_decode_utf8(oid);
}

/// The head read back through `get_oid` gives back the id it holds, in hex.
pub proof fn lemma_head_reads_hex(oid: Seq<u8>)
    ensures
        ref_text(head_name(), oid) == Some(hex_of(oid)),
        resolved_oid(head_name(), Some(oid)) == hex_of(oid),
{
    let h = head_name();
    let m = refs_marker();
    assert(is_ascii_chars(h));
    assert(is_ascii_chars(m));
    is_ascii_chars_encode_utf8(h);
    is_ascii_chars_encode_utf8(m);
    let eh = encode_utf8(h);
    let em = encode_utf8(m);
    assert(eh.len() == 4 && em.len() == 4);
    assert(eh[0] == h[0] as u8);
    assert(em[0] == m[0] as u8);
    assert(eh[0] != em[0]);
    if contains_run(eh, em) {
        let i = choose|i: int| 0 <= i && i + em.len() <= eh.len() && #[trigger] eh.subrange(i, i + em.len()) == em;
        assert(i == 0);
        assert(eh.subrange(0, 4)[0] == eh[0]);
    }
}
} // verus!
