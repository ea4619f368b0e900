use vstd::prelude::*;
use vstd::string::StringSliceAdditionalSpecFns;
use sha1::{Digest, Sha1};
use crate::bytes::{index_of, lemma_index_of_at, lemma_find_from_index_of, find_from, copy_range, push_all};
use crate::text::{utf8_lossy, decode_lossy, same_text, store_dir, store_dir_str};

verus! {

/// What `Sha1::digest` returns for a byte string.
pub uninterp spec fn sha1_digest(data: Seq<u8>) -> Seq<u8>;

/// Calls `<sha1::Sha1 as digest::Digest>::digest` and copies the digest into a vector.
/// Trusted: the result is the digest of these bytes (named, not restated) and is 20 bytes
/// long, the output size `U20` that the crate declares for SHA-1.
#[verifier::external_body]
fn calculate_sha(data: &[u8]) -> (oid: Vec<u8>)
    ensures
        oid@ == sha1_digest(data@),
        oid@.len() == 20,
{
    Sha1::digest(data).to_vec()
}

/// A stored object: its kind, a NUL byte, then its content.
pub open spec fn object_bytes(kind: Seq<u8>, data: Seq<u8>) -> Seq<u8> {
    kind + seq![0u8] + data
}

/// An object ready to be written to the store: its id and the bytes the file holds.
pub struct StoredObject {
    pub oid: Vec<u8>,
    pub bytes: Vec<u8>,
}

/// The bytes of an object of kind `obj_type` with content `data`.
pub fn encode_object(data: &[u8], obj_type: &str) -> (r: Vec<u8>)
    ensures
        r@ == object_bytes(obj_type.spec_bytes(), data@),
{
    let mut obj: Vec<u8> = Vec::new();
    push_all(&mut obj, obj_type.as_bytes());
    obj.push(0);
    push_all(&mut obj, data);
    obj
}

/// Encodes an object and names it by the SHA-1 of its stored bytes.
pub fn hash_object(data: Vec<u8>, obj_type: &str) -> (r: StoredObject)
    ensures
        r.bytes@ == object_bytes(obj_type.spec_bytes(), data@),
        r.oid@ == sha1_digest(r.bytes@),
        r.oid@.len() == 20,
{
    let bytes = encode_object(data.as_slice(), obj_type);
    let oid = calculate_sha(bytes.as_slice());
    StoredObject { oid, bytes }
}

/// What reading an object's bytes gives: the kind (decoded leniently) and the content,
/// split at the first NUL byte; nothing when there is no NUL byte.
pub open spec fn decoded_object(obj: Seq<u8>) -> Option<(Seq<char>, Seq<u8>)> {
    match index_of(obj, 0) {
        Some(p) => Some((utf8_lossy(obj.take(p)), obj.skip(p + 1))),
        None => None,
    }
}

/// Splits a stored object into its kind and content.
pub fn parse_object(obj: &[u8]) -> (r: Option<(String, Vec<u8>)>)
    ensures
        match r {
            Some((kind, content)) => decoded_object(obj@) == Some((kind@, content@)),
            None => decoded_object(obj@) is None,
        },
{
    let n = obj.len();
    let found = find_from(obj, 0, 0);
    proof {
        lemma_find_from_index_of(obj@, 0, 0, match found { Some(i) => Some(i as int), None => None });
        assert(obj@.skip(0) == obj@);
    }
    match found {
        Some(p) => {
            let kind_bytes = copy_range(obj, 0, p);
            let kind = decode_lossy(kind_bytes.as_slice());
            let content = copy_range(obj, p + 1, n);
            assert(kind_bytes@ == obj@.take(p as int));
            assert(content@ == obj@.skip(p + 1));
            Some((kind, content))
        },
        None => None,
    }
}

/// Whether a found kind is the one the caller expects (any kind when none is expected).
pub fn type_matches(found: &String, expected: Option<&str>) -> (r: bool)
    ensures
        r == match expected {
            Some(e) => found@ == e@,
            None => true,
        },
{
    match expected {
        Some(e) => same_text(found.as_str(), e),
        None => true,
    }
}

/// The file that holds the object whose hex id is `oid_hex`.
pub open spec fn object_file(oid_hex: Seq<char>) -> Seq<char> {
    store_dir() + seq!['/', 'o', 'b', 'j', 'e', 'c', 't', 's', '/'] + oid_hex
}

/// The path of the object with hex id `oid_hex`.
pub fn object_path(oid_hex: &str) -> (r: String)
    ensures
        r@ == object_file(oid_hex@),
{
    let mut r = store_dir_str().to_owned();
    let seg = "/objects/";
    proof {
        reveal_strlit("/objects/");
    }
    r.append(seg);
    r.append(oid_hex);
    r
}

/// An object written and then read back gives back its kind (as the lenient decoding of
/// the kind's bytes) and exactly its content, whenever the kind holds no NUL byte.
pub proof fn lemma_object_roundtrip(kind: Seq<u8>, data: Seq<u8>)
    requires
        forall|i: int| 0 <= i < kind.len() ==> kind[i] != 0,
    ensures
        decoded_object(object_bytes(kind, data)) == Some((utf8_lossy(kind), data)),
{
    let obj = object_bytes(kind, data);
    assert forall|j: int| 0 <= j < kind.len() implies obj[j] != 0 by {
        assert(obj[j] == kind[j]);
    }
    lemma_index_of_at(obj, 0, kind.len() as int);
    assert(obj.take(kind.len() as int) == kind);
    assert(obj.skip(kind.len() as int + 1) == data);
}


/// The kind names the store uses.
pub open spec fn blob_kind() -> Seq<char> {
    seq!['b', 'l', 'o', 'b']
}

pub open spec fn tree_kind() -> Seq<char> {
    seq!['t', 'r', 'e', 'e']
}

pub open spec fn commit_kind() -> Seq<char> {
    seq!['c', 'o', 'm', 'm', 'i', 't']
}

/// `"blob"`.
pub fn blob_kind_str() -> (s: &'static str)
    ensures
        s@ == blob_kind(),
{
    proof {
        reveal_strlit("blob");
    }
    "blob"
}

/// `"tree"`.
pub fn tree_kind_str() -> (s: &'static str)
    ensures
        s@ == tree_kind(),
{
    proof {
        reveal_strlit("tree");
    }
    "tree"
}

/// `"commit"`.
pub fn commit_kind_str() -> (s: &'static str)
    ensures
        s@ == commit_kind(),
{
    proof {
        reveal_strlit("commit");
    }
    "commit"
}

} // verus!
