use vstd::prelude::*;
use vstd::string::StringSliceAdditionalSpecFns;
use vstd::utf8::encode_utf8;
use crate::bytes::{
    push_all, views, index_of, lemma_index_of_at, lemma_find_from_index_of, find_from,
    copy_range, split_on, split_bytes, contains_run, has_run, lemma_split_first, lemma_split_none,
};
use crate::text::{utf8_lossy, decode_lossy, joined, join_path, has_char, same_text, store_dir, store_dir_str};
use crate::objects::{blob_kind, blob_kind_str};
use crate::order::{bytes_lt, compare_bytes, Order, lemma_lt_irreflexive, lemma_lt_transitive, lemma_lt_total};
use crate::objects::{StoredObject, hash_object, object_bytes, sha1_digest, tree_kind, tree_kind_str};

verus! {

/// One entry of a tree as stored: name, object id, kind.
pub struct TreeRecord {
    pub name: Vec<u8>,
    pub oid: Vec<u8>,
    pub kind: Vec<u8>,
}

impl TreeRecord {
    pub open spec fn item(&self) -> (Seq<u8>, Seq<u8>, Seq<u8>) {
        (self.name@, self.oid@, self.kind@)
    }
}

/// Entries whose names strictly increase: no name twice, in byte order.
pub open spec fn names_sorted(s: Seq<(Seq<u8>, Seq<u8>, Seq<u8>)>) -> bool {
    forall|i: int, j: int| 0 <= i < j < s.len() ==> bytes_lt(#[trigger] s[i].0, #[trigger] s[j].0)
}

/// Some entry carries the name `n`.
pub open spec fn has_name(s: Seq<(Seq<u8>, Seq<u8>, Seq<u8>)>, n: Seq<u8>) -> bool {
    exists|j: int| 0 <= j < s.len() && (#[trigger] s[j]).0 == n
}

/// The entries as a map from name to (object id, kind).
pub open spec fn entry_map(s: Seq<(Seq<u8>, Seq<u8>, Seq<u8>)>) -> Map<Seq<u8>, (Seq<u8>, Seq<u8>)> {
    Map::new(
        |n: Seq<u8>| has_name(s, n),
        |n: Seq<u8>|
            {
                let j = choose|j: int| 0 <= j < s.len() && (#[trigger] s[j]).0 == n;
                (s[j].1, s[j].2)
            },
    )
}

/// One line of a tree's content: kind, `0`, id, `0`, name, newline.
pub open spec fn tree_line(e: (Seq<u8>, Seq<u8>, Seq<u8>)) -> Seq<u8> {
    e.2 + seq![48u8] + e.1 + seq![48u8] + e.0 + seq![10u8]
}

/// A tree's content: its lines in entry order.
pub open spec fn tree_bytes(s: Seq<(Seq<u8>, Seq<u8>, Seq<u8>)>) -> Seq<u8>
    decreases s.len(),
{
    if s.len() == 0 {
        Seq::empty()
    } else {
        tree_line(s[0]) + tree_bytes(s.drop_first())
    }
}

/// The entries of a directory being recorded, kept in name order with one entry per name,
/// as an ordered map keyed by name keeps them.
pub struct TreeBuilder {
    records: Vec<TreeRecord>,
}

impl TreeBuilder {
    /// The entries, in the order in which they are written.
    pub closed spec fn entries(&self) -> Seq<(Seq<u8>, Seq<u8>, Seq<u8>)> {
        self.records@.map_values(|r: TreeRecord| r.item())
    }

    /// Names strictly increase.
    pub open spec fn wf(&self) -> bool {
        names_sorted(self.entries())
    }

    /// Name to (object id, kind).
    pub open spec fn view(&self) -> Map<Seq<u8>, (Seq<u8>, Seq<u8>)> {
        entry_map(self.entries())
    }

    /// No entries.
    pub fn new() -> (r: TreeBuilder)
        ensures
            r.wf(),
            r.entries() == Seq::<(Seq<u8>, Seq<u8>, Seq<u8>)>::empty(),
            r.view() == Map::<Seq<u8>, (Seq<u8>, Seq<u8>)>::empty(),
    {
        let r = TreeBuilder { records: Vec::new() };
        assert(r.entries() =~= Seq::<(Seq<u8>, Seq<u8>, Seq<u8>)>::empty());
        assert(r.view() =~= Map::<Seq<u8>, (Seq<u8>, Seq<u8>)>::empty());
        r
    }

    /// Number of entries.
    pub fn len(&self) -> (n: usize)
        ensures
            n == self.entries().len(),
    {
        self.records.len()
    }

    /// Records `name` with id `oid` and kind `kind`, replacing an entry of the same name.
    pub fn insert(&mut self, name: &str, oid: Vec<u8>, kind: &str)
        requires
            old(self).wf(),
        ensures
            final(self).wf(),
            final(self).view() == old(self).view().insert(name.spec_bytes(), (oid@, kind.spec_bytes())),
    {
        let mut nm: Vec<u8> = Vec::new();
        push_all(&mut nm, name.as_bytes());
        let mut kd: Vec<u8> = Vec::new();
        push_all(&mut kd, kind.as_bytes());
        let ghost key = nm@;
        let ghost val = (oid@, kd@);
        let ghost olds = self.entries();
        let n = self.records.len();
        let mut i: usize = 0;
        let mut same = false;
        loop
            invariant_except_break
                !same,
            invariant
                n == self.records@.len(),
                self.entries() == olds,
                names_sorted(olds),
                key == nm@,
                i <= n,
                forall|j: int| 0 <= j < i ==> bytes_lt(#[trigger] olds[j].0, key),
            ensures
                i <= n,
                forall|j: int| 0 <= j < i ==> bytes_lt(#[trigger] olds[j].0, key),
                same ==> i < n && olds[i as int].0 == key,
                !same ==> (i < n ==> bytes_lt(key, olds[i as int].0)),
            decreases n - i,
        {
            if i == n {
                break;
            }
            assert(olds[i as int] == self.records@[i as int].item());
            match compare_bytes(self.records[i].name.as_slice(), nm.as_slice()) {
                Order::Less => {
                    i = i + 1;
                },
                Order::Same => {
                    same = true;
                    break;
                },
                Order::Greater => {
                    break;
                },
            }
        }
        let rec = TreeRecord { name: nm, oid, kind: kd };
        assert(rec.item() == (key, val.0, val.1));
        if same {
            self.records.set(i, rec);
            proof {
                let news = olds.update(i as int, (key, val.0, val.1));
                assert(self.entries() =~= news);
                assert(names_sorted(news)) by {
                    assert forall|a: int, b: int| 0 <= a < b < news.len() implies bytes_lt(#[trigger] news[a].0, #[trigger] news[b].0) by {
                        assert(news[a].0 == olds[a].0);
                        assert(news[b].0 == olds[b].0);
                    }
                }
                lemma_map_update(olds, i as int, (key, val.0, val.1));
            }
        } else {
            self.records.insert(i, rec);
            proof {
                let news = olds.insert(i as int, (key, val.0, val.1));
                assert(self.entries() =~= news);
                assert(names_sorted(news)) by {
                    assert forall|a: int, b: int| 0 <= a < b < news.len() implies bytes_lt(#[trigger] news[a].0, #[trigger] news[b].0) by {
                        if b < i {
                            assert(news[a] == olds[a] && news[b] == olds[b]);
                        } else if b == i {
                            assert(news[a] == olds[a]);
                        } else if a < i {
                            assert(news[a] == olds[a] && news[b] == olds[b - 1]);
                            assert(bytes_lt(key, olds[i as int].0));
                            if b - 1 > i {
                                assert(bytes_lt(olds[i as int].0, olds[b - 1].0));
                                lemma_lt_transitive(key, olds[i as int].0, olds[b - 1].0);
                            }
                            lemma_lt_transitive(olds[a].0, key, olds[b - 1].0);
                        } else if a == i {
                            assert(news[b] == olds[b - 1]);
                            if b - 1 > i {
                                assert(bytes_lt(olds[i as int].0, olds[b - 1].0));
                                lemma_lt_transitive(key, olds[i as int].0, olds[b - 1].0);
                            }
                        } else {
                            assert(news[a] == olds[a - 1] && news[b] == olds[b - 1]);
                        }
                    }
                }
                assert(!has_name(olds, key)) by {
                    if has_name(olds, key) {
                        let j = choose|j: int| 0 <= j < olds.len() && (#[trigger] olds[j]).0 == key;
                        lemma_lt_irreflexive(key);
                        if j < i {
                            assert(bytes_lt(olds[j].0, key));
                        } else if j == i {
                            assert(bytes_lt(key, olds[j].0));
                        } else {
                            assert(bytes_lt(olds[i as int].0, olds[j].0));
                            lemma_lt_transitive(key, olds[i as int].0, olds[j].0);
                        }
                    }
                }
                lemma_map_insert(olds, i as int, (key, val.0, val.1));
            }
        }
    }

    /// The tree's content: one line per entry, in name order.
    pub fn encode(&self) -> (r: Vec<u8>)
        ensures
            r@ == tree_bytes(self.entries()),
    {
        let mut out: Vec<u8> = Vec::new();
        let n = self.records.len();
        let ghost s = self.entries();
        assert(s.skip(0) == s);
        for i in 0..n
            invariant
                n == self.records@.len(),
                s == self.entries(),
                out@ + tree_bytes(s.skip(i as int)) == tree_bytes(s),
        {
            let rec = &self.records[i];
            assert(s[i as int] == rec.item());
            assert(s.skip(i as int).drop_first() == s.skip(i + 1));
            let ghost before = out@;
            push_all(&mut out, rec.kind.as_slice());
            out.push(48u8);
            push_all(&mut out, rec.oid.as_slice());
            out.push(48u8);
            push_all(&mut out, rec.name.as_slice());
            out.push(10u8);
            assert(out@ =~= before + tree_line(s[i as int]));
        }
        assert(s.skip(n as int) =~= Seq::<(Seq<u8>, Seq<u8>, Seq<u8>)>::empty());
        assert(out@ + Seq::<u8>::empty() =~= out@);
        out
    }
}

/// The map of entries after one entry's id and kind change in place.
proof fn lemma_map_update(s: Seq<(Seq<u8>, Seq<u8>, Seq<u8>)>, i: int, e: (Seq<u8>, Seq<u8>, Seq<u8>))
    requires
        names_sorted(s),
        0 <= i < s.len(),
        s[i].0 == e.0,
    ensures
        entry_map(s.update(i, e)) == entry_map(s).insert(e.0, (e.1, e.2)),
{
    let t = s.update(i, e);
    lemma_sorted_unique(s);
    lemma_sorted_unique(t);
    assert forall|n: Seq<u8>| has_name(t, n) == (has_name(s, n) || n == e.0) by {
        if has_name(s, n) {
            let j = choose|j: int| 0 <= j < s.len() && (#[trigger] s[j]).0 == n;
            assert(t[j].0 == n);
        }
        if has_name(t, n) {
            let j = choose|j: int| 0 <= j < t.len() && (#[trigger] t[j]).0 == n;
            assert(s[j].0 == n);
        }
        if n == e.0 {
            assert(t[i].0 == n);
        }
    }
    assert forall|n: Seq<u8>| has_name(t, n) implies #[trigger] entry_map(t)[n] == entry_map(s).insert(e.0, (e.1, e.2))[n] by {
        let j = choose|j: int| 0 <= j < t.len() && (#[trigger] t[j]).0 == n;
        if n == e.0 {
            assert(t[i].0 == n);
        } else {
            assert(s[j].0 == n);
            let k = choose|k: int| 0 <= k < s.len() && (#[trigger] s[k]).0 == n;
            assert(j != i);
            assert(t[j] == s[j]);
        }
    }
    assert(entry_map(t) =~= entry_map(s).insert(e.0, (e.1, e.2)));
}

/// The map of entries after a new name is inserted at position `i`.
proof fn lemma_map_insert(s: Seq<(Seq<u8>, Seq<u8>, Seq<u8>)>, i: int, e: (Seq<u8>, Seq<u8>, Seq<u8>))
    requires
        names_sorted(s),
        names_sorted(s.insert(i, e)),
        0 <= i <= s.len(),
        !has_name(s, e.0),
    ensures
        entry_map(s.insert(i, e)) == entry_map(s).insert(e.0, (e.1, e.2)),
{
    let t = s.insert(i, e);
    lemma_sorted_unique(s);
    lemma_sorted_unique(t);
    assert forall|n: Seq<u8>| has_name(t, n) == (has_name(s, n) || n == e.0) by {
        if has_name(s, n) {
            let j = choose|j: int| 0 <= j < s.len() && (#[trigger] s[j]).0 == n;
            if j < i {
                assert(t[j].0 == n);
            } else {
                assert(t[j + 1].0 == n);
            }
        }
        if has_name(t, n) {
            let j = choose|j: int| 0 <= j < t.len() && (#[trigger] t[j]).0 == n;
            if j < i {
                assert(s[j].0 == n);
            } else if j > i {
                assert(s[j - 1].0 == n);
            }
        }
        if n == e.0 {
            assert(t[i].0 == n);
        }
    }
    assert forall|n: Seq<u8>| has_name(t, n) implies #[trigger] entry_map(t)[n] == entry_map(s).insert(e.0, (e.1, e.2))[n] by {
        let j = choose|j: int| 0 <= j < t.len() && (#[trigger] t[j]).0 == n;
        if n == e.0 {
            assert(t[i].0 == n);
        } else {
            let k = choose|k: int| 0 <= k < s.len() && (#[trigger] s[k]).0 == n;
            if k < i {
                assert(t[k] == s[k]);
                assert(t[k].0 == n);
            } else {
                assert(t[k + 1] == s[k]);
                assert(t[k + 1].0 == n);
            }
        }
    }
    assert(entry_map(t) =~= entry_map(s).insert(e.0, (e.1, e.2)));
}

/// In sorted entries a name sits at one position only.
proof fn lemma_sorted_unique(s: Seq<(Seq<u8>, Seq<u8>, Seq<u8>)>)
    requires
        names_sorted(s),
    ensures
        forall|a: int, b: int| 0 <= a < s.len() && 0 <= b < s.len() && (#[trigger] s[a]).0 == (#[trigger] s[b]).0 ==> a == b,
{
    assert forall|a: int, b: int| 0 <= a < s.len() && 0 <= b < s.len() && (#[trigger] s[a]).0 == (#[trigger] s[b]).0 implies a == b by {
        lemma_lt_irreflexive(s[a].0);
        if a < b {
            assert(bytes_lt(s[a].0, s[b].0));
        } else if b < a {
            assert(bytes_lt(s[b].0, s[a].0));
        }
    }
}


/// Dropping the last (greatest) entry removes its name from the map.
proof fn lemma_map_drop_last(s: Seq<(Seq<u8>, Seq<u8>, Seq<u8>)>)
    requires
        names_sorted(s),
        s.len() > 0,
    ensures
        names_sorted(s.drop_last()),
        entry_map(s.drop_last()) == entry_map(s).remove(s.last().0),
{
    let t = s.drop_last();
    let x = s.last().0;
    lemma_sorted_unique(s);
    assert(names_sorted(t)) by {
        assert forall|a: int, b: int| 0 <= a < b < t.len() implies bytes_lt(#[trigger] t[a].0, #[trigger] t[b].0) by {
            assert(t[a] == s[a] && t[b] == s[b]);
        }
    }
    assert forall|n: Seq<u8>| has_name(t, n) == (has_name(s, n) && n != x) by {
        if has_name(t, n) {
            let j = choose|j: int| 0 <= j < t.len() && (#[trigger] t[j]).0 == n;
            assert(s[j].0 == n);
            assert(s[s.len() - 1].0 == x);
        }
        if has_name(s, n) && n != x {
            let j = choose|j: int| 0 <= j < s.len() && (#[trigger] s[j]).0 == n;
            assert(j != s.len() - 1);
            assert(t[j].0 == n);
        }
    }
    assert forall|n: Seq<u8>| has_name(t, n) implies #[trigger] entry_map(t)[n] == entry_map(s)[n] by {
        let j = choose|j: int| 0 <= j < t.len() && (#[trigger] t[j]).0 == n;
        let k = choose|k: int| 0 <= k < s.len() && (#[trigger] s[k]).0 == n;
        assert(s[j] == t[j]);
    }
    assert(entry_map(t) =~= entry_map(s).remove(x));
}

/// Sorted entries are determined by their map: two sorted entry lists that record the same
/// ids and kinds under the same names are the same list, so they have the same content.
pub proof fn lemma_tree_canonical(a: Seq<(Seq<u8>, Seq<u8>, Seq<u8>)>, b: Seq<(Seq<u8>, Seq<u8>, Seq<u8>)>)
    requires
        names_sorted(a),
        names_sorted(b),
        entry_map(a) == entry_map(b),
    ensures
        a == b,
        tree_bytes(a) == tree_bytes(b),
    decreases a.len(),
{
    lemma_sorted_unique(a);
    lemma_sorted_unique(b);
    if a.len() == 0 || b.len() == 0 {
        if a.len() > 0 {
            assert(has_name(a, a[0].0));
            assert(entry_map(a).dom().contains(a[0].0));
            assert(entry_map(b).dom().contains(a[0].0));
        }
        if b.len() > 0 {
            assert(has_name(b, b[0].0));
            assert(entry_map(b).dom().contains(b[0].0));
            assert(entry_map(a).dom().contains(b[0].0));
        }
        assert(a =~= b);
    } else {
        let la = a.len() - 1;
        let lb = b.len() - 1;
        let x = a[la].0;
        let y = b[lb].0;
        assert(has_name(a, x));
        assert(has_name(b, y));
        assert(entry_map(b).dom().contains(x));
        assert(entry_map(a).dom().contains(y));
        let j = choose|j: int| 0 <= j < b.len() && (#[trigger] b[j]).0 == x;
        let k = choose|k: int| 0 <= k < a.len() && (#[trigger] a[k]).0 == y;
        lemma_lt_irreflexive(x);
        lemma_lt_total(x, y);
        if j < lb {
            assert(bytes_lt(x, y));
            if k < la {
                assert(bytes_lt(y, x));
            }
        }
        assert(x == y);
        let ea = entry_map(a)[x];
        assert(ea == (a[la].1, a[la].2));
        assert(entry_map(b)[x] == (b[lb].1, b[lb].2));
        assert(a[la] == b[lb]);
        lemma_map_drop_last(a);
        lemma_map_drop_last(b);
        lemma_tree_canonical(a.drop_last(), b.drop_last());
        assert(a =~= a.drop_last().push(a[la]));
        assert(b =~= b.drop_last().push(b[lb]));
    }
}

/// Two trees that record the same names, ids and kinds have the same entries, in the same
/// order, whatever order the entries were recorded in.
pub proof fn lemma_builder_canonical(x: TreeBuilder, y: TreeBuilder)
    requires
        x.wf(),
        y.wf(),
        x.view() == y.view(),
    ensures
        x.entries() == y.entries(),
{
    lemma_tree_canonical(x.entries(), y.entries());
}


/// Makes the tree object for the recorded entries.
pub fn tree_object(entries: &TreeBuilder) -> (r: StoredObject)
    ensures
        r.bytes@ == object_bytes(encode_utf8(tree_kind()), tree_bytes(entries.entries())),
        r.oid@ == sha1_digest(r.bytes@),
        r.oid@.len() == 20,
{
    let content = entries.encode();
    hash_object(content, tree_kind_str())
}

/// The three fields of a tree line, split at its first two `0` bytes (as `splitn(3, ..)`
/// does); nothing when the line holds fewer than two.
pub open spec fn entry_fields(line: Seq<u8>) -> Option<(Seq<u8>, Seq<u8>, Seq<u8>)> {
    match index_of(line, 48u8) {
        Some(i) => {
            let rest = line.skip(i + 1);
            match index_of(rest, 48u8) {
                Some(j) => Some((line.take(i), rest.take(j), rest.skip(j + 1))),
                None => None,
            }
        },
        None => None,
    }
}

/// The entries read from a tree's lines: kind and name decoded leniently, lines
/// without three fields skipped.
pub open spec fn entries_of_lines(lines: Seq<Seq<u8>>) -> Seq<(Seq<char>, Seq<u8>, Seq<char>)>
    decreases lines.len(),
{
    if lines.len() == 0 {
        Seq::empty()
    } else {
        let rest = entries_of_lines(lines.drop_first());
        match entry_fields(lines[0]) {
            Some((k, o, n)) => seq![(utf8_lossy(k), o, utf8_lossy(n))] + rest,
            None => rest,
        }
    }
}

/// The entries that a tree's content holds.
pub open spec fn tree_view(content: Seq<u8>) -> Seq<(Seq<char>, Seq<u8>, Seq<char>)> {
    entries_of_lines(split_on(content, 10u8))
}

/// One entry read from a tree: its kind, object id and name.
pub struct TreeEntry {
    pub kind: String,
    pub oid: Vec<u8>,
    pub name: String,
}

impl TreeEntry {
    pub open spec fn item(&self) -> (Seq<char>, Seq<u8>, Seq<char>) {
        (self.kind@, self.oid@, self.name@)
    }
}

/// The entry items of a list of entries.
pub open spec fn entry_items(v: Seq<TreeEntry>) -> Seq<(Seq<char>, Seq<u8>, Seq<char>)> {
    v.map_values(|e: TreeEntry| e.item())
}

fn parse_entry_line(line: &[u8]) -> (r: Option<TreeEntry>)
    ensures
        match r {
            Some(e) => entry_fields(line@) matches Some((k, o, n)) && e.item() == (utf8_lossy(k), o, utf8_lossy(n)),
            None => entry_fields(line@) is None,
        },
{
    let len = line.len();
    let first = find_from(line, 48u8, 0);
    proof {
        lemma_find_from_index_of(line@, 48u8, 0, match first { Some(i) => Some(i as int), None => None });
        assert(line@.skip(0) == line@);
    }
    match first {
        None => None,
        Some(i) => {
            let second = find_from(line, 48u8, i + 1);
            proof {
                lemma_find_from_index_of(line@, 48u8, i + 1, match second { Some(j) => Some(j as int), None => None });
            }
            match second {
                None => None,
                Some(j) => {
                    let kind_bytes = copy_range(line, 0, i);
                    let oid = copy_range(line, i + 1, j);
                    let name_bytes = copy_range(line, j + 1, len);
                    proof {
                        let rest = line@.skip(i + 1);
                        assert(kind_bytes@ == line@.take(i as int));
                        assert(oid@ == rest.take(j - i - 1));
                        assert(name_bytes@ == rest.skip(j - i));
                    }
                    let kind = decode_lossy(kind_bytes.as_slice());
                    let name = decode_lossy(name_bytes.as_slice());
                    Some(TreeEntry { kind, oid, name })
                },
            }
        },
    }
}

/// Reads the entries of a tree's content, as `tree_view` says.
pub fn parse_tree_entries(content: &[u8]) -> (r: Vec<TreeEntry>)
    ensures
        entry_items(r@) == tree_view(content@),
{
    let lines = split_bytes(content, 10u8);
    let ghost ls = views(lines@);
    let mut out: Vec<TreeEntry> = Vec::new();
    let n = lines.len();
    assert(ls.skip(0) == ls);
    for k in 0..n
        invariant
            n == lines@.len(),
            ls == views(lines@),
            ls == split_on(content@, 10u8),
            entry_items(out@) + entries_of_lines(ls.skip(k as int)) == tree_view(content@),
    {
        let line = &lines[k];
        assert(ls[k as int] == line@);
        assert(ls.skip(k as int)[0] == line@);
        assert(ls.skip(k as int).drop_first() == ls.skip(k + 1));
        let parsed = parse_entry_line(line.as_slice());
        let ghost before = out@;
        match parsed {
            Some(e) => {
                out.push(e);
                assert(entry_items(out@) == entry_items(before).push(e.item()));
                assert(entry_items(out@) + entries_of_lines(ls.skip(k + 1))
                    =~= entry_items(before) + entries_of_lines(ls.skip(k as int)));
            },
            None => {},
        }
    }
    assert(ls.skip(n as int) =~= Seq::<Seq<u8>>::empty());
    assert(entry_items(out@) + Seq::<(Seq<char>, Seq<u8>, Seq<char>)>::empty() =~= entry_items(out@));
    out
}


/// A tree line's fields read back: kind, id and name, when kind and id hold neither a `0`
/// nor a newline and the name holds no newline.
proof fn lemma_entry_fields(e: (Seq<u8>, Seq<u8>, Seq<u8>))
    requires
        forall|i: int| 0 <= i < e.2.len() ==> e.2[i] != 48u8,
        forall|i: int| 0 <= i < e.1.len() ==> e.1[i] != 48u8,
    ensures
        entry_fields(e.2 + seq![48u8] + e.1 + seq![48u8] + e.0) == Some((e.2, e.1, e.0)),
{
    let line = e.2 + seq![48u8] + e.1 + seq![48u8] + e.0;
    assert forall|j: int| 0 <= j < e.2.len() implies line[j] != 48u8 by {
        assert(line[j] == e.2[j]);
    }
    lemma_index_of_at(line, 48u8, e.2.len() as int);
    let rest = line.skip(e.2.len() as int + 1);
    assert(rest =~= e.1 + seq![48u8] + e.0);
    assert forall|j: int| 0 <= j < e.1.len() implies rest[j] != 48u8 by {
        assert(rest[j] == e.1[j]);
    }
    lemma_index_of_at(rest, 48u8, e.1.len() as int);
    assert(line.take(e.2.len() as int) =~= e.2);
    assert(rest.take(e.1.len() as int) =~= e.1);
    assert(rest.skip(e.1.len() as int + 1) =~= e.0);
}

/// The fields of an entry as they read back.
pub open spec fn read_back(e: (Seq<u8>, Seq<u8>, Seq<u8>)) -> (Seq<char>, Seq<u8>, Seq<char>) {
    (utf8_lossy(e.2), e.1, utf8_lossy(e.0))
}

/// A field free of the byte `b`.
pub open spec fn free_of(s: Seq<u8>, b: u8) -> bool {
    forall|i: int| 0 <= i < s.len() ==> s[i] != b
}

/// Entries whose kinds and ids hold neither `0` nor a newline, and whose names hold no newline.
pub open spec fn entries_writable(s: Seq<(Seq<u8>, Seq<u8>, Seq<u8>)>) -> bool {
    forall|i: int|
        0 <= i < s.len() ==> {
            &&& free_of((#[trigger] s[i]).2, 48u8)
            &&& free_of(s[i].2, 10u8)
            &&& free_of(s[i].1, 48u8)
            &&& free_of(s[i].1, 10u8)
            &&& free_of(s[i].0, 10u8)
        }
}

/// A tree written and read back gives back every entry, in order: its kind and name
/// (decoded leniently) and exactly its id, when no field holds a byte that the format
/// uses as a separator.
pub proof fn lemma_tree_roundtrip(s: Seq<(Seq<u8>, Seq<u8>, Seq<u8>)>)
    requires
        entries_writable(s),
    ensures
        tree_view(tree_bytes(s)) == s.map_values(|e: (Seq<u8>, Seq<u8>, Seq<u8>)| read_back(e)),
    decreases s.len(),
{
    if s.len() == 0 {
        lemma_split_none(Seq::<u8>::empty(), 10u8);
        let ls = seq![Seq::<u8>::empty()];
        assert(entry_fields(Seq::<u8>::empty()) is None);
        assert(ls.drop_first() =~= Seq::<Seq<u8>>::empty());
        assert(tree_bytes(s) =~= Seq::<u8>::empty());
        assert(split_on(tree_bytes(s), 10u8) == ls);
        assert(ls[0] == Seq::<u8>::empty());
        assert(index_of(Seq::<u8>::empty(), 48u8) is None);
        assert(entries_of_lines(Seq::<Seq<u8>>::empty()) == Seq::<(Seq<char>, Seq<u8>, Seq<char>)>::empty());
        assert(entries_of_lines(ls) =~= Seq::<(Seq<char>, Seq<u8>, Seq<char>)>::empty());
        assert(s.map_values(|e: (Seq<u8>, Seq<u8>, Seq<u8>)| read_back(e)) =~= Seq::<(Seq<char>, Seq<u8>, Seq<char>)>::empty());
    } else {
        let e = s[0];
        let rest = s.drop_first();
        assert(entries_writable(rest)) by {
            assert forall|i: int| 0 <= i < rest.len() implies {
                &&& free_of((#[trigger] rest[i]).2, 48u8)
                &&& free_of(rest[i].2, 10u8)
                &&& free_of(rest[i].1, 48u8)
                &&& free_of(rest[i].1, 10u8)
                &&& free_of(rest[i].0, 10u8)
            } by {
                assert(rest[i] == s[i + 1]);
            }
        }
        lemma_tree_roundtrip(rest);
        assert(free_of(s[0].2, 48u8));
        let l = e.2 + seq![48u8] + e.1 + seq![48u8] + e.0;
        assert(tree_line(e) =~= l + seq![10u8]);
        assert forall|i: int| 0 <= i < l.len() implies l[i] != 10u8 by {
            if i < e.2.len() {
                assert(l[i] == e.2[i]);
            } else if i == e.2.len() {
            } else if i < e.2.len() + 1 + e.1.len() {
                assert(l[i] == e.1[i - e.2.len() - 1]);
            } else if i == e.2.len() + 1 + e.1.len() {
            } else {
                assert(l[i] == e.0[i - e.2.len() - 2 - e.1.len()]);
            }
        }
        assert(tree_bytes(s) =~= l + seq![10u8] + tree_bytes(rest));
        lemma_split_first(l, tree_bytes(rest), 10u8);
        lemma_entry_fields(e);
        let ls = seq![l] + split_on(tree_bytes(rest), 10u8);
        assert(ls[0] == l);
        assert(ls.drop_first() =~= split_on(tree_bytes(rest), 10u8));
        assert(split_on(tree_bytes(s), 10u8) == ls);
        assert(entries_of_lines(ls) == seq![read_back(e)] + entries_of_lines(ls.drop_first()));
        assert(s.map_values(|x: (Seq<u8>, Seq<u8>, Seq<u8>)| read_back(x)) =~= seq![read_back(e)]
            + rest.map_values(|x: (Seq<u8>, Seq<u8>, Seq<u8>)| read_back(x)));
    }
}

/// What to do with one entry of a tree being read into a working directory.
pub enum TreeStep {
    /// Write the blob `oid` to `path`.
    Blob { path: String, oid: Vec<u8> },
    /// Read the tree `oid` into the directory `path`.
    Tree { path: String, oid: Vec<u8> },
}

/// Why an entry of a tree cannot be read into a working directory.
pub enum EntryFault {
    /// The name holds a `/`.
    SlashInName,
    /// The name is `.` or `..`.
    DotName,
    /// The kind is neither `blob` nor `tree`.
    UnknownKind,
}

/// The names that refer to a directory itself or its parent.
pub open spec fn dot_name(n: Seq<char>) -> bool {
    n == seq!['.'] || n == seq!['.', '.']
}

/// Decides what one tree entry becomes under the directory `base`: a name with a `/` is
/// refused first, then `.` and `..`; a blob is written to, and a tree read into, `base`
/// joined with the name; any other kind is refused.
pub fn resolve_entry(base: &str, entry: &TreeEntry) -> (r: Result<TreeStep, EntryFault>)
    ensures
        match r {
            Err(f) => {
                ||| (f is SlashInName && entry.name@.contains('/'))
                ||| (f is DotName && !entry.name@.contains('/') && dot_name(entry.name@))
                ||| (f is UnknownKind && !entry.name@.contains('/') && !dot_name(entry.name@)
                    && entry.kind@ != blob_kind() && entry.kind@ != tree_kind())
            },
            Ok(TreeStep::Blob { path, oid }) => {
                &&& !entry.name@.contains('/')
                &&& !dot_name(entry.name@)
                &&& entry.kind@ == blob_kind()
                &&& path@ == joined(base@, entry.name@)
                &&& oid@ == entry.oid@
            },
            Ok(TreeStep::Tree { path, oid }) => {
                &&& !entry.name@.contains('/')
                &&& !dot_name(entry.name@)
                &&& entry.kind@ == tree_kind()
                &&& path@ == joined(base@, entry.name@)
                &&& oid@ == entry.oid@
            },
        },
{
    let name = entry.name.as_str();
    if has_char(name, '/') {
        return Err(EntryFault::SlashInName);
    }
    let dot = ".";
    let dotdot = "..";
    proof {
        reveal_strlit(".");
        reveal_strlit("..");
    }
    assert(dot@ =~= seq!['.']);
    assert(dotdot@ =~= seq!['.', '.']);
    if same_text(name, dotdot) || same_text(name, dot) {
        return Err(EntryFault::DotName);
    }
    let kind = entry.kind.as_str();
    if same_text(kind, blob_kind_str()) {
        let path = join_path(base, name);
        let oid = copy_range(entry.oid.as_slice(), 0, entry.oid.len());
        assert(entry.oid@.subrange(0, entry.oid@.len() as int) == entry.oid@);
        Ok(TreeStep::Blob { path, oid })
    } else if same_text(kind, tree_kind_str()) {
        let path = join_path(base, name);
        let oid = copy_range(entry.oid.as_slice(), 0, entry.oid.len());
        assert(entry.oid@.subrange(0, entry.oid@.len() as int) == entry.oid@);
        Ok(TreeStep::Tree { path, oid })
    } else {
        Err(EntryFault::UnknownKind)
    }
}

/// The markers whose presence anywhere in a path keeps it out of trees and checkouts.
pub open spec fn ignore_markers() -> Seq<Seq<char>> {
    seq![
        store_dir(),
        seq!['t', 'a', 'r', 'g', 'e', 't'],
        seq!['e', 'h', '-', 'g', 'i', 't'],
        seq!['.', 'g', 'i', 't'],
        seq!['s', 'r', 'c'],
    ]
}

/// A path is ignored when its bytes contain one of the markers' bytes.
pub open spec fn ignored(path: Seq<u8>) -> bool {
    exists|i: int| 0 <= i < ignore_markers().len() && contains_run(path, encode_utf8(#[trigger] ignore_markers()[i]))
}

/// Whether a path is kept out of trees and checkouts.
pub fn is_ignored(path: &str) -> (r: bool)
    ensures
        r == ignored(path.spec_bytes()),
{
    let p = path.as_bytes();
    let target = "target";
    let named = "eh-git";
    let git = ".git";
    let src = "src";
    proof {
        reveal_strlit("target");
        reveal_strlit("eh-git");
        reveal_strlit(".git");
        reveal_strlit("src");
    }
    let ghost ms = ignore_markers();
    assert(ms[0] == store_dir());
    assert(ms[1] == target@);
    assert(ms[2] == named@);
    assert(ms[3] == git@);
    assert(ms[4] == src@);
    let r = has_run(p, store_dir_str().as_bytes()) || has_run(p, target.as_bytes()) || has_run(p, named.as_bytes())
        || has_run(p, git.as_bytes()) || has_run(p, src.as_bytes());
    r
}

/// The only names refused as referring to a directory itself or its parent are `.` and
/// `..`: one or two characters, all dots. Any other name, such as `.env`, is not.
pub proof fn lemma_dot_names(n: Seq<char>)
    ensures
        dot_name(n) == (1 <= n.len() <= 2 && forall|i: int| 0 <= i < n.len() ==> n[i] == '.'),
{
    if 1 <= n.len() <= 2 && forall|i: int| 0 <= i < n.len() ==> n[i] == '.' {
        if n.len() == 1 {
            assert(n =~= seq!['.']);
        } else {
            assert(n[0] == '.' && n[1] == '.');
            assert(n =~= seq!['.', '.']);
        }
    }
}
} // verus!
