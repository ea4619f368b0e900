use vstd::prelude::*;
use crate::bytes::{index_of, after_first, before_first, split_on, views, split_bytes, has_prefix, find_from, copy_range, starts_with};
use crate::commit::{tree_tag, parent_tag, field_sep, newline, commit_bytes, lemma_commit_lines, lemma_header_value};
use crate::hex::{hex_of, to_hex};
use crate::text::{utf8_lossy, decode_lossy, chars_of, push_char};
use crate::tree::{tree_view, parse_tree_entries, entry_items};

verus! {

/// A text printed line by line: each line ends with a newline (a final newline is added
/// when the text lacks one), and a carriage return before a newline is dropped.
pub open spec fn blob_text(s: Seq<char>) -> Seq<char>
    decreases s.len(),
{
    if s.len() == 0 {
        Seq::empty()
    } else if s.len() >= 2 && s[0] == '\r' && s[1] == '\n' {
        seq!['\n'] + blob_text(s.skip(2))
    } else if s[0] == '\n' {
        seq!['\n'] + blob_text(s.skip(1))
    } else if s.len() == 1 {
        seq![s[0], '\n']
    } else {
        seq![s[0]] + blob_text(s.skip(1))
    }
}

/// What listing a blob prints: its content decoded leniently, line by line.
pub fn render_blob(content: &[u8]) -> (r: String)
    ensures
        r@ == blob_text(utf8_lossy(content@)),
{
    let text = decode_lossy(content);
    let cs = chars_of(text.as_str());
    let ghost s = cs@;
    let n = cs.len();
    let mut out = String::new();
    let mut i: usize = 0;
    assert(s.skip(0) == s);
    while i < n
        invariant
            n == s.len(),
            s == cs@,
            i <= n,
            out@ + blob_text(s.skip(i as int)) == blob_text(s),
        decreases n - i,
    {
        let c = cs[i];
        let ghost t = s.skip(i as int);
        let ghost before = out@;
        assert(t[0] == c);
        if c == '\r' && i + 1 < n && cs[i + 1] == '\n' {
            assert(t[1] == '\n');
            assert(t.skip(2) == s.skip(i + 2));
            push_char(&mut out, '\n');
            assert(out@ + blob_text(s.skip(i + 2)) =~= before + blob_text(t));
            i = i + 2;
        } else if c == '\n' {
            assert(t.skip(1) == s.skip(i + 1));
            push_char(&mut out, '\n');
            assert(out@ + blob_text(s.skip(i + 1)) =~= before + blob_text(t));
            i = i + 1;
        } else if i + 1 == n {
            assert(t.len() == 1);
            push_char(&mut out, c);
            push_char(&mut out, '\n');
            assert(s.skip(i + 1) =~= Seq::<char>::empty());
            assert(blob_text(s.skip(i + 1)) =~= Seq::<char>::empty());
            assert(out@ + blob_text(s.skip(i + 1)) =~= before + blob_text(t));
            i = i + 1;
        } else {
            assert(t.skip(1) == s.skip(i + 1));
            push_char(&mut out, c);
            assert(out@ + blob_text(s.skip(i + 1)) =~= before + blob_text(t));
            i = i + 1;
        }
    }
    assert(s.skip(n as int) =~= Seq::<char>::empty());
    assert(out@ + Seq::<char>::empty() =~= out@);
    out
}

/// One listed tree entry: kind, space, id in hex, space, name, newline.
pub open spec fn tree_listing(entries: Seq<(Seq<char>, Seq<u8>, Seq<char>)>) -> Seq<char>
    decreases entries.len(),
{
    if entries.len() == 0 {
        Seq::empty()
    } else {
        let e = entries[0];
        e.0 + seq![' '] + hex_of(e.1) + seq![' '] + e.2 + seq!['\n'] + tree_listing(entries.drop_first())
    }
}

/// What listing a tree prints: one line per readable entry.
pub fn render_tree(content: &[u8]) -> (r: String)
    ensures
        r@ == tree_listing(tree_view(content@)),
{
    let entries = parse_tree_entries(content);
    let ghost es = entry_items(entries@);
    let n = entries.len();
    let mut out = String::new();
    let sp = " ";
    let nl = "\n";
    proof {
        reveal_strlit(" ");
        reveal_strlit("\n");
    }
    assert(es.skip(0) == es);
    for k in 0..n
        invariant
            n == entries@.len(),
            es == entry_items(entries@),
            es == tree_view(content@),
            sp@ == seq![' '],
            nl@ == seq!['\n'],
            out@ + tree_listing(es.skip(k as int)) == tree_listing(es),
    {
        let e = &entries[k];
        let ghost before = out@;
        assert(es.skip(k as int)[0] == e.item());
        assert(es.skip(k as int).drop_first() == es.skip(k + 1));
        out.append(e.kind.as_str());
        out.append(sp);
        let h = to_hex(e.oid.as_slice());
        out.append(h.as_str());
        out.append(sp);
        out.append(e.name.as_str());
        out.append(nl);
        assert(out@ + tree_listing(es.skip(k + 1)) =~= before + tree_listing(es.skip(k as int)));
    }
    assert(es.skip(n as int) =~= Seq::<(Seq<char>, Seq<u8>, Seq<char>)>::empty());
    assert(out@ + Seq::<char>::empty() =~= out@);
    out
}

/// What listing a commit prints for its lines: a `tree`/`parent` line as its tag, a space,
/// the value in hex and a newline; any other line decoded leniently, without a newline.
pub open spec fn commit_listing(lines: Seq<Seq<u8>>) -> Seq<char>
    decreases lines.len(),
{
    if lines.len() == 0 {
        Seq::empty()
    } else {
        let line = lines[0];
        let head = if starts_with(line, tree_tag()) || starts_with(line, parent_tag()) {
            utf8_lossy(before_first(line, field_sep())) + seq![' '] + hex_of(
                after_first(line, field_sep()).unwrap_or(Seq::empty()),
            ) + seq!['\n']
        } else if line.len() == 0 {
            Seq::empty()
        } else {
            utf8_lossy(line)
        };
        head + commit_listing(lines.drop_first())
    }
}

/// A commit line that can be listed: a `tree`/`parent` line must hold a `0` separator.
pub open spec fn listable(line: Seq<u8>) -> bool {
    (starts_with(line, tree_tag()) || starts_with(line, parent_tag())) ==> index_of(line, field_sep()) is Some
}

/// How many lines, from the first, can be listed before one that cannot.
pub open spec fn listable_lines(lines: Seq<Seq<u8>>) -> int
    decreases lines.len(),
{
    if lines.len() == 0 {
        0
    } else if listable(lines[0]) {
        1 + listable_lines(lines.drop_first())
    } else {
        0
    }
}

proof fn lemma_listing_append(a: Seq<Seq<u8>>, b: Seq<Seq<u8>>)
    ensures
        commit_listing(a + b) == commit_listing(a) + commit_listing(b),
    decreases a.len(),
{
    if a.len() == 0 {
        assert(a + b =~= b);
        assert(commit_listing(a) =~= Seq::<char>::empty());
        assert(commit_listing(a) + commit_listing(b) =~= commit_listing(b));
    } else {
        lemma_listing_append(a.drop_first(), b);
        assert((a + b).drop_first() =~= a.drop_first() + b);
        assert((a + b)[0] == a[0]);
        assert(commit_listing(a + b) =~= commit_listing(a) + commit_listing(b));
    }
}

proof fn lemma_listable_prefix(lines: Seq<Seq<u8>>, k: int)
    requires
        0 <= k <= lines.len(),
        forall|j: int| 0 <= j < k ==> listable(#[trigger] lines[j]),
    ensures
        k < lines.len() && !listable(lines[k]) ==> listable_lines(lines) == k,
        k == lines.len() ==> listable_lines(lines) == k,
    decreases k,
{
    if k > 0 {
        let t = lines.drop_first();
        assert forall|j: int| 0 <= j < k - 1 implies listable(#[trigger] t[j]) by {
            assert(t[j] == lines[j + 1]);
        }
        lemma_listable_prefix(t, k - 1);
        assert(listable(lines[0]));
        if k < lines.len() {
            assert(t[k - 1] == lines[k]);
        }
    }
}

/// What listing a commit prints: the listing of its lines up to the first one that cannot
/// be listed, and whether all could be (when one cannot, listing stops there with a panic).
pub fn render_commit(content: &[u8]) -> (r: (String, bool))
    ensures
        r.0@ == commit_listing(split_on(content@, newline()).take(listable_lines(split_on(content@, newline())))),
        r.1 == (listable_lines(split_on(content@, newline())) == split_on(content@, newline()).len()),
{
    let lines = split_bytes(content, 10u8);
    let ghost ls = views(lines@);
    let mut tt: Vec<u8> = Vec::new();
    tt.push(116u8);
    tt.push(114u8);
    tt.push(101u8);
    tt.push(101u8);
    let mut pt: Vec<u8> = Vec::new();
    pt.push(112u8);
    pt.push(97u8);
    pt.push(114u8);
    pt.push(101u8);
    pt.push(110u8);
    pt.push(116u8);
    assert(tt@ =~= tree_tag());
    assert(pt@ =~= parent_tag());
    let sp = " ";
    let nl = "\n";
    proof {
        reveal_strlit(" ");
        reveal_strlit("\n");
    }
    let n = lines.len();
    let mut out = String::new();
    assert(ls.take(0) =~= Seq::<Seq<u8>>::empty());
    for k in 0..n
        invariant
            n == lines@.len(),
            ls == views(lines@),
            ls == split_on(content@, newline()),
            tt@ == tree_tag(),
            pt@ == parent_tag(),
            sp@ == seq![' '],
            nl@ == seq!['\n'],
            forall|j: int| 0 <= j < k ==> listable(#[trigger] ls[j]),
            out@ == commit_listing(ls.take(k as int)),
    {
        let line = &lines[k];
        let ghost before = out@;
        assert(ls[k as int] == line@);
        let ln = line.len();
        proof {
            lemma_listing_append(ls.take(k as int), seq![line@]);
            assert(ls.take(k + 1) =~= ls.take(k as int) + seq![line@]);
            assert(seq![line@].drop_first() =~= Seq::<Seq<u8>>::empty());
            assert(seq![line@][0] == line@);
            assert(commit_listing(Seq::<Seq<u8>>::empty()) =~= Seq::<char>::empty());
        }
        if has_prefix(line.as_slice(), tt.as_slice()) || has_prefix(line.as_slice(), pt.as_slice()) {
            let found = find_from(line.as_slice(), 48u8, 0);
            proof {
                crate::bytes::lemma_find_from_index_of(line@, 48u8, 0, match found { Some(i) => Some(i as int), None => None });
                assert(line@.skip(0) == line@);
            }
            match found {
                Some(p) => {
                    let tag = copy_range(line.as_slice(), 0, p);
                    let value = copy_range(line.as_slice(), p + 1, ln);
                    assert(tag@ == line@.take(p as int));
                    assert(value@ == line@.skip(p + 1));
                    let tag_text = decode_lossy(tag.as_slice());
                    out.append(tag_text.as_str());
                    out.append(sp);
                    let h = to_hex(value.as_slice());
                    out.append(h.as_str());
                    out.append(nl);
                },
                None => {
                    proof {
                        lemma_listable_prefix(ls, k as int);
                    }
                    return (out, false);
                },
            }
        } else if ln > 0 {
            let text = decode_lossy(line.as_slice());
            out.append(text.as_str());
        }
        assert(out@ =~= before + commit_listing(seq![line@]));
    }
    proof {
        lemma_listable_prefix(ls, n as int);
        assert(ls.take(n as int) =~= ls);
    }
    (out, true)
}


/// Listing a tree lists each entry in turn: the listing of two runs of entries is the
/// listing of the first followed by that of the second.
pub proof fn lemma_tree_listing_append(a: Seq<(Seq<char>, Seq<u8>, Seq<char>)>, b: Seq<(Seq<char>, Seq<u8>, Seq<char>)>)
    ensures
        tree_listing(a + b) == tree_listing(a) + tree_listing(b),
    decreases a.len(),
{
    if a.len() == 0 {
        assert(a + b =~= b);
        assert(tree_listing(a) + tree_listing(b) =~= tree_listing(b));
    } else {
        lemma_tree_listing_append(a.drop_first(), b);
        assert((a + b).drop_first() =~= a.drop_first() + b);
        assert((a + b)[0] == a[0]);
        assert(tree_listing(a + b) =~= tree_listing(a) + tree_listing(b));
    }
}

/// Every entry, whatever its kind, is listed as one line: kind, space, id in hex, space,
/// name, newline.
pub proof fn lemma_tree_listing_entry(e: (Seq<char>, Seq<u8>, Seq<char>))
    ensures
        tree_listing(seq![e]) == e.0 + seq![' '] + hex_of(e.1) + seq![' '] + e.2 + seq!['\n'],
{
    assert(seq![e].drop_first() =~= Seq::<(Seq<char>, Seq<u8>, Seq<char>)>::empty());
    assert(tree_listing(Seq::<(Seq<char>, Seq<u8>, Seq<char>)>::empty()) =~= Seq::<char>::empty());
    assert(tree_listing(seq![e]) =~= e.0 + seq![' '] + hex_of(e.1) + seq![' '] + e.2 + seq!['\n']);
}

/// A line that opens with neither `tree` nor `parent` is printed as it is (decoded
/// leniently), whatever bytes it holds, before the lines that follow it.
pub proof fn lemma_message_line_listed(l: Seq<u8>, rest: Seq<Seq<u8>>)
    requires
        !starts_with(l, tree_tag()),
        !starts_with(l, parent_tag()),
    ensures
        listable(l),
        commit_listing(seq![l] + rest) == (if l.len() > 0 { utf8_lossy(l) } else { Seq::<char>::empty() })
            + commit_listing(rest),
{
    assert((seq![l] + rest)[0] == l);
    assert((seq![l] + rest).drop_first() =~= rest);
    if l.len() == 0 {
        assert(Seq::<char>::empty() + commit_listing(rest) =~= commit_listing(rest));
    }
}

/// Listing a commit prints its tree id and (when it has one) its parent id in hex, each on a
/// header line, then its message as it is, and lists it completely, when no id holds a
/// newline and the message is one line that opens with neither `tree` nor `parent`.
pub proof fn lemma_commit_listing(tree: Seq<u8>, parent: Seq<u8>, message: Seq<u8>)
    requires
        forall|i: int| 0 <= i < tree.len() ==> tree[i] != newline(),
        forall|i: int| 0 <= i < parent.len() ==> parent[i] != newline(),
        forall|i: int| 0 <= i < message.len() ==> message[i] != newline(),
        !starts_with(message, tree_tag()),
        !starts_with(message, parent_tag()),
    ensures
        listable_lines(split_on(commit_bytes(tree, parent, message), newline()))
            == split_on(commit_bytes(tree, parent, message), newline()).len(),
        commit_listing(split_on(commit_bytes(tree, parent, message), newline())) ==
            utf8_lossy(tree_tag()) + seq![' '] + hex_of(tree) + seq!['\n']
            + (if parent.len() > 0 {
                utf8_lossy(parent_tag()) + seq![' '] + hex_of(parent) + seq!['\n']
            } else {
                Seq::<char>::empty()
            })
            + (if message.len() > 0 { utf8_lossy(message) } else { Seq::<char>::empty() }),
{
    lemma_commit_lines(tree, parent, message);
    let l1 = tree_tag() + seq![field_sep()] + tree;
    let l2 = if parent.len() > 0 { parent_tag() + seq![field_sep()] + parent } else { Seq::<u8>::empty() };
    let lines = seq![l1, l2, message];
    assert forall|i: int| 0 <= i < tree_tag().len() implies tree_tag()[i] != field_sep() by {}
    assert forall|i: int| 0 <= i < parent_tag().len() implies parent_tag()[i] != field_sep() by {}
    lemma_header_value(tree_tag(), tree);
    lemma_header_value(parent_tag(), parent);
    assert(!starts_with(l2, tree_tag())) by {
        if l2.len() > 0 && starts_with(l2, tree_tag()) {
            assert(l2.take(4)[0] == l2[0]);
            assert(l2[0] == parent_tag()[0]);
        }
    }
    let empty_lines = Seq::<Seq<u8>>::empty();
    assert(commit_listing(empty_lines) =~= Seq::<char>::empty());
    assert(listable_lines(empty_lines) == 0);
    lemma_message_line_listed(message, empty_lines);
    assert(seq![message] =~= seq![message] + empty_lines);
    let m_text = if message.len() > 0 { utf8_lossy(message) } else { Seq::<char>::empty() };
    assert(commit_listing(seq![message]) =~= m_text);
    let s2 = seq![l2, message];
    assert(s2[0] == l2);
    assert(s2.drop_first() =~= seq![message]);
    let s1 = lines;
    assert(s1[0] == l1);
    assert(s1.drop_first() =~= s2);
    assert(seq![message][0] == message);
    assert(seq![message].drop_first() =~= empty_lines);
    assert(listable_lines(seq![message]) == 1);
    assert(listable(l2));
    assert(listable_lines(s2) == 2);
    assert(listable(l1));
    assert(listable_lines(s1) == 3);
    let p_text = if parent.len() > 0 {
        utf8_lossy(parent_tag()) + seq![' '] + hex_of(parent) + seq!['\n']
    } else {
        Seq::<char>::empty()
    };
    if parent.len() > 0 {
        assert(commit_listing(s2) =~= p_text + m_text);
    } else {
        assert(commit_listing(s2) =~= p_text + m_text);
    }
    assert(commit_listing(s1) =~= utf8_lossy(tree_tag()) + seq![' '] + hex_of(tree) + seq!['\n'] + p_text + m_text);
}
} // verus!
