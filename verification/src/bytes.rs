use vstd::prelude::*;

verus! {

/// Position of the first occurrence of `b` in `s`, if any.
pub open spec fn index_of(s: Seq<u8>, b: u8) -> Option<int>
    decreases s.len(),
{
    if s.len() == 0 {
        None
    } else if s[0] == b {
        Some(0)
    } else {
        match index_of(s.drop_first(), b) {
            Some(i) => Some(i + 1),
            None => None,
        }
    }
}

/// `index_of` is the least position holding `b`, and `None` means no position does.
pub proof fn lemma_index_of(s: Seq<u8>, b: u8)
    ensures
        match index_of(s, b) {
            Some(i) => 0 <= i < s.len() && s[i] == b && forall|j: int| 0 <= j < i ==> s[j] != b,
            None => forall|j: int| 0 <= j < s.len() ==> s[j] != b,
        },
    decreases s.len(),
{
    if s.len() > 0 && s[0] != b {
        lemma_index_of(s.drop_first(), b);
        match index_of(s.drop_first(), b) {
            Some(i) => {
                assert forall|j: int| 0 <= j < i + 1 implies s[j] != b by {
                    if j > 0 {
                        assert(s[j] == s.drop_first()[j - 1]);
                    }
                }
            },
            None => {
                assert forall|j: int| 0 <= j < s.len() implies s[j] != b by {
                    if j > 0 {
                        assert(s[j] == s.drop_first()[j - 1]);
                    }
                }
            },
        }
    }
}

/// The converse of `lemma_index_of`: a position that holds `b` with none before it is the index.
pub proof fn lemma_index_of_at(s: Seq<u8>, b: u8, i: int)
    requires
        0 <= i < s.len(),
        s[i] == b,
        forall|j: int| 0 <= j < i ==> s[j] != b,
    ensures
        index_of(s, b) == Some(i),
{
    lemma_index_of(s, b);
    match index_of(s, b) {
        Some(k) => {
            if k < i {
                assert(s[k] != b);
            } else if k > i {
                assert(s[i] != b);
            }
        },
        None => {
            assert(s[i] != b);
        },
    }
}

/// Absence of `b` gives `None`.
pub proof fn lemma_index_of_none(s: Seq<u8>, b: u8)
    requires
        forall|j: int| 0 <= j < s.len() ==> s[j] != b,
    ensures
        index_of(s, b) is None,
{
    lemma_index_of(s, b);
    if let Some(k) = index_of(s, b) {
        assert(s[k] != b);
    }
}

/// The pieces of `s` between occurrences of `sep`, as `<[u8]>::split` yields them:
/// one more piece than there are separators, empty pieces included.
pub open spec fn split_on(s: Seq<u8>, sep: u8) -> Seq<Seq<u8>>
    decreases s.len(),
{
    match index_of(s, sep) {
        None => seq![s],
        Some(i) => {
            if 0 <= i < s.len() {
                seq![s.take(i)] + split_on(s.skip(i + 1), sep)
            } else {
                seq![s]
            }
        },
    }
}

/// What follows the first `sep` in `s` (the second piece of `splitn(2, ..)`), if `sep` occurs.
pub open spec fn after_first(s: Seq<u8>, sep: u8) -> Option<Seq<u8>> {
    match index_of(s, sep) {
        Some(i) => Some(s.skip(i + 1)),
        None => None,
    }
}

/// What precedes the first `sep` in `s`, or all of `s` when `sep` does not occur.
pub open spec fn before_first(s: Seq<u8>, sep: u8) -> Seq<u8> {
    match index_of(s, sep) {
        Some(i) => s.take(i),
        None => s,
    }
}

/// `s` begins with `prefix`.
pub open spec fn starts_with(s: Seq<u8>, prefix: Seq<u8>) -> bool {
    prefix.len() <= s.len() && s.take(prefix.len() as int) == prefix
}

/// `needle` occurs as a contiguous run somewhere in `hay`.
pub open spec fn contains_run(hay: Seq<u8>, needle: Seq<u8>) -> bool {
    exists|i: int| 0 <= i && i + needle.len() <= hay.len() && #[trigger] hay.subrange(i, i + needle.len()) == needle
}

/// Copies `src` onto the end of `dst`.
pub fn push_all(dst: &mut Vec<u8>, src: &[u8])
    ensures
        final(dst)@ == old(dst)@ + src@,
{
    let n = src.len();
    for i in 0..n
        invariant
            n == src@.len(),
            dst@ == old(dst)@ + src@.take(i as int),
    {
        dst.push(src[i]);
        assert(src@.take(i + 1) == src@.take(i as int).push(src@[i as int]));
    }
    assert(src@.take(n as int) == src@);
}

/// A copy of `s[from..to]`.
pub fn copy_range(s: &[u8], from: usize, to: usize) -> (r: Vec<u8>)
    requires
        from <= to <= s@.len(),
    ensures
        r@ == s@.subrange(from as int, to as int),
{
    let mut r: Vec<u8> = Vec::new();
    let mut i = from;
    while i < to
        invariant
            from <= i <= to <= s@.len(),
            r@ == s@.subrange(from as int, i as int),
        decreases to - i,
    {
        r.push(s[i]);
        assert(s@.subrange(from as int, i + 1) == s@.subrange(from as int, i as int).push(s@[i as int]));
        i = i + 1;
    }
    r
}

/// Finds the first `b` at or after `from`.
pub fn find_from(s: &[u8], b: u8, from: usize) -> (r: Option<usize>)
    requires
        from <= s@.len(),
    ensures
        match r {
            Some(i) => from <= i < s@.len() && s@[i as int] == b && forall|j: int| from <= j < i ==> s@[j] != b,
            None => forall|j: int| from <= j < s@.len() ==> s@[j] != b,
        },
{
    let mut i = from;
    while i < s.len()
        invariant
            from <= i <= s@.len(),
            forall|j: int| from <= j < i ==> s@[j] != b,
        decreases s@.len() - i,
    {
        if s[i] == b {
            return Some(i);
        }
        i = i + 1;
    }
    None
}

/// Links `find_from` to `index_of` on the suffix.
pub proof fn lemma_find_from_index_of(s: Seq<u8>, b: u8, from: int, r: Option<int>)
    requires
        0 <= from <= s.len(),
        match r {
            Some(i) => from <= i < s.len() && s[i] == b && forall|j: int| from <= j < i ==> s[j] != b,
            None => forall|j: int| from <= j < s.len() ==> s[j] != b,
        },
    ensures
        index_of(s.skip(from), b) == match r {
            Some(i) => Some(i - from),
            None => None::<int>,
        },
{
    let t = s.skip(from);
    match r {
        Some(i) => {
            assert forall|j: int| 0 <= j < i - from implies t[j] != b by {
                assert(t[j] == s[j + from]);
            }
            lemma_index_of_at(t, b, i - from);
        },
        None => {
            assert forall|j: int| 0 <= j < t.len() implies t[j] != b by {
                assert(t[j] == s[j + from]);
            }
            lemma_index_of_none(t, b);
        },
    }
}

/// `true` when `prefix` begins `s`.
pub fn has_prefix(s: &[u8], prefix: &[u8]) -> (r: bool)
    ensures
        r == starts_with(s@, prefix@),
{
    if prefix.len() > s.len() {
        return false;
    }
    let n = prefix.len();
    let mut i: usize = 0;
    while i < n
        invariant
            n == prefix@.len() <= s@.len(),
            i <= n,
            forall|j: int| 0 <= j < i ==> s@[j] == prefix@[j],
        decreases n - i,
    {
        if s[i] != prefix[i] {
            assert(s@.take(n as int)[i as int] != prefix@[i as int]);
            return false;
        }
        i = i + 1;
    }
    assert(s@.take(n as int) =~= prefix@);
    true
}

/// `true` when `needle` occurs as a contiguous run in `hay`.
pub fn has_run(hay: &[u8], needle: &[u8]) -> (r: bool)
    ensures
        r == contains_run(hay@, needle@),
{
    if needle.len() > hay.len() {
        return false;
    }
    let n = needle.len();
    if n == 0 {
        assert(hay@.subrange(0int, 0int + needle@.len()) =~= needle@);
        return true;
    }
    let end = hay.len() - n + 1;
    let mut i: usize = 0;
    while i < end
        invariant
            n == needle@.len(),
            n >= 1,
            end + n == hay@.len() + 1,
            hay@.len() == hay.len(),
            i <= end,
            forall|k: int| 0 <= k < i ==> #[trigger] hay@.subrange(k, k + needle@.len()) != needle@,
        decreases end - i,
    {
        let mut j: usize = 0;
        let mut same = true;
        while j < n
            invariant
                n == needle@.len(),
                i < end,
                end + n == hay@.len() + 1,
                hay@.len() == hay.len(),
                j <= n,
                same == forall|m: int| 0 <= m < j ==> hay@[i + m] == needle@[m],
            decreases n - j,
        {
            if hay[i + j] != needle[j] {
                same = false;
            }
            j = j + 1;
        }
        if same {
            assert(hay@.subrange(i as int, i + n) =~= needle@);
            return true;
        }
        assert(hay@.subrange(i as int, i + n) != needle@) by {
            let m = choose|m: int| 0 <= m < n && hay@[i + m] != needle@[m];
            assert(hay@.subrange(i as int, i + n)[m] == hay@[i + m]);
        }
        i = i + 1;
    }
    false
}


/// The byte-string views of a list of byte vectors.
pub open spec fn views(v: Seq<Vec<u8>>) -> Seq<Seq<u8>> {
    v.map_values(|x: Vec<u8>| x@)
}

/// Splits `s` at every `sep`, as `<[u8]>::split` does, copying the pieces.
pub fn split_bytes(s: &[u8], sep: u8) -> (r: Vec<Vec<u8>>)
    ensures
        views(r@) == split_on(s@, sep),
{
    let mut pieces: Vec<Vec<u8>> = Vec::new();
    let mut start: usize = 0;
    let n = s.len();
    assert(s@.skip(0) == s@);
    loop
        invariant
            n == s@.len(),
            start <= s@.len(),
            views(pieces@) + split_on(s@.skip(start as int), sep) == split_on(s@, sep),
        decreases s@.len() - start,
    {
        let found = find_from(s, sep, start);
        proof {
            lemma_find_from_index_of(s@, sep, start as int, match found { Some(i) => Some(i as int), None => None });
        }
        match found {
            Some(i) => {
                let piece = copy_range(s, start, i);
                proof {
                    let t = s@.skip(start as int);
                    assert(t.take(i - start) == s@.subrange(start as int, i as int));
                    assert(t.skip(i - start + 1) == s@.skip(i + 1));
                    assert(split_on(t, sep) == seq![t.take(i - start)] + split_on(t.skip(i - start + 1), sep));
                }
                let ghost before = pieces@;
                pieces.push(piece);
                proof {
                    assert(views(pieces@) == views(before).push(piece@));
                    assert(views(pieces@) + split_on(s@.skip(i + 1), sep) == views(before) + split_on(s@.skip(start as int), sep));
                }
                start = i + 1;
            },
            None => {
                let piece = copy_range(s, start, s.len());
                proof {
                    let t = s@.skip(start as int);
                    assert(t == s@.subrange(start as int, s@.len() as int));
                    assert(split_on(t, sep) == seq![t]);
                }
                let ghost before = pieces@;
                pieces.push(piece);
                proof {
                    assert(views(pieces@) == views(before).push(piece@));
                    assert(views(pieces@) == views(before) + split_on(s@.skip(start as int), sep));
                }
                return pieces;
            },
        }
    }
}

/// Splitting `a`, a separator, then `b` gives `a` and then the pieces of `b`, when `a` holds no separator.
pub proof fn lemma_split_first(a: Seq<u8>, b: Seq<u8>, sep: u8)
    requires
        forall|i: int| 0 <= i < a.len() ==> a[i] != sep,
    ensures
        split_on(a + seq![sep] + b, sep) == seq![a] + split_on(b, sep),
{
    let s = a + seq![sep] + b;
    assert forall|j: int| 0 <= j < a.len() implies s[j] != sep by {
        assert(s[j] == a[j]);
    }
    lemma_index_of_at(s, sep, a.len() as int);
    assert(s.take(a.len() as int) == a);
    assert(s.skip(a.len() as int + 1) == b);
}

/// A text with no separator is a single piece.
pub proof fn lemma_split_none(a: Seq<u8>, sep: u8)
    requires
        forall|i: int| 0 <= i < a.len() ==> a[i] != sep,
    ensures
        split_on(a, sep) == seq![a],
{
    lemma_index_of_none(a, sep);
}

} // verus!
