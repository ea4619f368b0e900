use vstd::prelude::*;

verus! {

/// Byte-wise lexicographic order, the order of `[u8]` and of `str` in Rust: the first
/// differing byte decides, and a proper prefix comes first.
pub open spec fn bytes_lt(a: Seq<u8>, b: Seq<u8>) -> bool
    decreases a.len(),
{
    if a.len() == 0 {
        b.len() > 0
    } else if b.len() == 0 {
        false
    } else if a[0] < b[0] {
        true
    } else if a[0] > b[0] {
        false
    } else {
        bytes_lt(a.drop_first(), b.drop_first())
    }
}

/// No byte string precedes itself.
pub proof fn lemma_lt_irreflexive(a: Seq<u8>)
    ensures
        !bytes_lt(a, a),
    decreases a.len(),
{
    if a.len() > 0 {
        lemma_lt_irreflexive(a.drop_first());
    }
}

/// The order is transitive.
pub proof fn lemma_lt_transitive(a: Seq<u8>, b: Seq<u8>, c: Seq<u8>)
    requires
        bytes_lt(a, b),
        bytes_lt(b, c),
    ensures
        bytes_lt(a, c),
    decreases a.len(),
{
    if a.len() > 0 && b.len() > 0 && c.len() > 0 && a[0] == b[0] && b[0] == c[0] {
        lemma_lt_transitive(a.drop_first(), b.drop_first(), c.drop_first());
    }
}

/// Two different byte strings are ordered one way or the other, and never both ways.
pub proof fn lemma_lt_total(a: Seq<u8>, b: Seq<u8>)
    ensures
        a != b ==> (bytes_lt(a, b) || bytes_lt(b, a)),
        !(bytes_lt(a, b) && bytes_lt(b, a)),
    decreases a.len(),
{
    if a.len() > 0 && b.len() > 0 && a[0] == b[0] {
        lemma_lt_total(a.drop_first(), b.drop_first());
        if a.drop_first() == b.drop_first() {
            assert(a =~= seq![a[0]] + a.drop_first());
            assert(b =~= seq![b[0]] + b.drop_first());
        }
    } else if a.len() == 0 && b.len() == 0 {
        assert(a =~= b);
    }
}

/// The outcome of comparing two byte strings.
pub enum Order {
    Less,
    Same,
    Greater,
}

/// Compares two byte strings in byte-wise lexicographic order.
pub fn compare_bytes(a: &[u8], b: &[u8]) -> (r: Order)
    ensures
        (r is Less) == bytes_lt(a@, b@),
        (r is Same) == (a@ == b@),
        (r is Greater) == bytes_lt(b@, a@),
{
    proof {
        lemma_lt_total(a@, b@);
        lemma_lt_irreflexive(a@);
    }
    let n = a.len();
    let m = b.len();
    let mut i: usize = 0;
    assert(a@.skip(0) == a@);
    assert(b@.skip(0) == b@);
    while i < n && i < m
        invariant
            n == a@.len(),
            m == b@.len(),
            i <= n,
            i <= m,
            a@.take(i as int) == b@.take(i as int),
            bytes_lt(a@, b@) == bytes_lt(a@.skip(i as int), b@.skip(i as int)),
            bytes_lt(b@, a@) == bytes_lt(b@.skip(i as int), a@.skip(i as int)),
            bytes_lt(a@, b@) || bytes_lt(b@, a@) || a@ == b@,
            !(bytes_lt(a@, b@) && bytes_lt(b@, a@)),
            a@ == b@ ==> !bytes_lt(a@, b@),
        decreases n - i,
    {
        let x = a[i];
        let y = b[i];
        assert(a@.skip(i as int)[0] == x);
        assert(b@.skip(i as int)[0] == y);
        if x < y {
            assert(a@ != b@);
            return Order::Less;
        }
        if x > y {
            assert(a@ != b@);
            return Order::Greater;
        }
        assert(a@.skip(i as int).drop_first() == a@.skip(i + 1));
        assert(b@.skip(i as int).drop_first() == b@.skip(i + 1));
        assert(a@.take(i + 1) == a@.take(i as int).push(x));
        assert(b@.take(i + 1) == b@.take(i as int).push(y));
        i = i + 1;
    }
    if n == m {
        assert(a@ == a@.take(i as int));
        assert(b@ == b@.take(i as int));
        Order::Same
    } else if n < m {
        Order::Less
    } else {
        Order::Greater
    }
}


/// The order is the lexicographic one: `a` comes before `b` exactly when, at the first
/// position where they differ, `a` holds the smaller byte, or when `a` is a proper prefix
/// of `b`. Lengths decide nothing else.
pub proof fn lemma_lt_lexicographic(a: Seq<u8>, b: Seq<u8>)
    ensures
        bytes_lt(a, b) == ((exists|k: int|
            0 <= k < a.len() && k < b.len() && a.take(k) == b.take(k) && #[trigger] a[k] < b[k])
            || (a.len() < b.len() && b.take(a.len() as int) == a)),
    decreases a.len(),
{
    if a.len() == 0 {
        assert(b.take(0) =~= a);
    } else if b.len() == 0 {
    } else if a[0] < b[0] {
        assert(a.take(0) =~= b.take(0));
        assert(0 < a.len() && 0 < b.len() && a.take(0) == b.take(0) && a[0] < b[0]);
    } else if a[0] > b[0] {
        assert forall|k: int| 0 <= k < a.len() && k < b.len() && a.take(k) == b.take(k) implies !(#[trigger] a[k] < b[k]) by {
            if k > 0 {
                assert(a.take(k)[0] == b.take(k)[0]);
            }
        }
        if a.len() < b.len() && b.take(a.len() as int) == a {
            assert(b.take(a.len() as int)[0] == a[0]);
        }
    } else {
        let a1 = a.drop_first();
        let b1 = b.drop_first();
        lemma_lt_lexicographic(a1, b1);
        let lhs = (exists|k: int| 0 <= k < a.len() && k < b.len() && a.take(k) == b.take(k) && #[trigger] a[k] < b[k]);
        let rhs = (exists|k: int| 0 <= k < a1.len() && k < b1.len() && a1.take(k) == b1.take(k) && #[trigger] a1[k] < b1[k]);
        if lhs {
            let k = choose|k: int| 0 <= k < a.len() && k < b.len() && a.take(k) == b.take(k) && #[trigger] a[k] < b[k];
            assert(k > 0);
            assert(a1.take(k - 1) =~= a.take(k).drop_first());
            assert(b1.take(k - 1) =~= b.take(k).drop_first());
            assert(a1[k - 1] == a[k] && b1[k - 1] == b[k]);
            assert(rhs);
        }
        if rhs {
            let k = choose|k: int| 0 <= k < a1.len() && k < b1.len() && a1.take(k) == b1.take(k) && #[trigger] a1[k] < b1[k];
            assert(a.take(k + 1) =~= seq![a[0]] + a1.take(k));
            assert(b.take(k + 1) =~= seq![b[0]] + b1.take(k));
            assert(a[k + 1] == a1[k] && b[k + 1] == b1[k]);
            assert(lhs);
        }
        if a.len() < b.len() && b.take(a.len() as int) == a {
            assert(b1.take(a1.len() as int) =~= b.take(a.len() as int).drop_first());
        }
        if a1.len() < b1.len() && b1.take(a1.len() as int) == a1 {
            assert(b.take(a.len() as int) =~= seq![b[0]] + b1.take(a1.len() as int));
            assert(a =~= seq![a[0]] + a1);
        }
    }
}

/// The first byte decides when it differs, whatever the lengths.
pub proof fn lemma_lt_first_byte(a: Seq<u8>, b: Seq<u8>)
    requires
        a.len() > 0,
        b.len() > 0,
        a[0] < b[0],
    ensures
        bytes_lt(a, b),
        !bytes_lt(b, a),
{
}

/// A proper prefix comes first.
pub proof fn lemma_lt_prefix(a: Seq<u8>, b: Seq<u8>)
    requires
        a.len() < b.len(),
        b.take(a.len() as int) == a,
    ensures
        bytes_lt(a, b),
{
    lemma_lt_lexicographic(a, b);
}
} // verus!
