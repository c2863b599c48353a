//! Lexicographic order on byte strings: the order in which a term dictionary
//! keeps its keys.

use vstd::prelude::*;

verus! {

/// `a` and `b` agree on their first `n` bytes.
pub open spec fn common_prefix(a: Seq<u8>, b: Seq<u8>, n: int) -> bool {
    &&& 0 <= n <= a.len()
    &&& n <= b.len()
    &&& forall|j: int| 0 <= j < n ==> a[j] == b[j]
}

/// `a` sorts before `b`, and position `i` shows it: the two agree before `i`,
/// and there `a` ends or holds the smaller byte.
pub open spec fn lex_lt_at(a: Seq<u8>, b: Seq<u8>, i: int) -> bool {
    &&& common_prefix(a, b, i)
    &&& i < b.len()
    &&& (i == a.len() || a[i] < b[i])
}

/// `a` sorts strictly before `b` in byte-lexicographic order.
pub open spec fn lex_lt(a: Seq<u8>, b: Seq<u8>) -> bool {
    exists|i: int| lex_lt_at(a, b, i)
}

/// `a` sorts before `b` or equals it.
pub open spec fn lex_le(a: Seq<u8>, b: Seq<u8>) -> bool {
    a == b || lex_lt(a, b)
}

/// No byte string sorts before itself.
pub proof fn lemma_lex_irreflexive(a: Seq<u8>)
    ensures
        !lex_lt(a, a),
{
}

/// Where two byte strings agree on a prefix and then differ, the differing
/// byte decides their order.
pub proof fn lemma_lex_decided_at(a: Seq<u8>, b: Seq<u8>, i: int)
    requires
        common_prefix(a, b, i),
        i < a.len(),
        i < b.len(),
        a[i] != b[i],
    ensures
        lex_lt(a, b) == (a[i] < b[i]),
        lex_lt(b, a) == (b[i] < a[i]),
{
    if a[i] < b[i] {
        assert(lex_lt_at(a, b, i));
    } else {
        assert(lex_lt_at(b, a, i));
    }
    assert forall|w: int| lex_lt_at(a, b, w) implies a[i] < b[i] by {
        if w < i {
            assert(a[w] == b[w]);
        } else if w > i {
            assert(a[i] == b[i]);
        }
    }
    assert forall|w: int| lex_lt_at(b, a, w) implies b[i] < a[i] by {
        if w < i {
            assert(a[w] == b[w]);
        } else if w > i {
            assert(b[i] == a[i]);
        }
    }
}

/// A proper prefix sorts before the string it is a prefix of, and never after.
pub proof fn lemma_lex_prefix(a: Seq<u8>, b: Seq<u8>)
    requires
        common_prefix(a, b, a.len() as int),
    ensures
        lex_lt(a, b) == (a.len() < b.len()),
        !lex_lt(b, a),
{
    let n = a.len() as int;
    if n < b.len() {
        assert(lex_lt_at(a, b, n));
    }
    assert forall|w: int| lex_lt_at(a, b, w) implies n < b.len() by {
        if w < n {
            assert(a[w] == b[w]);
        }
    }
    assert forall|w: int| lex_lt_at(b, a, w) implies false by {
        assert(w < n);
        assert(b[w] == a[w]);
    }
}

/// The order is asymmetric.
pub proof fn lemma_lex_asymmetric(a: Seq<u8>, b: Seq<u8>)
    requires
        lex_lt(a, b),
    ensures
        !lex_lt(b, a),
        a != b,
{
    let i = choose|i: int| lex_lt_at(a, b, i);
    if i == a.len() {
        lemma_lex_prefix(a, b);
    } else {
        lemma_lex_decided_at(a, b, i);
    }
}

/// The order is transitive.
pub proof fn lemma_lex_transitive(a: Seq<u8>, b: Seq<u8>, c: Seq<u8>)
    requires
        lex_lt(a, b),
        lex_lt(b, c),
    ensures
        lex_lt(a, c),
{
    let i = choose|i: int| lex_lt_at(a, b, i);
    let j = choose|j: int| lex_lt_at(b, c, j);
    if i <= j {
        assert(common_prefix(a, c, i));
        if i < j {
            assert(b[i] == c[i]);
        }
        assert(lex_lt_at(a, c, i));
    } else {
        assert(common_prefix(a, c, j));
        assert(a[j] == b[j]);
        assert(lex_lt_at(a, c, j));
    }
}

/// Two byte strings that agree on their first `i` bytes are equal or one sorts
/// before the other.
proof fn lemma_lex_total_from(a: Seq<u8>, b: Seq<u8>, i: int)
    requires
        common_prefix(a, b, i),
    ensures
        a == b || lex_lt(a, b) || lex_lt(b, a),
    decreases a.len() - i,
{
    if i == a.len() {
        lemma_lex_prefix(a, b);
        if a.len() == b.len() {
            assert(a =~= b);
        }
    } else if i == b.len() {
        assert(common_prefix(b, a, i));
        lemma_lex_prefix(b, a);
    } else if a[i] != b[i] {
        lemma_lex_decided_at(a, b, i);
    } else {
        lemma_lex_total_from(a, b, i + 1);
    }
}

/// The order is total: of two different byte strings one sorts before the other.
pub proof fn lemma_lex_total(a: Seq<u8>, b: Seq<u8>)
    ensures
        a == b || lex_lt(a, b) || lex_lt(b, a),
{
    lemma_lex_total_from(a, b, 0);
}

/// Whether `a` sorts strictly before `b`.
pub fn bytes_lt(a: &[u8], b: &[u8]) -> (r: bool)
    ensures
        r == lex_lt(a@, b@),
{
    let mut i: usize = 0;
    while i < a.len() && i < b.len()
        invariant
            common_prefix(a@, b@, i as int),
        decreases a.len() - i,
    {
        if a[i] != b[i] {
            proof {
                lemma_lex_decided_at(a@, b@, i as int);
            }
            return a[i] < b[i];
        }
        i = i + 1;
    }
    proof {
        if i == a.len() {
            lemma_lex_prefix(a@, b@);
        } else {
            assert(common_prefix(b@, a@, i as int));
            lemma_lex_prefix(b@, a@);
        }
    }
    i < b.len()
}

/// Whether `a` and `b` hold the same bytes.
pub fn bytes_eq(a: &[u8], b: &[u8]) -> (r: bool)
    ensures
        r == (a@ == b@),
{
    if a.len() != b.len() {
        return false;
    }
    let mut i: usize = 0;
    while i < a.len()
        invariant
            a.len() == b.len(),
            common_prefix(a@, b@, i as int),
        decreases a.len() - i,
    {
        if a[i] != b[i] {
            return false;
        }
        i = i + 1;
    }
    assert(a@ =~= b@);
    true
}

/// A copy of `a` that the caller owns.
pub fn bytes_to_vec(a: &[u8]) -> (r: Vec<u8>)
    ensures
        r@ == a@,
{
    let mut out: Vec<u8> = Vec::new();
    let mut i: usize = 0;
    while i < a.len()
        invariant
            i <= a.len(),
            out@ == a@.take(i as int),
        decreases a.len() - i,
    {
        out.push(a[i]);
        assert(a@.take(i as int + 1) =~= a@.take(i as int).push(a@[i as int]));
        i = i + 1;
    }
    assert(a@.take(a.len() as int) =~= a@);
    out
}

} // verus!
