//! The order of byte strings, as slices of bytes compare.

use vstd::prelude::*;

verus! {

/// `a` and `b` agree on their first `i` bytes, and at `i` the byte of `a` is
/// the smaller one.
pub open spec fn differ_at(a: Seq<u8>, b: Seq<u8>, i: int) -> bool {
    &&& 0 <= i < a.len()
    &&& i < b.len()
    &&& forall|j: int| 0 <= j < i ==> a[j] == b[j]
    &&& a[i] < b[i]
}

/// `a` sorts before `b` because of a byte: neither is a prefix of the other.
/// This is the order that survives when anything is appended to `a` and `b`.
pub open spec fn byte_lt(a: Seq<u8>, b: Seq<u8>) -> bool {
    exists|i: int| differ_at(a, b, i)
}

/// `a` is a proper prefix of `b`.
pub open spec fn proper_prefix(a: Seq<u8>, b: Seq<u8>) -> bool {
    &&& a.len() < b.len()
    &&& forall|j: int| 0 <= j < a.len() ==> a[j] == b[j]
}

/// `a` sorts before `b` in the lexicographic order of byte strings.
pub open spec fn lex_lt(a: Seq<u8>, b: Seq<u8>) -> bool {
    byte_lt(a, b) || proper_prefix(a, b)
}

/// Two strings that differ at `i` cannot also differ the other way round, nor
/// be equal, nor be prefixes of each other.
pub proof fn lemma_differ_at_excludes(a: Seq<u8>, b: Seq<u8>, i: int)
    requires
        differ_at(a, b, i),
    ensures
        a != b,
        !byte_lt(b, a),
        !proper_prefix(a, b),
        !proper_prefix(b, a),
{
    if byte_lt(b, a) {
        let k = choose|k: int| differ_at(b, a, k);
        if k < i {
            assert(a[k] == b[k]);
        } else if i < k {
            assert(b[i] == a[i]);
        }
    }
}

/// The lexicographic order is strict: no string sorts before itself, and no
/// two strings sort before each other.
pub proof fn lemma_lex_lt_asymmetric(a: Seq<u8>, b: Seq<u8>)
    requires
        lex_lt(a, b),
    ensures
        !lex_lt(b, a),
        a != b,
{
    if byte_lt(a, b) {
        let i = choose|i: int| differ_at(a, b, i);
        lemma_differ_at_excludes(a, b, i);
    } else if byte_lt(b, a) {
        let i = choose|i: int| differ_at(b, a, i);
        lemma_differ_at_excludes(b, a, i);
    }
}

/// A difference in a byte stays the first difference whatever follows.
pub proof fn lemma_byte_lt_append(a: Seq<u8>, b: Seq<u8>, r: Seq<u8>, s: Seq<u8>)
    requires
        byte_lt(a, b),
    ensures
        byte_lt(a + r, b + s),
{
    let i = choose|i: int| differ_at(a, b, i);
    assert forall|j: int| 0 <= j < i implies (a + r)[j] == (b + s)[j] by {
        assert(a[j] == b[j]);
    }
    assert(differ_at(a + r, b + s, i));
}

/// After a common prefix the order is that of the rest.
pub proof fn lemma_byte_lt_prepend(p: Seq<u8>, a: Seq<u8>, b: Seq<u8>)
    requires
        byte_lt(a, b),
    ensures
        byte_lt(p + a, p + b),
{
    let i = choose|i: int| differ_at(a, b, i);
    assert forall|j: int| 0 <= j < p.len() + i implies (p + a)[j] == (p + b)[j] by {
        if j >= p.len() {
            assert(a[j - p.len()] == b[j - p.len()]);
        }
    }
    assert(differ_at(p + a, p + b, p.len() + i));
}

/// A smaller byte in front decides the order.
pub proof fn lemma_byte_lt_first(a: Seq<u8>, b: Seq<u8>)
    requires
        a.len() > 0,
        b.len() > 0,
        a[0] < b[0],
    ensures
        byte_lt(a, b),
{
    assert(differ_at(a, b, 0));
}

} // verus!
