//! Vocabulary for byte sequences: common prefixes and lexicographic order.
use vstd::prelude::*;

verus! {

/// Length of the longest common prefix of `a` and `b`.
pub open spec fn common_len(a: Seq<u8>, b: Seq<u8>) -> nat
    decreases a.len(),
{
    if a.len() > 0 && b.len() > 0 && a[0] == b[0] {
        1 + common_len(a.skip(1), b.skip(1))
    } else {
        0
    }
}

/// Neither sequence is a prefix of the other.
pub open spec fn diverge(a: Seq<u8>, b: Seq<u8>) -> bool {
    common_len(a, b) < a.len() && common_len(a, b) < b.len()
}

/// Lexicographic order on byte sequences; a proper prefix sorts first.
pub open spec fn lex_lt(a: Seq<u8>, b: Seq<u8>) -> bool {
    let n = common_len(a, b);
    n < b.len() && (n == a.len() || a[n as int] < b[n as int])
}

/// Reflexive closure of [`lex_lt`].
pub open spec fn lex_le(a: Seq<u8>, b: Seq<u8>) -> bool {
    a == b || lex_lt(a, b)
}

/// Sequences are compared byte by byte: the first index at which they differ
/// decides, where a sequence that has ended is the smaller one.
pub proof fn law_lexicographic(a: Seq<u8>, b: Seq<u8>, n: int)
    requires
        0 <= n <= a.len(),
        n <= b.len(),
        forall|i: int| 0 <= i < n ==> a[i] == b[i],
    ensures
        n == a.len() && n < b.len() ==> lex_lt(a, b) && !lex_lt(b, a),
        n < a.len() && n < b.len() && a[n] < b[n] ==> lex_lt(a, b) && !lex_lt(b, a),
        n == a.len() && n == b.len() ==> !lex_lt(a, b) && lex_le(a, b),
        lex_le(a, b) <==> a == b || lex_lt(a, b),
        n < a.len() && n < b.len() && a[n] != b[n] ==> diverge(a, b) && diverge(b, a),
        n == a.len() || n == b.len() ==> !diverge(a, b),
        n == a.len() || n == b.len() || a[n] != b[n] ==> common_len(a, b) == n,
{
    lemma_common_len(a, b);
    lemma_common_len_symmetric(a, b);
    if n == a.len() || n == b.len() || a[n] != b[n] {
        lemma_common_len_is(a, b, n as nat);
        lemma_common_len_is(b, a, n as nat);
    }
    if n == a.len() && n == b.len() {
        assert(a =~= b);
    }
}

/// The common prefix is shared, and the first byte after it differs.
pub proof fn lemma_common_len(a: Seq<u8>, b: Seq<u8>)
    ensures
        common_len(a, b) <= a.len(),
        common_len(a, b) <= b.len(),
        a.take(common_len(a, b) as int) == b.take(common_len(a, b) as int),
        forall|i: int| 0 <= i < common_len(a, b) ==> a[i] == b[i],
        common_len(a, b) < a.len() && common_len(a, b) < b.len() ==> a[common_len(a, b) as int]
            != b[common_len(a, b) as int],
    decreases a.len(),
{
    if a.len() > 0 && b.len() > 0 && a[0] == b[0] {
        let x = a.skip(1);
        let y = b.skip(1);
        lemma_common_len(x, y);
        assert forall|i: int| 0 <= i < common_len(a, b) implies a[i] == b[i] by {
            if i > 0 {
                assert(a[i] == x[i - 1]);
                assert(b[i] == y[i - 1]);
            }
        }
        if common_len(a, b) < a.len() && common_len(a, b) < b.len() {
            let n = common_len(x, y) as int;
            assert(a[n + 1] == x[n]);
            assert(b[n + 1] == y[n]);
        }
    }
    assert(a.take(common_len(a, b) as int) =~= b.take(common_len(a, b) as int));
}

/// A length with the defining property of [`common_len`] is that length.
pub proof fn lemma_common_len_is(a: Seq<u8>, b: Seq<u8>, n: nat)
    requires
        n <= a.len(),
        n <= b.len(),
        forall|i: int| 0 <= i < n ==> a[i] == b[i],
        n == a.len() || n == b.len() || a[n as int] != b[n as int],
    ensures
        common_len(a, b) == n,
{
    lemma_common_len(a, b);
    let m = common_len(a, b);
    if m < n {
        assert(a[m as int] == b[m as int]);
    } else if n < m {
        assert(a[n as int] == b[n as int]);
    }
}

/// The common prefix length does not depend on the order of the arguments.
pub proof fn lemma_common_len_symmetric(a: Seq<u8>, b: Seq<u8>)
    ensures
        common_len(a, b) == common_len(b, a),
{
    lemma_common_len(a, b);
    lemma_common_len_is(b, a, common_len(a, b));
}

/// A sequence is a prefix of another exactly when all of it is common.
pub proof fn lemma_common_len_prefix(a: Seq<u8>, b: Seq<u8>)
    ensures
        a.is_prefix_of(b) <==> common_len(a, b) == a.len(),
        a.is_prefix_of(b) && a.len() == b.len() ==> a == b,
{
    lemma_common_len(a, b);
    if a.is_prefix_of(b) {
        assert forall|i: int| 0 <= i < a.len() implies a[i] == b[i] by {
            assert(b.subrange(0, a.len() as int)[i] == b[i]);
        }
        lemma_common_len_is(a, b, a.len());
        if a.len() == b.len() {
            assert(a =~= b);
        }
    }
    if common_len(a, b) == a.len() {
        assert(a =~= b.subrange(0, a.len() as int));
    }
}

/// Two sequences diverge exactly when they differ at some index of both.
pub proof fn lemma_diverge_at(a: Seq<u8>, b: Seq<u8>, i: int)
    requires
        0 <= i < a.len(),
        i < b.len(),
        a[i] != b[i],
    ensures
        diverge(a, b),
        diverge(b, a),
{
    lemma_common_len(a, b);
    lemma_common_len(b, a);
}

/// Sequences that do not diverge agree as far as both go.
pub proof fn lemma_not_diverge(a: Seq<u8>, b: Seq<u8>)
    requires
        !diverge(a, b),
    ensures
        forall|i: int| 0 <= i < a.len() && i < b.len() ==> a[i] == b[i],
        !diverge(b, a),
{
    lemma_common_len(a, b);
    lemma_common_len_symmetric(a, b);
}

/// Lexicographic order is irreflexive.
pub proof fn lemma_lex_irreflexive(a: Seq<u8>)
    ensures
        !lex_lt(a, a),
{
    lemma_common_len(a, a);
}

/// Lexicographic order is transitive.
pub proof fn lemma_lex_transitive(a: Seq<u8>, b: Seq<u8>, c: Seq<u8>)
    requires
        lex_lt(a, b),
        lex_lt(b, c),
    ensures
        lex_lt(a, c),
{
    lemma_common_len(a, b);
    lemma_common_len(b, c);
    let n = common_len(a, b);
    let m = common_len(b, c);
    let k = if n < m { n } else { m };
    assert forall|i: int| 0 <= i < k implies a[i] == c[i] by {
        assert(a[i] == b[i]);
        assert(b[i] == c[i]);
    }
    lemma_common_len_is(a, c, k);
}

/// Any two distinct sequences are ordered one way or the other, and not both.
pub proof fn lemma_lex_total(a: Seq<u8>, b: Seq<u8>)
    ensures
        a == b || lex_lt(a, b) || lex_lt(b, a),
        !(lex_lt(a, b) && lex_lt(b, a)),
        lex_lt(a, b) ==> a != b,
{
    lemma_common_len(a, b);
    lemma_common_len_symmetric(a, b);
    lemma_lex_irreflexive(a);
    if common_len(a, b) == a.len() && common_len(a, b) == b.len() {
        assert(a =~= b);
    }
}

} // verus!
