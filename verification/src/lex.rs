//! Lexicographic order on byte strings of equal length, and the big-endian
//! value of a byte string, which orders such strings the same way.

use vstd::prelude::*;

verus! {

/// Strict lexicographic order on byte strings of equal length: `s` comes
/// before `t` when, at the first position where they differ, `s` holds the
/// smaller byte.
pub open spec fn lex_lt(s: Seq<u8>, t: Seq<u8>) -> bool
    decreases s.len(),
{
    if s.len() == 0 || t.len() == 0 {
        false
    } else {
        lex_lt(s.drop_last(), t.drop_last()) || (s.drop_last() == t.drop_last() && s.last()
            < t.last())
    }
}

/// No string comes before itself.
pub proof fn lemma_lex_irreflexive(s: Seq<u8>)
    ensures
        !lex_lt(s, s),
    decreases s.len(),
{
    if s.len() > 0 {
        lemma_lex_irreflexive(s.drop_last());
    }
}

/// The order is transitive.
pub proof fn lemma_lex_transitive(s: Seq<u8>, t: Seq<u8>, u: Seq<u8>)
    requires
        s.len() == t.len(),
        t.len() == u.len(),
        lex_lt(s, t),
        lex_lt(t, u),
    ensures
        lex_lt(s, u),
    decreases s.len(),
{
    if s.len() > 0 {
        let (s1, t1, u1) = (s.drop_last(), t.drop_last(), u.drop_last());
        if lex_lt(s1, t1) && lex_lt(t1, u1) {
            lemma_lex_transitive(s1, t1, u1);
        }
    }
}

/// Two strings of equal length are equal or one comes before the other.
pub proof fn lemma_lex_total(s: Seq<u8>, t: Seq<u8>)
    requires
        s.len() == t.len(),
    ensures
        lex_lt(s, t) || s == t || lex_lt(t, s),
    decreases s.len(),
{
    if s.len() == 0 {
        assert(s =~= t);
    } else {
        lemma_lex_total(s.drop_last(), t.drop_last());
        if s.drop_last() == t.drop_last() && s.last() == t.last() {
            assert(s =~= s.drop_last().push(s.last()));
            assert(t =~= t.drop_last().push(t.last()));
        }
    }
}

/// The order is asymmetric.
pub proof fn lemma_lex_asymmetric(s: Seq<u8>, t: Seq<u8>)
    requires
        s.len() == t.len(),
        lex_lt(s, t),
    ensures
        !lex_lt(t, s),
{
    if lex_lt(t, s) {
        lemma_lex_transitive(s, t, s);
        lemma_lex_irreflexive(s);
    }
}

/// Comparing two concatenations of equal-length parts: the first parts
/// decide, and only where they are equal do the second parts.
pub proof fn lemma_lex_append(x: Seq<u8>, y: Seq<u8>, u: Seq<u8>, v: Seq<u8>)
    requires
        x.len() == y.len(),
        u.len() == v.len(),
    ensures
        lex_lt(x + u, y + v) == (lex_lt(x, y) || (x == y && lex_lt(u, v))),
    decreases u.len(),
{
    if u.len() == 0 {
        assert(x + u =~= x);
        assert(y + v =~= y);
    } else {
        let (u1, v1) = (u.drop_last(), v.drop_last());
        lemma_lex_append(x, y, u1, v1);
        assert((x + u).drop_last() =~= x + u1);
        assert((y + v).drop_last() =~= y + v1);
        if x + u1 == y + v1 {
            assert(x =~= (x + u1).subrange(0, x.len() as int));
            assert(y =~= (y + v1).subrange(0, y.len() as int));
            assert(u1 =~= (x + u1).subrange(x.len() as int, (x + u1).len() as int));
            assert(v1 =~= (y + v1).subrange(y.len() as int, (y + v1).len() as int));
        }
    }
}

/// Strings of one byte compare as their bytes.
pub proof fn lemma_lex_single(s: Seq<u8>, t: Seq<u8>)
    requires
        s.len() == 1,
        t.len() == 1,
    ensures
        lex_lt(s, t) == (s[0] < t[0]),
        (s == t) == (s[0] == t[0]),
{
    assert(s.drop_last() =~= t.drop_last());
    lemma_lex_irreflexive(s.drop_last());
    if s[0] == t[0] {
        assert(s =~= t);
    }
}

/// The value of a byte string read as a big-endian number.
pub open spec fn be_value(s: Seq<u8>) -> nat
    decreases s.len(),
{
    if s.len() == 0 {
        0
    } else {
        be_value(s.drop_last()) * 256 + (s.last() as nat)
    }
}

/// `256` to the power `k`.
pub open spec fn pow256(k: nat) -> nat
    decreases k,
{
    if k == 0 {
        1
    } else {
        256 * pow256((k - 1) as nat)
    }
}

/// A string of `k` bytes has a value below `256` to the power `k`.
pub proof fn lemma_be_value_bound(s: Seq<u8>)
    ensures
        be_value(s) < pow256(s.len()),
    decreases s.len(),
{
    if s.len() > 0 {
        lemma_be_value_bound(s.drop_last());
    }
}

/// Big-endian values of strings of equal length compare as the strings do.
pub proof fn lemma_be_value_order(s: Seq<u8>, t: Seq<u8>)
    requires
        s.len() == t.len(),
    ensures
        (be_value(s) < be_value(t)) == lex_lt(s, t),
        (be_value(s) == be_value(t)) == (s == t),
    decreases s.len(),
{
    if s.len() == 0 {
        assert(s =~= t);
    } else {
        let (s1, t1) = (s.drop_last(), t.drop_last());
        lemma_be_value_order(s1, t1);
        lemma_lex_total(s1, t1);
        assert(s =~= s1.push(s.last()));
        assert(t =~= t1.push(t.last()));
        if s == t {
            lemma_lex_irreflexive(s);
        }
        if lex_lt(t1, s1) {
            lemma_lex_asymmetric(t1, s1);
        }
    }
}

} // verus!
