//! The pending ranges of the multi-key quicksort and what holds of them.
//!
//! A range is `(offset, len, depth)`: the entries `s[offset..offset + len]`
//! still to be sorted, all of which share the bytes `[d0, depth)` of their
//! rotations, where `d0` is the depth the whole sort started at.  Outside
//! the pending ranges, every pair of entries is already in order.

use vstd::prelude::*;
use crate::lex::{be_value, lex_lt, lemma_be_value_order, lemma_lex_append};
use crate::order::{
    all_below, elem_key, key_le, lemma_key_le_refl, lemma_key_lt_le, occurs_in, permuted_within,
    sorted_range,
};
use crate::rotation::{agree, lemma_compare_window, rotation};
use crate::order::{lemma_permuted_below, lemma_permuted_refl};

verus! {

/// A pending range: offset, length and depth.
pub type Range = (usize, usize, usize);

/// Position `x`'s rotation holds `pref` as its bytes `[d0, d)`.
pub open spec fn has_prefix(block: Seq<u8>, n: usize, x: u32, d0: usize, d: usize, pref: Seq<u8>) -> bool {
    rotation(block, n as int, x as int).subrange(d0 as int, d as int) == pref
}

/// The two bytes `[d, d + 2)` of position `x`'s rotation as a big-endian word.
pub open spec fn word_at(block: Seq<u8>, n: usize, x: u32, d: usize) -> nat {
    be_value(rotation(block, n as int, x as int).subrange(d as int, d + 2))
}

/// Range `r` lies in `[lo, hi)`, starts no shallower than `d0` and no
/// deeper than `n`, and all its entries share the prefix `pref`.
pub open spec fn entry_ok(
    block: Seq<u8>,
    n: usize,
    d0: usize,
    s: Seq<u32>,
    lo: int,
    hi: int,
    r: Range,
    pref: Seq<u8>,
) -> bool {
    &&& lo <= r.0
    &&& r.0 + r.1 <= hi
    &&& d0 <= r.2 <= n
    &&& forall|q: int| r.0 <= q < r.0 + r.1 ==> has_prefix(block, n, #[trigger] s[q], d0, r.2, pref)
}

/// Ranges `r` and `u` do not overlap.
pub open spec fn separate(r: Range, u: Range) -> bool {
    r.0 + r.1 <= u.0 || u.0 + u.1 <= r.0
}

/// Range `r` holds both `i` and `j`, for `i <= j`.
pub open spec fn covers(r: Range, i: int, j: int) -> bool {
    r.0 <= i && j < r.0 + r.1
}

/// Some range of `rs` holds both `i` and `j`.
pub open spec fn covered(rs: Seq<Range>, i: int, j: int) -> bool {
    exists|t: int| 0 <= t < rs.len() && #[trigger] covers(rs[t], i, j)
}

/// Every range of `rs` is well formed, with its prefix in `ps`, and no two
/// of them overlap.
pub open spec fn ranges_ok(
    block: Seq<u8>,
    n: usize,
    d0: usize,
    s: Seq<u32>,
    lo: int,
    hi: int,
    rs: Seq<Range>,
    ps: Seq<Seq<u8>>,
) -> bool {
    &&& rs.len() == ps.len()
    &&& forall|t: int| 0 <= t < rs.len() ==> entry_ok(block, n, d0, s, lo, hi, #[trigger] rs[t], ps[t])
    &&& forall|t1: int, t2: int|
        0 <= t1 < t2 < rs.len() ==> separate(#[trigger] rs[t1], #[trigger] rs[t2])
}

/// Every pair of entries of `s[lo..hi]` is in order at depth `d0`, unless a
/// range of `rs` holds both.
pub open spec fn sorted_mod(
    block: Seq<u8>,
    n: usize,
    d0: usize,
    s: Seq<u32>,
    lo: int,
    hi: int,
    rs: Seq<Range>,
) -> bool {
    forall|i: int, j: int|
        lo <= i < j < hi ==> key_le(block, n, d0, #[trigger] s[i], #[trigger] s[j]) || covered(
            rs,
            i,
            j,
        )
}

/// The work left in the ranges `rs`: each entry weighs the number of
/// bytes its rotation may still have to be compared on.
pub open spec fn measure(rs: Seq<Range>, n: usize) -> nat
    decreases rs.len(),
{
    if rs.len() == 0 {
        0
    } else {
        measure(rs.drop_last(), n) + weight(rs.last(), n)
    }
}

/// The work left in one range.
pub open spec fn weight(r: Range, n: usize) -> nat {
    if r.2 <= n {
        (r.1 * (n + 1 - r.2)) as nat
    } else {
        0
    }
}

/// The work in a concatenation is the sum of the parts' work.
pub proof fn lemma_measure_concat(a: Seq<Range>, b: Seq<Range>, n: usize)
    ensures
        measure(a + b, n) == measure(a, n) + measure(b, n),
    decreases b.len(),
{
    if b.len() == 0 {
        assert(a + b =~= a);
    } else {
        lemma_measure_concat(a, b.drop_last(), n);
        assert((a + b).drop_last() =~= a + b.drop_last());
    }
}

/// The work of a single range.
pub proof fn lemma_measure_single(r: Range, n: usize)
    ensures
        measure(seq![r], n) == weight(r, n),
{
    assert(seq![r].drop_last() =~= Seq::<Range>::empty());
    assert(measure(Seq::<Range>::empty(), n) == 0);
}

/// Sorted at a deeper depth, entries that share the bytes in between are
/// sorted at the shallower depth too.
pub proof fn lemma_sorted_deeper(
    block: Seq<u8>,
    n: usize,
    d0: usize,
    d: usize,
    s: Seq<u32>,
    a: int,
    b: int,
    pref: Seq<u8>,
)
    requires
        d0 <= d <= n,
        0 <= a <= b <= s.len(),
        all_below(s, a, b, n),
        sorted_range(block, n, d, s, a, b),
        forall|q: int| a <= q < b ==> has_prefix(block, n, #[trigger] s[q], d0, d, pref),
    ensures
        sorted_range(block, n, d0, s, a, b),
{
    assert forall|i: int, j: int| a <= i < j < b implies key_le(
        block,
        n,
        d0,
        #[trigger] s[i],
        #[trigger] s[j],
    ) by {
        lemma_deeper_key(block, n, d0, d, s[j], s[i], pref);
    }
}

/// Comparing positions that share the bytes `[d0, d)` at `d0` is comparing
/// them at `d`.
pub proof fn lemma_deeper_key(
    block: Seq<u8>,
    n: usize,
    d0: usize,
    d: usize,
    x: u32,
    y: u32,
    pref: Seq<u8>,
)
    requires
        d0 <= d <= n,
        x < n,
        y < n,
        has_prefix(block, n, x, d0, d, pref),
        has_prefix(block, n, y, d0, d, pref),
    ensures
        lex_lt(elem_key(block, n, x, d0), elem_key(block, n, y, d0)) == lex_lt(
            elem_key(block, n, x, d),
            elem_key(block, n, y, d),
        ),
{
    let rx = rotation(block, n as int, x as int);
    let ry = rotation(block, n as int, y as int);
    assert(elem_key(block, n, x, d0) =~= pref + elem_key(block, n, x, d));
    assert(elem_key(block, n, y, d0) =~= pref + elem_key(block, n, y, d));
    lemma_lex_append(pref, pref, elem_key(block, n, x, d), elem_key(block, n, y, d));
    crate::lex::lemma_lex_irreflexive(pref);
}

/// Positions whose rotations share all bytes from `d0` on have equal keys.
pub proof fn lemma_full_prefix_le(block: Seq<u8>, n: usize, d0: usize, x: u32, y: u32, pref: Seq<u8>)
    requires
        d0 <= n,
        has_prefix(block, n, x, d0, n, pref),
        has_prefix(block, n, y, d0, n, pref),
    ensures
        key_le(block, n, d0, x, y),
{
    lemma_key_le_refl(block, n, d0, x);
}

/// Positions that share the bytes `[d0, d)` are ordered at `d0` by their
/// next word.
pub proof fn lemma_word_order(
    block: Seq<u8>,
    n: usize,
    d0: usize,
    d: usize,
    x: u32,
    y: u32,
    pref: Seq<u8>,
)
    requires
        d0 <= d,
        d + 2 <= n,
        x < n,
        y < n,
        has_prefix(block, n, x, d0, d, pref),
        has_prefix(block, n, y, d0, d, pref),
        word_at(block, n, x, d) < word_at(block, n, y, d),
    ensures
        key_le(block, n, d0, x, y),
        lex_lt(elem_key(block, n, x, d0), elem_key(block, n, y, d0)),
{
    let sx = rotation(block, n as int, x as int).subrange(d as int, d + 2);
    let sy = rotation(block, n as int, y as int).subrange(d as int, d + 2);
    assert(agree(block, n, x as usize, y as usize, d0, d));
    lemma_compare_window(block, n, x as usize, y as usize, d0, d, 2);
    lemma_be_value_order(sx, sy);
    lemma_key_lt_le(block, n, d0, x, y);
}

/// Positions with the prefix `[d0, d)` and the same next word share the
/// prefix `[d0, d + 2)`.
pub proof fn lemma_prefix_extend(
    block: Seq<u8>,
    n: usize,
    d0: usize,
    d: usize,
    x: u32,
    y: u32,
    pref: Seq<u8>,
)
    requires
        d0 <= d,
        d + 2 <= n,
        has_prefix(block, n, x, d0, d, pref),
        has_prefix(block, n, y, d0, d, pref),
        word_at(block, n, x, d) == word_at(block, n, y, d),
    ensures
        has_prefix(
            block,
            n,
            y,
            d0,
            (d + 2) as usize,
            pref + rotation(block, n as int, x as int).subrange(d as int, d + 2),
        ),
{
    let rx = rotation(block, n as int, x as int);
    let ry = rotation(block, n as int, y as int);
    lemma_be_value_order(rx.subrange(d as int, d + 2), ry.subrange(d as int, d + 2));
    assert(ry.subrange(d0 as int, d + 2) =~= ry.subrange(d0 as int, d as int) + ry.subrange(
        d as int,
        d + 2,
    ));
}

/// Rearranging entries that share a prefix keeps them sharing it.
pub proof fn lemma_prefix_permuted(
    block: Seq<u8>,
    n: usize,
    s: Seq<u32>,
    s2: Seq<u32>,
    a: int,
    b: int,
    d0: usize,
    d: usize,
    pref: Seq<u8>,
)
    requires
        permuted_within(s2, s, a, b),
        forall|q: int| a <= q < b ==> has_prefix(block, n, #[trigger] s[q], d0, d, pref),
    ensures
        forall|q: int| a <= q < b ==> has_prefix(block, n, #[trigger] s2[q], d0, d, pref),
{
    assert forall|q: int| a <= q < b implies has_prefix(block, n, #[trigger] s2[q], d0, d, pref) by {
        assert(occurs_in(s2[q], s, a, b));
        let r = choose|r: int| a <= r < b && #[trigger] s[r] == s2[q];
        assert(has_prefix(block, n, s[r], d0, d, pref));
    }
}

/// Splitting a range at depth `d` into the entries below, at and above the
/// pivot word, with at least one entry at the pivot, leaves less work.
pub proof fn lemma_split_weight(o: usize, len: usize, lt: usize, gt: usize, d: usize, n: usize)
    requires
        lt < gt <= len,
        d + 2 <= n,
    ensures
        weight((o, lt, d), n) + weight((o, (gt - lt) as usize, (d + 2) as usize), n) + weight(
            (o, (len - gt) as usize, d),
            n,
        ) < weight((o, len, d), n),
{
    let w = n + 1 - d;
    assert(lt * w + (gt - lt) * (w - 2) + (len - gt) * w == len * w - 2 * (gt - lt))
        by (nonlinear_arith);
}

/// Replacing the range `e` by ranges `p` inside it, after rearranging the
/// entries of `e` so that pairs in `e` not held by a range of `p` are in
/// order, keeps the invariants.
pub proof fn lemma_replace_range(
    block: Seq<u8>,
    n: usize,
    d0: usize,
    s: Seq<u32>,
    s2: Seq<u32>,
    lo: int,
    hi: int,
    a: Seq<Range>,
    e: Range,
    b: Seq<Range>,
    pa: Seq<Seq<u8>>,
    pe: Seq<u8>,
    pb: Seq<Seq<u8>>,
    p: Seq<Range>,
    pp: Seq<Seq<u8>>,
)
    requires
        0 <= lo <= hi <= s.len(),
        ranges_ok(block, n, d0, s, lo, hi, a + seq![e] + b, pa + seq![pe] + pb),
        sorted_mod(block, n, d0, s, lo, hi, a + seq![e] + b),
        permuted_within(s2, s, e.0 as int, e.0 + e.1),
        a.len() == pa.len(),
        b.len() == pb.len(),
        p.len() == pp.len(),
        forall|t: int|
            0 <= t < p.len() ==> entry_ok(block, n, d0, s2, lo, hi, #[trigger] p[t], pp[t]) && e.0
                <= p[t].0 && p[t].0 + p[t].1 <= e.0 + e.1,
        forall|t1: int, t2: int|
            0 <= t1 < t2 < p.len() ==> separate(#[trigger] p[t1], #[trigger] p[t2]),
        forall|i: int, j: int|
            e.0 <= i < j < e.0 + e.1 ==> key_le(block, n, d0, #[trigger] s2[i], #[trigger] s2[j])
                || covered(p, i, j),
    ensures
        ranges_ok(block, n, d0, s2, lo, hi, a + p + b, pa + pp + pb),
        sorted_mod(block, n, d0, s2, lo, hi, a + p + b),
{
    let old_rs = a + seq![e] + b;
    let old_ps = pa + seq![pe] + pb;
    let rs = a + p + b;
    let ps = pa + pp + pb;
    let ie = a.len() as int;
    assert(old_rs[ie] == e);
    // Ranges other than `e` keep their place, shifted past the parts.
    assert forall|t: int| 0 <= t < rs.len() implies entry_ok(
        block,
        n,
        d0,
        s2,
        lo,
        hi,
        #[trigger] rs[t],
        ps[t],
    ) && (t < a.len() || t >= a.len() + p.len() ==> separate(rs[t], e)) by {
        if t < a.len() {
            assert(rs[t] == old_rs[t] && ps[t] == old_ps[t]);
            assert(separate(old_rs[t], old_rs[ie]));
            assert(entry_ok(block, n, d0, s, lo, hi, old_rs[t], old_ps[t]));
            assert forall|q: int| rs[t].0 <= q < rs[t].0 + rs[t].1 implies has_prefix(
                block,
                n,
                #[trigger] s2[q],
                d0,
                rs[t].2,
                ps[t],
            ) by {
                assert(s2[q] == s[q]);
            }
        } else if t < a.len() + p.len() {
            assert(rs[t] == p[t - a.len()] && ps[t] == pp[t - a.len()]);
        } else {
            let u = t - p.len() + 1;
            assert(rs[t] == old_rs[u] && ps[t] == old_ps[u]);
            assert(separate(old_rs[ie], old_rs[u]));
            assert(entry_ok(block, n, d0, s, lo, hi, old_rs[u], old_ps[u]));
            assert forall|q: int| rs[t].0 <= q < rs[t].0 + rs[t].1 implies has_prefix(
                block,
                n,
                #[trigger] s2[q],
                d0,
                rs[t].2,
                ps[t],
            ) by {
                assert(s2[q] == s[q]);
            }
        }
    }
    assert forall|t1: int, t2: int| 0 <= t1 < t2 < rs.len() implies separate(
        #[trigger] rs[t1],
        #[trigger] rs[t2],
    ) by {
        let (in1, in2) = (
            a.len() <= t1 < a.len() + p.len(),
            a.len() <= t2 < a.len() + p.len(),
        );
        if in1 && in2 {
            assert(rs[t1] == p[t1 - a.len()] && rs[t2] == p[t2 - a.len()]);
        } else if in1 {
            assert(rs[t1] == p[t1 - a.len()]);
            assert(separate(rs[t2], e));
        } else if in2 {
            assert(rs[t2] == p[t2 - a.len()]);
            assert(separate(rs[t1], e));
        } else {
            let u1 = if t1 < a.len() {
                t1
            } else {
                t1 - p.len() + 1
            };
            let u2 = if t2 < a.len() {
                t2
            } else {
                t2 - p.len() + 1
            };
            assert(rs[t1] == old_rs[u1] && rs[t2] == old_rs[u2]);
            assert(separate(old_rs[u1], old_rs[u2]));
        }
    }
    assert forall|i: int, j: int| lo <= i < j < hi implies key_le(
        block,
        n,
        d0,
        #[trigger] s2[i],
        #[trigger] s2[j],
    ) || covered(rs, i, j) by {
        let in_i = e.0 <= i < e.0 + e.1;
        let in_j = e.0 <= j < e.0 + e.1;
        if in_i && in_j {
            if covered(p, i, j) {
                let t = choose|t: int| 0 <= t < p.len() && #[trigger] covers(p[t], i, j);
                assert(rs[a.len() + t] == p[t]);
                assert(covers(rs[a.len() + t], i, j));
            }
        } else {
            // Where `i` or `j` lies in `e`, take the entry it came from.
            let ri = if in_i {
                choose|r: int| e.0 <= r < e.0 + e.1 && #[trigger] s[r] == s2[i]
            } else {
                i
            };
            let rj = if in_j {
                choose|r: int| e.0 <= r < e.0 + e.1 && #[trigger] s[r] == s2[j]
            } else {
                j
            };
            if in_i {
                assert(occurs_in(s2[i], s, e.0 as int, e.0 + e.1));
            } else {
                assert(s2[i] == s[i]);
            }
            if in_j {
                assert(occurs_in(s2[j], s, e.0 as int, e.0 + e.1));
            } else {
                assert(s2[j] == s[j]);
            }
            assert(s2[i] == s[ri] && s2[j] == s[rj]);
            assert(lo <= ri < rj < hi);
            if !key_le(block, n, d0, s[ri], s[rj]) {
                assert(covered(old_rs, ri, rj));
                let t = choose|t: int| 0 <= t < old_rs.len() && #[trigger] covers(old_rs[t], ri, rj);
                if t != ie {
                    if t < ie {
                        assert(separate(old_rs[t], old_rs[ie]));
                    } else {
                        assert(separate(old_rs[ie], old_rs[t]));
                    }
                    assert(!in_i && !in_j);
                    let u = if t < ie {
                        t
                    } else {
                        t + p.len() - 1
                    };
                    assert(rs[u] == old_rs[t]);
                    assert(covers(rs[u], i, j));
                }
            }
        }
    }
}

/// Closing the range `e` after sorting its entries at its own depth keeps
/// the invariants for the other ranges.
pub proof fn lemma_close_sorted(
    block: Seq<u8>,
    n: usize,
    d0: usize,
    s: Seq<u32>,
    s2: Seq<u32>,
    lo: int,
    hi: int,
    a: Seq<Range>,
    e: Range,
    b: Seq<Range>,
    pa: Seq<Seq<u8>>,
    pe: Seq<u8>,
    pb: Seq<Seq<u8>>,
)
    requires
        0 <= lo <= hi <= s.len(),
        all_below(s, lo, hi, n),
        ranges_ok(block, n, d0, s, lo, hi, a + seq![e] + b, pa + seq![pe] + pb),
        sorted_mod(block, n, d0, s, lo, hi, a + seq![e] + b),
        a.len() == pa.len(),
        b.len() == pb.len(),
        permuted_within(s2, s, e.0 as int, e.0 + e.1),
        sorted_range(block, n, e.2, s2, e.0 as int, e.0 + e.1),
    ensures
        ranges_ok(block, n, d0, s2, lo, hi, a + b, pa + pb),
        sorted_mod(block, n, d0, s2, lo, hi, a + b),
{
    let rs = a + seq![e] + b;
    let ps = pa + seq![pe] + pb;
    assert(rs[a.len() as int] == e && ps[a.len() as int] == pe);
    assert(entry_ok(block, n, d0, s, lo, hi, e, pe));
    lemma_prefix_permuted(block, n, s, s2, e.0 as int, e.0 + e.1, d0, e.2, pe);
    lemma_permuted_below(s2, s, e.0 as int, e.0 + e.1, n);
    lemma_sorted_deeper(block, n, d0, e.2, s2, e.0 as int, e.0 + e.1, pe);
    lemma_replace_range(
        block,
        n,
        d0,
        s,
        s2,
        lo,
        hi,
        a,
        e,
        b,
        pa,
        pe,
        pb,
        Seq::<Range>::empty(),
        Seq::<Seq<u8>>::empty(),
    );
    assert(a + Seq::<Range>::empty() + b =~= a + b);
    assert(pa + Seq::<Seq<u8>>::empty() + pb =~= pa + pb);
}

/// A range of at most one entry, or whose entries share their rotations
/// from `d0` to the end, is in order as it stands and can be closed.
pub proof fn lemma_close_flat(
    block: Seq<u8>,
    n: usize,
    d0: usize,
    s: Seq<u32>,
    lo: int,
    hi: int,
    a: Seq<Range>,
    e: Range,
    b: Seq<Range>,
    pa: Seq<Seq<u8>>,
    pe: Seq<u8>,
    pb: Seq<Seq<u8>>,
)
    requires
        0 <= lo <= hi <= s.len(),
        all_below(s, lo, hi, n),
        ranges_ok(block, n, d0, s, lo, hi, a + seq![e] + b, pa + seq![pe] + pb),
        sorted_mod(block, n, d0, s, lo, hi, a + seq![e] + b),
        a.len() == pa.len(),
        b.len() == pb.len(),
        e.1 <= 1 || e.2 == n,
    ensures
        ranges_ok(block, n, d0, s, lo, hi, a + b, pa + pb),
        sorted_mod(block, n, d0, s, lo, hi, a + b),
{
    let rs = a + seq![e] + b;
    let ps = pa + seq![pe] + pb;
    assert(rs[a.len() as int] == e && ps[a.len() as int] == pe);
    assert(entry_ok(block, n, d0, s, lo, hi, e, pe));
    lemma_permuted_refl(s, e.0 as int, e.0 + e.1);
    assert forall|i: int, j: int|
        e.0 <= i < j < e.0 + e.1 implies key_le(block, n, d0, #[trigger] s[i], #[trigger] s[j])
        || covered(Seq::<Range>::empty(), i, j) by {
        lemma_full_prefix_le(block, n, d0, s[i], s[j], pe);
    }
    lemma_replace_range(
        block,
        n,
        d0,
        s,
        s,
        lo,
        hi,
        a,
        e,
        b,
        pa,
        pe,
        pb,
        Seq::<Range>::empty(),
        Seq::<Seq<u8>>::empty(),
    );
    assert(a + Seq::<Range>::empty() + b =~= a + b);
    assert(pa + Seq::<Seq<u8>>::empty() + pb =~= pa + pb);
}

/// When every entry of `e` has the same word at `e`'s depth, `e` can be
/// replaced by the same range two bytes deeper.
pub proof fn lemma_deepen_range(
    block: Seq<u8>,
    n: usize,
    d0: usize,
    s: Seq<u32>,
    s2: Seq<u32>,
    lo: int,
    hi: int,
    a: Seq<Range>,
    e: Range,
    pa: Seq<Seq<u8>>,
    pe: Seq<u8>,
    pivot: nat,
)
    requires
        0 <= lo <= hi <= s.len(),
        all_below(s, lo, hi, n),
        ranges_ok(block, n, d0, s, lo, hi, a + seq![e], pa + seq![pe]),
        sorted_mod(block, n, d0, s, lo, hi, a + seq![e]),
        a.len() == pa.len(),
        e.1 >= 1,
        e.2 + 2 <= n,
        permuted_within(s2, s, e.0 as int, e.0 + e.1),
        forall|q: int| e.0 <= q < e.0 + e.1 ==> word_at(block, n, #[trigger] s2[q], e.2) == pivot,
    ensures
        ({
            let e2: Range = (e.0, e.1, (e.2 + 2) as usize);
            let w = rotation(block, n as int, s2[e.0 as int] as int).subrange(e.2 as int, e.2 + 2);
            &&& ranges_ok(block, n, d0, s2, lo, hi, a + seq![e2], pa + seq![pe + w])
            &&& sorted_mod(block, n, d0, s2, lo, hi, a + seq![e2])
            &&& measure(a + seq![e2], n) < measure(a + seq![e], n)
        }),
{
    let e2: Range = (e.0, e.1, (e.2 + 2) as usize);
    let w = rotation(block, n as int, s2[e.0 as int] as int).subrange(e.2 as int, e.2 + 2);
    assert(a + seq![e] =~= a + seq![e] + Seq::<Range>::empty());
    assert(pa + seq![pe] =~= pa + seq![pe] + Seq::<Seq<u8>>::empty());
    let rs = a + seq![e];
    assert(rs[a.len() as int] == e);
    assert(entry_ok(block, n, d0, s, lo, hi, e, pe));
    lemma_prefix_permuted(block, n, s, s2, e.0 as int, e.0 + e.1, d0, e.2, pe);
    assert forall|q: int| e.0 <= q < e.0 + e.1 implies has_prefix(
        block,
        n,
        #[trigger] s2[q],
        d0,
        e2.2,
        pe + w,
    ) by {
        lemma_prefix_extend(block, n, d0, e.2, s2[e.0 as int], s2[q], pe);
    }
    assert forall|i: int, j: int|
        e.0 <= i < j < e.0 + e.1 implies key_le(block, n, d0, #[trigger] s2[i], #[trigger] s2[j])
        || covered(seq![e2], i, j) by {
        assert(covers(seq![e2][0], i, j));
    }
    lemma_replace_range(
        block,
        n,
        d0,
        s,
        s2,
        lo,
        hi,
        a,
        e,
        Seq::<Range>::empty(),
        pa,
        pe,
        Seq::<Seq<u8>>::empty(),
        seq![e2],
        seq![pe + w],
    );
    assert(a + seq![e2] + Seq::<Range>::empty() =~= a + seq![e2]);
    assert(pa + seq![pe + w] + Seq::<Seq<u8>>::empty() =~= pa + seq![pe + w]);
    lemma_measure_concat(a, seq![e], n);
    lemma_measure_concat(a, seq![e2], n);
    lemma_measure_single(e, n);
    lemma_measure_single(e2, n);
    assert(e.1 * (n + 1 - e.2 - 2) < e.1 * (n + 1 - e.2)) by (nonlinear_arith)
        requires
            e.1 >= 1,
    ;
}

/// Splitting `e` into the parts below, at and above the pivot word, listed
/// in `parts` in any order, keeps the invariants and leaves less work.
pub proof fn lemma_split_range(
    block: Seq<u8>,
    n: usize,
    d0: usize,
    s: Seq<u32>,
    s2: Seq<u32>,
    lo: int,
    hi: int,
    a: Seq<Range>,
    e: Range,
    pa: Seq<Seq<u8>>,
    pe: Seq<u8>,
    lt: usize,
    gt: usize,
    pivot: nat,
    parts: Seq<Range>,
    pparts: Seq<Seq<u8>>,
)
    requires
        0 <= lo <= hi <= s.len(),
        all_below(s, lo, hi, n),
        ranges_ok(block, n, d0, s, lo, hi, a + seq![e], pa + seq![pe]),
        sorted_mod(block, n, d0, s, lo, hi, a + seq![e]),
        a.len() == pa.len(),
        e.2 + 2 <= n,
        e.0 + e.1 <= usize::MAX,
        permuted_within(s2, s, e.0 as int, e.0 + e.1),
        lt < gt <= e.1,
        forall|q: int| e.0 <= q < e.0 + lt ==> word_at(block, n, #[trigger] s2[q], e.2) < pivot,
        forall|q: int|
            e.0 + lt <= q < e.0 + gt ==> word_at(block, n, #[trigger] s2[q], e.2) == pivot,
        forall|q: int|
            e.0 + gt <= q < e.0 + e.1 ==> word_at(block, n, #[trigger] s2[q], e.2) > pivot,
        parts.len() == 3,
        pparts.len() == 3,
        parts[0] != parts[1] && parts[0] != parts[2] && parts[1] != parts[2],
        ({
            let lpart: Range = (e.0, lt, e.2);
            let mpart: Range = ((e.0 + lt) as usize, (gt - lt) as usize, (e.2 + 2) as usize);
            let gpart: Range = ((e.0 + gt) as usize, (e.1 - gt) as usize, e.2);
            let w = rotation(block, n as int, s2[e.0 + lt] as int).subrange(e.2 as int, e.2 + 2);
            &&& forall|t: int|
                0 <= t < 3 ==> (parts[t] == lpart && pparts[t] == pe) || (parts[t] == mpart
                    && pparts[t] == pe + w) || (parts[t] == gpart && pparts[t] == pe)
            &&& (parts[0] == lpart || parts[1] == lpart || parts[2] == lpart)
            &&& (parts[0] == mpart || parts[1] == mpart || parts[2] == mpart)
            &&& (parts[0] == gpart || parts[1] == gpart || parts[2] == gpart)
        }),
    ensures
        ranges_ok(block, n, d0, s2, lo, hi, a + parts, pa + pparts),
        sorted_mod(block, n, d0, s2, lo, hi, a + parts),
        measure(a + parts, n) < measure(a + seq![e], n),
{
    let lpart: Range = (e.0, lt, e.2);
    let mpart: Range = ((e.0 + lt) as usize, (gt - lt) as usize, (e.2 + 2) as usize);
    let gpart: Range = ((e.0 + gt) as usize, (e.1 - gt) as usize, e.2);
    let w = rotation(block, n as int, s2[e.0 + lt] as int).subrange(e.2 as int, e.2 + 2);
    assert(a + seq![e] =~= a + seq![e] + Seq::<Range>::empty());
    assert(pa + seq![pe] =~= pa + seq![pe] + Seq::<Seq<u8>>::empty());
    let rs = a + seq![e];
    assert(rs[a.len() as int] == e);
    assert(entry_ok(block, n, d0, s, lo, hi, e, pe));
    lemma_prefix_permuted(block, n, s, s2, e.0 as int, e.0 + e.1, d0, e.2, pe);
    lemma_permuted_below(s2, s, e.0 as int, e.0 + e.1, n);
    assert forall|q: int| e.0 + lt <= q < e.0 + gt implies has_prefix(
        block,
        n,
        #[trigger] s2[q],
        d0,
        mpart.2,
        pe + w,
    ) by {
        lemma_prefix_extend(block, n, d0, e.2, s2[e.0 + lt], s2[q], pe);
    }
    assert(entry_ok(block, n, d0, s2, lo, hi, lpart, pe));
    assert(entry_ok(block, n, d0, s2, lo, hi, mpart, pe + w));
    assert(entry_ok(block, n, d0, s2, lo, hi, gpart, pe));
    let l3 = seq![lpart, mpart, gpart];
    assert forall|i: int, j: int|
        e.0 <= i < j < e.0 + e.1 implies key_le(block, n, d0, #[trigger] s2[i], #[trigger] s2[j])
        || covered(parts, i, j) by {
        let ri = if i < e.0 + lt {
            0int
        } else if i < e.0 + gt {
            1
        } else {
            2
        };
        let rj = if j < e.0 + lt {
            0int
        } else if j < e.0 + gt {
            1
        } else {
            2
        };
        if ri == rj {
            assert(covers(l3[ri], i, j));
            let u = if parts[0] == l3[ri] {
                0int
            } else if parts[1] == l3[ri] {
                1
            } else {
                2
            };
            assert(covers(parts[u], i, j));
        } else {
            lemma_word_order(block, n, d0, e.2, s2[i], s2[j], pe);
        }
    }
    assert forall|t: int| 0 <= t < parts.len() implies entry_ok(
        block,
        n,
        d0,
        s2,
        lo,
        hi,
        #[trigger] parts[t],
        pparts[t],
    ) && e.0 <= parts[t].0 && parts[t].0 + parts[t].1 <= e.0 + e.1 by {}
    assert forall|t1: int, t2: int| 0 <= t1 < t2 < parts.len() implies separate(
        #[trigger] parts[t1],
        #[trigger] parts[t2],
    ) by {}
    lemma_replace_range(
        block,
        n,
        d0,
        s,
        s2,
        lo,
        hi,
        a,
        e,
        Seq::<Range>::empty(),
        pa,
        pe,
        Seq::<Seq<u8>>::empty(),
        parts,
        pparts,
    );
    assert(a + parts + Seq::<Range>::empty() =~= a + parts);
    assert(pa + pparts + Seq::<Seq<u8>>::empty() =~= pa + pparts);
    lemma_measure_concat(a, seq![e], n);
    lemma_measure_concat(a, parts, n);
    lemma_measure_single(e, n);
    assert(parts.drop_last().drop_last().drop_last() =~= Seq::<Range>::empty());
    assert(measure(Seq::<Range>::empty(), n) == 0);
    reveal_with_fuel(measure, 4);
    assert(measure(parts, n) == weight(lpart, n) + weight(mpart, n) + weight(gpart, n));
    lemma_split_weight(e.0, e.1, lt, gt, e.2, n);
}

} // verus!
