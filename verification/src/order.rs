//! What it means for an array of text positions to be sorted by their
//! rotations, and for one array to be a rearrangement of another.

use vstd::prelude::*;
use crate::lex::{
    lex_lt, lemma_lex_asymmetric, lemma_lex_irreflexive, lemma_lex_total, lemma_lex_transitive,
};
use crate::rotation::rotation_key;

verus! {

/// The key of text position `x` in a sort at `depth`.
pub open spec fn elem_key(block: Seq<u8>, n: usize, x: u32, depth: usize) -> Seq<u8> {
    rotation_key(block, n, x as usize, depth)
}

/// Position `x` may stand before position `y` in a sort at `depth`.
pub open spec fn key_le(block: Seq<u8>, n: usize, depth: usize, x: u32, y: u32) -> bool {
    !lex_lt(elem_key(block, n, y, depth), elem_key(block, n, x, depth))
}

/// `s[lo..hi]` is ordered by the rotations of its entries, compared from
/// byte `depth` on.
pub open spec fn sorted_range(block: Seq<u8>, n: usize, depth: usize, s: Seq<u32>, lo: int, hi: int) -> bool {
    forall|i: int, j: int| lo <= i < j < hi ==> key_le(block, n, depth, #[trigger] s[i], #[trigger] s[j])
}

/// Every entry of `s[lo..hi]` is a position of the text.
pub open spec fn all_below(s: Seq<u32>, lo: int, hi: int, n: usize) -> bool {
    forall|i: int| lo <= i < hi ==> #[trigger] s[i] < n
}

/// `x` is an entry of `old[lo..hi]`.
pub open spec fn occurs_in(x: u32, old: Seq<u32>, lo: int, hi: int) -> bool {
    exists|r: int| lo <= r < hi && #[trigger] old[r] == x
}

/// Every entry of `t[lo..hi]` was an entry of `old[lo..hi]`.
pub open spec fn from_range(t: Seq<u32>, old: Seq<u32>, lo: int, hi: int) -> bool {
    forall|q: int| lo <= q < hi ==> occurs_in(#[trigger] t[q], old, lo, hi)
}

/// `t` is `old` with the entries of `old[lo..hi]` rearranged among
/// themselves and everything else left in place.
pub open spec fn permuted_within(t: Seq<u32>, old: Seq<u32>, lo: int, hi: int) -> bool {
    &&& t.len() == old.len()
    &&& 0 <= lo <= hi <= t.len()
    &&& t.to_multiset() == old.to_multiset()
    &&& forall|q: int| 0 <= q < t.len() && !(lo <= q < hi) ==> #[trigger] t[q] == old[q]
    &&& from_range(t, old, lo, hi)
}

/// `t` with its entries at `a` and `b` exchanged.
pub open spec fn swapped(t: Seq<u32>, a: int, b: int) -> Seq<u32> {
    t.update(a, t[b]).update(b, t[a])
}

/// Overwriting one entry trades its value for the new one in the multiset.
pub proof fn lemma_update_multiset(t: Seq<u32>, i: int, v: u32)
    requires
        0 <= i < t.len(),
    ensures
        t.update(i, v).to_multiset() == t.to_multiset().remove(t[i]).insert(v),
{
    broadcast use vstd::seq_lib::group_to_multiset_ensures;

    let u = t.update(i, v);
    assert(u.remove(i) =~= t.remove(i));
    assert(u.to_multiset().remove(v) == t.to_multiset().remove(t[i]));
    assert(u.contains(v)) by {
        assert(u[i] == v);
    }
    assert(u.to_multiset() =~= u.to_multiset().remove(v).insert(v));
}

/// Exchanging two entries keeps the multiset of entries.
pub proof fn lemma_swap_multiset(t: Seq<u32>, a: int, b: int)
    requires
        0 <= a < t.len(),
        0 <= b < t.len(),
    ensures
        swapped(t, a, b).to_multiset() == t.to_multiset(),
{
    broadcast use vstd::seq_lib::group_to_multiset_ensures;

    let u = t.update(a, t[b]);
    lemma_update_multiset(t, a, t[b]);
    lemma_update_multiset(u, b, t[a]);
    if a == b {
        assert(swapped(t, a, b) =~= t);
    } else {
        assert(t.contains(t[a]));
        assert(t.to_multiset().remove(t[a]).insert(t[b]).remove(t[b]) =~= t.to_multiset().remove(t[a]));
        assert(t.to_multiset().remove(t[a]).insert(t[a]) =~= t.to_multiset());
    }
}

/// An array is a rearrangement of itself.
pub proof fn lemma_permuted_refl(t: Seq<u32>, lo: int, hi: int)
    requires
        0 <= lo <= hi <= t.len(),
    ensures
        permuted_within(t, t, lo, hi),
{
    assert forall|q: int| lo <= q < hi implies occurs_in(#[trigger] t[q], t, lo, hi) by {
        assert(t[q] == t[q]);
    }
}

/// Exchanging two entries inside the range keeps a rearrangement a
/// rearrangement.
pub proof fn lemma_swap_permuted(t: Seq<u32>, old: Seq<u32>, lo: int, hi: int, a: int, b: int)
    requires
        permuted_within(t, old, lo, hi),
        lo <= a < hi,
        lo <= b < hi,
    ensures
        permuted_within(swapped(t, a, b), old, lo, hi),
{
    let u = swapped(t, a, b);
    lemma_swap_multiset(t, a, b);
    assert forall|q: int| lo <= q < hi implies occurs_in(#[trigger] u[q], old, lo, hi) by {
        let q2 = if q == a {
            b
        } else if q == b {
            a
        } else {
            q
        };
        assert(u[q] == t[q2]);
        assert(occurs_in(t[q2], old, lo, hi));
    }
}

/// A rearrangement of a rearrangement is one, over the wider range.
pub proof fn lemma_permuted_trans(
    t: Seq<u32>,
    m: Seq<u32>,
    old: Seq<u32>,
    lo: int,
    hi: int,
    lo2: int,
    hi2: int,
)
    requires
        permuted_within(t, m, lo, hi),
        permuted_within(m, old, lo2, hi2),
        lo2 <= lo,
        hi <= hi2,
    ensures
        permuted_within(t, old, lo2, hi2),
{
    assert forall|q: int| lo2 <= q < hi2 implies occurs_in(#[trigger] t[q], old, lo2, hi2) by {
        if lo <= q < hi {
            assert(occurs_in(t[q], m, lo, hi));
            let r1 = choose|r: int| lo <= r < hi && #[trigger] m[r] == t[q];
            assert(occurs_in(m[r1], old, lo2, hi2));
        } else {
            assert(t[q] == m[q]);
            assert(occurs_in(m[q], old, lo2, hi2));
        }
    }
}

/// A rearrangement within a range is one within any wider range.
pub proof fn lemma_permuted_widen(t: Seq<u32>, old: Seq<u32>, lo: int, hi: int, lo2: int, hi2: int)
    requires
        permuted_within(t, old, lo, hi),
        0 <= lo2 <= lo,
        hi <= hi2 <= t.len(),
    ensures
        permuted_within(t, old, lo2, hi2),
{
    assert forall|q: int| lo2 <= q < hi2 implies occurs_in(#[trigger] t[q], old, lo2, hi2) by {
        if lo <= q < hi {
            assert(occurs_in(t[q], old, lo, hi));
            let r = choose|r: int| lo <= r < hi && #[trigger] old[r] == t[q];
            assert(occurs_in(t[q], old, lo2, hi2));
        } else {
            assert(old[q] == t[q]);
        }
    }
}

/// A rearrangement of positions of the text holds positions of the text.
pub proof fn lemma_permuted_below(t: Seq<u32>, old: Seq<u32>, lo: int, hi: int, n: usize)
    requires
        permuted_within(t, old, lo, hi),
        all_below(old, lo, hi, n),
    ensures
        all_below(t, lo, hi, n),
{
    assert forall|i: int| lo <= i < hi implies #[trigger] t[i] < n by {
        assert(occurs_in(t[i], old, lo, hi));
    }
}

/// The order on positions is reflexive.
pub proof fn lemma_key_le_refl(block: Seq<u8>, n: usize, depth: usize, x: u32)
    ensures
        key_le(block, n, depth, x, x),
{
    lemma_lex_irreflexive(elem_key(block, n, x, depth));
}

/// A strictly smaller key may stand first.
pub proof fn lemma_key_lt_le(block: Seq<u8>, n: usize, depth: usize, x: u32, y: u32)
    requires
        x < n,
        y < n,
        depth <= n,
        lex_lt(elem_key(block, n, x, depth), elem_key(block, n, y, depth)),
    ensures
        key_le(block, n, depth, x, y),
{
    lemma_lex_asymmetric(elem_key(block, n, x, depth), elem_key(block, n, y, depth));
}

/// The order on positions is transitive.
pub proof fn lemma_key_le_trans(block: Seq<u8>, n: usize, depth: usize, x: u32, y: u32, z: u32)
    requires
        x < n,
        y < n,
        z < n,
        depth <= n,
        key_le(block, n, depth, x, y),
        key_le(block, n, depth, y, z),
    ensures
        key_le(block, n, depth, x, z),
{
    let (kx, ky, kz) = (
        elem_key(block, n, x, depth),
        elem_key(block, n, y, depth),
        elem_key(block, n, z, depth),
    );
    lemma_lex_total(kx, ky);
    lemma_lex_total(ky, kz);
    if lex_lt(kz, kx) {
        if lex_lt(kx, ky) {
            lemma_lex_transitive(kz, kx, ky);
        }
    }
}

/// The entries of `s[lo..hi]` are pairwise distinct.
pub open spec fn distinct_range(s: Seq<u32>, lo: int, hi: int) -> bool {
    forall|i: int, j: int| lo <= i < j < hi ==> #[trigger] s[i] != #[trigger] s[j]
}

/// A rearrangement within `[lo, hi)` keeps the multiset of `[lo, hi)`.
pub proof fn lemma_permuted_window(t: Seq<u32>, old: Seq<u32>, lo: int, hi: int)
    requires
        permuted_within(t, old, lo, hi),
    ensures
        t.subrange(lo, hi).to_multiset() == old.subrange(lo, hi).to_multiset(),
{
    let (ta, tb, tc) = (t.subrange(0, lo), t.subrange(lo, hi), t.subrange(hi, t.len() as int));
    let (oa, ob, oc) = (
        old.subrange(0, lo),
        old.subrange(lo, hi),
        old.subrange(hi, old.len() as int),
    );
    assert(ta =~= oa);
    assert(tc =~= oc);
    assert(t =~= ta + tb + tc);
    assert(old =~= oa + ob + oc);
    vstd::seq_lib::lemma_multiset_commutative(ta + tb, tc);
    vstd::seq_lib::lemma_multiset_commutative(ta, tb);
    vstd::seq_lib::lemma_multiset_commutative(oa + ob, oc);
    vstd::seq_lib::lemma_multiset_commutative(oa, ob);
    assert(tb.to_multiset() =~= ob.to_multiset()) by {
        assert forall|x: u32| tb.to_multiset().count(x) == ob.to_multiset().count(x) by {
            assert(t.to_multiset().count(x) == old.to_multiset().count(x));
        }
    }
}

/// Rearranging distinct entries keeps them distinct, and keeps every one
/// of them.
pub proof fn lemma_permuted_distinct(t: Seq<u32>, old: Seq<u32>, lo: int, hi: int)
    requires
        permuted_within(t, old, lo, hi),
        distinct_range(old, lo, hi),
    ensures
        distinct_range(t, lo, hi),
        forall|i: int| lo <= i < hi ==> occurs_in(#[trigger] old[i], t, lo, hi),
{
    broadcast use vstd::seq_lib::group_to_multiset_ensures;

    lemma_permuted_window(t, old, lo, hi);
    let tw = t.subrange(lo, hi);
    let ow = old.subrange(lo, hi);
    assert(ow.no_duplicates()) by {
        assert forall|i: int, j: int| 0 <= i < ow.len() && 0 <= j < ow.len() && i != j implies ow[i]
            != ow[j] by {
            if i < j {
                assert(old[lo + i] != old[lo + j]);
            } else {
                assert(old[lo + j] != old[lo + i]);
            }
        }
    }
    ow.lemma_multiset_has_no_duplicates();
    tw.lemma_multiset_has_no_duplicates_conv();
    assert forall|i: int, j: int| lo <= i < j < hi implies #[trigger] t[i] != #[trigger] t[j] by {
        assert(tw[i - lo] == t[i] && tw[j - lo] == t[j]);
    }
    assert forall|i: int| lo <= i < hi implies occurs_in(#[trigger] old[i], t, lo, hi) by {
        assert(ow[i - lo] == old[i]);
        assert(ow.contains(old[i]));
        assert(ow.to_multiset().count(old[i]) > 0);
        assert(tw.to_multiset().count(old[i]) > 0);
        assert(tw.contains(old[i]));
        let r = choose|r: int| 0 <= r < tw.len() && tw[r] == old[i];
        assert(t[lo + r] == old[i]);
    }
}

/// `p` says, for each slot of `t[lo..hi]`, the slot of `old[lo..hi]` whose
/// entry it holds; no two slots come from the same one.
pub open spec fn tracks(t: Seq<u32>, old: Seq<u32>, lo: int, hi: int, p: Seq<int>) -> bool {
    &&& p.len() == t.len()
    &&& forall|q: int| lo <= q < hi ==> lo <= #[trigger] p[q] < hi && t[q] == old[p[q]]
    &&& forall|q1: int, q2: int| lo <= q1 < q2 < hi ==> #[trigger] p[q1] != #[trigger] p[q2]
}

/// Entries of `t[lo..hi]` whose keys at `depth` are equal stand in the
/// order of the slots they came from, as `p` tells them.
pub open spec fn keeps_ties(block: Seq<u8>, n: usize, depth: usize, t: Seq<u32>, lo: int, hi: int, p: Seq<int>) -> bool {
    forall|q1: int, q2: int|
        lo <= q1 < q2 < hi && elem_key(block, n, t[q1], depth) == elem_key(block, n, t[q2], depth)
            ==> #[trigger] p[q1] < #[trigger] p[q2]
}

/// `t[lo..hi]` rearranges `old[lo..hi]` keeping entries with equal keys at
/// `depth` in their old order: the rearrangement of a stable sort.
pub open spec fn stable_within(block: Seq<u8>, n: usize, depth: usize, t: Seq<u32>, old: Seq<u32>, lo: int, hi: int) -> bool {
    exists|p: Seq<int>| tracks(t, old, lo, hi, p) && keeps_ties(block, n, depth, t, lo, hi, p)
}

/// Leaving `t[lo..hi]` as it is keeps it in order.
pub proof fn lemma_stable_refl(block: Seq<u8>, n: usize, depth: usize, t: Seq<u32>, lo: int, hi: int)
    requires
        0 <= lo <= hi <= t.len(),
    ensures
        stable_within(block, n, depth, t, t, lo, hi),
{
    let p = Seq::new(t.len(), |q: int| q);
    assert(tracks(t, t, lo, hi, p));
    assert(keeps_ties(block, n, depth, t, lo, hi, p));
}

/// Where the entry at slot `q` was before the entries at `a` and `a + 1`
/// were exchanged.
pub open spec fn swap_slot(a: int, q: int) -> int {
    if q == a {
        a + 1
    } else if q == a + 1 {
        a
    } else {
        q
    }
}

/// Exchanging two neighbouring entries keeps the tracking of where
/// entries came from.
pub proof fn lemma_swap_tracks(t: Seq<u32>, old: Seq<u32>, lo: int, hi: int, p: Seq<int>, a: int)
    requires
        tracks(t, old, lo, hi, p),
        0 <= lo <= a,
        a + 1 < hi <= t.len(),
    ensures
        tracks(swapped(t, a, a + 1), old, lo, hi, p.update(a, p[a + 1]).update(a + 1, p[a])),
{
    let u = swapped(t, a, a + 1);
    let p2 = p.update(a, p[a + 1]).update(a + 1, p[a]);
    assert forall|q: int| 0 <= q < t.len() implies #[trigger] u[q] == t[swap_slot(a, q)] && p2[q]
        == p[swap_slot(a, q)] by {}
    assert forall|q: int| lo <= q < hi implies lo <= #[trigger] p2[q] < hi && u[q] == old[p2[q]] by {
        assert(u[q] == t[swap_slot(a, q)]);
    }
    assert forall|q1: int, q2: int| lo <= q1 < q2 < hi implies #[trigger] p2[q1] != #[trigger] p2[q2] by {
        assert(p2[q1] == p[swap_slot(a, q1)] && p2[q2] == p[swap_slot(a, q2)]);
        if swap_slot(a, q1) > swap_slot(a, q2) {
            assert(p[swap_slot(a, q2)] != p[swap_slot(a, q1)]);
        }
    }
}

/// Exchanging two neighbouring entries of unequal keys keeps the tracking
/// of where entries came from, and the order of equal keys among the
/// slots below `top`.
pub proof fn lemma_swap_keeps_ties(
    block: Seq<u8>,
    n: usize,
    depth: usize,
    t: Seq<u32>,
    old: Seq<u32>,
    lo: int,
    hi: int,
    top: int,
    p: Seq<int>,
    a: int,
)
    requires
        tracks(t, old, lo, hi, p),
        keeps_ties(block, n, depth, t, lo, top, p),
        0 <= lo <= a,
        a + 1 < top <= hi,
        hi <= t.len(),
        elem_key(block, n, t[a], depth) != elem_key(block, n, t[a + 1], depth),
    ensures
        tracks(swapped(t, a, a + 1), old, lo, hi, p.update(a, p[a + 1]).update(a + 1, p[a])),
        keeps_ties(block, n, depth, swapped(t, a, a + 1), lo, top, p.update(a, p[a + 1]).update(a + 1, p[a])),
{
    let u = swapped(t, a, a + 1);
    let p2 = p.update(a, p[a + 1]).update(a + 1, p[a]);
    lemma_swap_tracks(t, old, lo, hi, p, a);
    assert forall|q: int| 0 <= q < t.len() implies #[trigger] u[q] == t[swap_slot(a, q)] && p2[q]
        == p[swap_slot(a, q)] by {}
    assert forall|q1: int, q2: int|
        lo <= q1 < q2 < top && elem_key(block, n, u[q1], depth) == elem_key(block, n, u[q2], depth)
            implies #[trigger] p2[q1] < #[trigger] p2[q2] by {
        assert(u[q1] == t[swap_slot(a, q1)] && p2[q1] == p[swap_slot(a, q1)]);
        assert(u[q2] == t[swap_slot(a, q2)] && p2[q2] == p[swap_slot(a, q2)]);
    }
}

/// A rearrangement that keeps equal keys in order, of entries already in
/// order, into order, changes nothing: sorting sorted entries stably
/// leaves them as they were.
pub proof fn lemma_stable_sorted_unchanged(
    block: Seq<u8>,
    n: usize,
    depth: usize,
    t: Seq<u32>,
    old: Seq<u32>,
    lo: int,
    hi: int,
)
    requires
        0 <= lo <= hi <= old.len(),
        t.len() == old.len(),
        depth <= n,
        all_below(old, lo, hi, n),
        sorted_range(block, n, depth, old, lo, hi),
        sorted_range(block, n, depth, t, lo, hi),
        stable_within(block, n, depth, t, old, lo, hi),
    ensures
        t.subrange(lo, hi) == old.subrange(lo, hi),
{
    let p = choose|p: Seq<int>| tracks(t, old, lo, hi, p) && keeps_ties(block, n, depth, t, lo, hi, p);
    assert forall|q1: int, q2: int| lo <= q1 < q2 < hi implies #[trigger] p[q1] < #[trigger] p[q2] by {
        let (x, y) = (t[q1], t[q2]);
        let (kx, ky) = (elem_key(block, n, x, depth), elem_key(block, n, y, depth));
        if kx != ky && p[q1] > p[q2] {
            assert(key_le(block, n, depth, x, y));
            assert(key_le(block, n, depth, old[p[q2]], old[p[q1]]));
            lemma_lex_total(kx, ky);
        }
    }
    assert forall|q: int| lo <= q < hi implies #[trigger] p[q] == q by {
        lemma_increasing_low(p, lo, hi, q);
        lemma_increasing_high(p, lo, hi, q);
    }
    assert forall|q: int| lo <= q < hi implies #[trigger] t[q] == old[q] by {
        assert(p[q] == q);
    }
    assert(t.subrange(lo, hi) =~= old.subrange(lo, hi));
}

proof fn lemma_increasing_low(p: Seq<int>, lo: int, hi: int, q: int)
    requires
        lo <= q < hi,
        forall|q: int| lo <= q < hi ==> lo <= #[trigger] p[q] < hi,
        forall|q1: int, q2: int| lo <= q1 < q2 < hi ==> #[trigger] p[q1] < #[trigger] p[q2],
    ensures
        q <= p[q],
    decreases q - lo,
{
    if q > lo {
        lemma_increasing_low(p, lo, hi, q - 1);
        assert(p[q - 1] < p[q]);
    }
}

proof fn lemma_increasing_high(p: Seq<int>, lo: int, hi: int, q: int)
    requires
        lo <= q < hi,
        forall|q: int| lo <= q < hi ==> lo <= #[trigger] p[q] < hi,
        forall|q1: int, q2: int| lo <= q1 < q2 < hi ==> #[trigger] p[q1] < #[trigger] p[q2],
    ensures
        p[q] <= q,
    decreases hi - q,
{
    if q < hi - 1 {
        lemma_increasing_high(p, lo, hi, q + 1);
        assert(p[q] < p[q + 1]);
    }
}

/// A one-to-one map of the slots `[lo, hi)` into themselves reaches every
/// slot.
proof fn lemma_tracks_onto(p: Seq<int>, lo: int, hi: int, r: int) -> (q: int)
    requires
        lo <= r < hi,
        hi <= p.len(),
        forall|q: int| lo <= q < hi ==> lo <= #[trigger] p[q] < hi,
        forall|q1: int, q2: int| lo <= q1 < q2 < hi ==> #[trigger] p[q1] != #[trigger] p[q2],
    ensures
        lo <= q < hi,
        p[q] == r,
{
    if forall|q: int| lo <= q < hi ==> #[trigger] p[q] != r {
        let v = Seq::new((hi - lo) as nat, |k: int| p[lo + k]);
        assert(v.no_duplicates()) by {
            assert forall|k1: int, k2: int| 0 <= k1 < v.len() && 0 <= k2 < v.len() && k1 != k2 implies v[k1]
                != v[k2] by {
                if k1 < k2 {
                    assert(p[lo + k1] != p[lo + k2]);
                } else {
                    assert(p[lo + k2] != p[lo + k1]);
                }
            }
        }
        v.unique_seq_to_set();
        let range = vstd::set_lib::set_int_range(lo, hi);
        vstd::set_lib::lemma_int_range(lo, hi);
        assert(v.to_set().subset_of(range.remove(r))) by {
            assert forall|x: int| v.to_set().contains(x) implies range.remove(r).contains(x) by {
                let k = choose|k: int| 0 <= k < v.len() && v[k] == x;
                assert(p[lo + k] == x);
            }
        }
        vstd::set_lib::lemma_len_subset(v.to_set(), range.remove(r));
    }
    choose|q: int| lo <= q < hi && p[q] == r
}

/// Sorting stably has one result: two rearrangements of the same entries
/// that are both in order and both keep equal keys in their old order are
/// equal.
pub proof fn lemma_stable_sort_unique(
    block: Seq<u8>,
    n: usize,
    depth: usize,
    old: Seq<u32>,
    t1: Seq<u32>,
    t2: Seq<u32>,
    lo: int,
    hi: int,
)
    requires
        0 <= lo <= hi <= old.len(),
        t1.len() == old.len(),
        t2.len() == old.len(),
        depth <= n,
        all_below(old, lo, hi, n),
        sorted_range(block, n, depth, t1, lo, hi),
        sorted_range(block, n, depth, t2, lo, hi),
        stable_within(block, n, depth, t1, old, lo, hi),
        stable_within(block, n, depth, t2, old, lo, hi),
    ensures
        t1.subrange(lo, hi) == t2.subrange(lo, hi),
{
    let p1 = choose|p: Seq<int>| tracks(t1, old, lo, hi, p) && keeps_ties(block, n, depth, t1, lo, hi, p);
    let p2 = choose|p: Seq<int>| tracks(t2, old, lo, hi, p) && keeps_ties(block, n, depth, t2, lo, hi, p);
    let m = Seq::new(t1.len(), |q: int| if lo <= q < hi { choose|q2: int| lo <= q2 < hi && p2[q2] == p1[q] } else { q });
    assert forall|q: int| lo <= q < hi implies lo <= #[trigger] m[q] < hi && p2[m[q]] == p1[q] by {
        lemma_tracks_onto(p2, lo, hi, p1[q]);
    }
    assert(tracks(t1, t2, lo, hi, m));
    assert(keeps_ties(block, n, depth, t1, lo, hi, m)) by {
        assert forall|q1: int, q2: int|
            lo <= q1 < q2 < hi && elem_key(block, n, t1[q1], depth) == elem_key(block, n, t1[q2], depth)
                implies #[trigger] m[q1] < #[trigger] m[q2] by {
            assert(p1[q1] < p1[q2]);
            assert(m[q1] != m[q2]);
            if m[q2] < m[q1] {
                assert(p2[m[q2]] < p2[m[q1]]);
            }
        }
    }
    assert forall|q: int| lo <= q < hi implies #[trigger] t2[q] < n by {
        assert(lo <= p2[q] < hi);
    }
    lemma_stable_sorted_unchanged(block, n, depth, t1, t2, lo, hi);
}

/// No two entries of `s[lo..hi]` have equal keys at `depth`.
pub open spec fn tie_free(block: Seq<u8>, n: usize, depth: usize, s: Seq<u32>, lo: int, hi: int) -> bool {
    forall|r1: int, r2: int|
        lo <= r1 < r2 < hi ==> elem_key(block, n, #[trigger] s[r1], depth) != elem_key(
            block,
            n,
            #[trigger] s[r2],
            depth,
        )
}

/// Rearranging within `[lo, hi)` rearranges the entries of that range.
proof fn lemma_permuted_range_multiset(t: Seq<u32>, old: Seq<u32>, lo: int, hi: int)
    requires
        permuted_within(t, old, lo, hi),
    ensures
        t.subrange(lo, hi).to_multiset() == old.subrange(lo, hi).to_multiset(),
{
    let (a1, m1, b1) = (t.subrange(0, lo), t.subrange(lo, hi), t.subrange(hi, t.len() as int));
    let (a2, m2, b2) = (old.subrange(0, lo), old.subrange(lo, hi), old.subrange(hi, old.len() as int));
    assert(a1 =~= a2);
    assert(b1 =~= b2);
    assert(t =~= a1 + (m1 + b1));
    assert(old =~= a2 + (m2 + b2));
    vstd::seq_lib::lemma_multiset_commutative(a1, m1 + b1);
    vstd::seq_lib::lemma_multiset_commutative(m1, b1);
    vstd::seq_lib::lemma_multiset_commutative(a2, m2 + b2);
    vstd::seq_lib::lemma_multiset_commutative(m2, b2);
    assert forall|x: u32| m1.to_multiset().count(x) == m2.to_multiset().count(x) by {
        assert(t.to_multiset().count(x) == old.to_multiset().count(x));
    }
    assert(m1.to_multiset() =~= m2.to_multiset());
}

/// A rearrangement of entries no two of which have equal keys keeps equal
/// keys in order, there being none.
pub proof fn lemma_tie_free_stable(
    block: Seq<u8>,
    n: usize,
    depth: usize,
    t: Seq<u32>,
    old: Seq<u32>,
    lo: int,
    hi: int,
)
    requires
        permuted_within(t, old, lo, hi),
        tie_free(block, n, depth, old, lo, hi),
    ensures
        stable_within(block, n, depth, t, old, lo, hi),
{
    let m1 = t.subrange(lo, hi);
    let m2 = old.subrange(lo, hi);
    lemma_permuted_range_multiset(t, old, lo, hi);
    assert(m2.no_duplicates()) by {
        assert forall|i: int, j: int| 0 <= i < m2.len() && 0 <= j < m2.len() && i != j implies m2[i]
            != m2[j] by {
            if i < j {
                assert(elem_key(block, n, old[lo + i], depth) != elem_key(block, n, old[lo + j], depth));
            } else {
                assert(elem_key(block, n, old[lo + j], depth) != elem_key(block, n, old[lo + i], depth));
            }
        }
    }
    m2.lemma_multiset_has_no_duplicates();
    m1.lemma_multiset_has_no_duplicates_conv();
    let p = Seq::new(t.len(), |q: int| if lo <= q < hi { choose|r: int| lo <= r < hi && old[r] == t[q] } else { q });
    assert forall|q: int| lo <= q < hi implies lo <= #[trigger] p[q] < hi && t[q] == old[p[q]] by {
        assert(occurs_in(t[q], old, lo, hi));
    }
    assert forall|q1: int, q2: int| lo <= q1 < q2 < hi implies #[trigger] p[q1] != #[trigger] p[q2] by {
        assert(m1[q1 - lo] != m1[q2 - lo]);
    }
    assert(tracks(t, old, lo, hi, p));
    assert(keeps_ties(block, n, depth, t, lo, hi, p)) by {
        assert forall|q1: int, q2: int|
            lo <= q1 < q2 < hi && elem_key(block, n, t[q1], depth) == elem_key(block, n, t[q2], depth)
                implies #[trigger] p[q1] < #[trigger] p[q2] by {
            if p[q1] < p[q2] {
                assert(elem_key(block, n, old[p[q1]], depth) != elem_key(block, n, old[p[q2]], depth));
            } else {
                assert(elem_key(block, n, old[p[q2]], depth) != elem_key(block, n, old[p[q1]], depth));
            }
        }
    }
}

/// Entries no two of which have equal keys have one sorted order: two
/// rearrangements of them that are both in order are equal.
pub proof fn lemma_tie_free_sort_unique(
    block: Seq<u8>,
    n: usize,
    depth: usize,
    old: Seq<u32>,
    t1: Seq<u32>,
    t2: Seq<u32>,
    lo: int,
    hi: int,
)
    requires
        depth <= n,
        all_below(old, lo, hi, n),
        tie_free(block, n, depth, old, lo, hi),
        permuted_within(t1, old, lo, hi),
        permuted_within(t2, old, lo, hi),
        sorted_range(block, n, depth, t1, lo, hi),
        sorted_range(block, n, depth, t2, lo, hi),
    ensures
        t1 == t2,
{
    lemma_tie_free_stable(block, n, depth, t1, old, lo, hi);
    lemma_tie_free_stable(block, n, depth, t2, old, lo, hi);
    lemma_stable_sort_unique(block, n, depth, old, t1, t2, lo, hi);
    assert forall|q: int| 0 <= q < t1.len() implies t1[q] == t2[q] by {
        if lo <= q < hi {
            assert(t1.subrange(lo, hi)[q - lo] == t2.subrange(lo, hi)[q - lo]);
        }
    }
    assert(t1 =~= t2);
}

} // verus!
