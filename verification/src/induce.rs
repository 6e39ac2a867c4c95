//! Induced sorting: the sorted B* positions are placed at the ends of the
//! buckets of their first byte, then the L-type positions are induced from
//! left to right and the S-type positions from right to left.
//!
//! An entry `u32::MAX` in the position array marks a slot not yet filled.

use vstd::prelude::*;
use crate::bstar::is_bstar;
use crate::counting::{
    byte_positions, count_byte, lemma_byte_positions, lemma_distinct_in_set, lemma_positions_finite,
    positions,
};
use crate::stype::{bit, is_s, next_pos};
use crate::bucket::decoded;
use crate::fill::{
    lemma_all_marked, lemma_l_complete, lemma_marked_update, lemma_present_update, lemma_s_complete,
    marked_present, present,
};
use crate::order::{distinct_range, key_le, sorted_range};
use crate::rotorder::{
    lemma_both_types, lemma_key_first_byte, lemma_key_shift, lemma_l_before_s, lemma_type_rules,
    types_ok,
};
use crate::stype::all_same;

verus! {

/// Position `x` starts with byte `c` and is of the type `s_type`.
pub open spec fn typed_at(block: Seq<u8>, bits: Seq<u64>, c: int, s_type: bool) -> spec_fn(u32) -> bool {
    |x: u32| block[x as int] == c && bit(bits, x as int) == s_type
}

/// The L-type positions of the text that start with byte `c`.
pub open spec fn l_positions(block: Seq<u8>, bits: Seq<u64>, n: int, c: int) -> Set<u32> {
    positions(n, typed_at(block, bits, c, false))
}

/// The S-type positions of the text that start with byte `c`.
pub open spec fn s_positions(block: Seq<u8>, bits: Seq<u64>, n: int, c: int) -> Set<u32> {
    positions(n, typed_at(block, bits, c, true))
}

/// The buckets of first bytes: bucket `c` is `[bstart[c], bend[c])`, as
/// long as the count of byte `c`, the buckets in byte order covering
/// `[0, n)`.
pub open spec fn buckets_ok(block: Seq<u8>, n: int, bstart: Seq<usize>, bend: Seq<usize>) -> bool {
    &&& bstart.len() == 256
    &&& bend.len() == 256
    &&& bstart[0] == 0
    &&& bend[255] == n
    &&& forall|c: int| 0 <= c < 256 ==> #[trigger] bend[c] == bstart[c] + count_byte(block, c as u8, n)
    &&& forall|c: int| 0 <= c < 255 ==> #[trigger] bstart[c + 1] == bend[c]
}

/// Every bucket lies within `[0, n)`.
pub proof fn lemma_buckets_within(block: Seq<u8>, n: int, bstart: Seq<usize>, bend: Seq<usize>, c: int)
    requires
        buckets_ok(block, n, bstart, bend),
        0 <= c < 256,
    ensures
        0 <= bstart[c] <= bend[c] <= n,
    decreases 256 - c,
{
    if c < 255 {
        lemma_buckets_within(block, n, bstart, bend, c + 1);
    }
}

/// The bucket that holds slot `x`.
pub proof fn lemma_slot_bucket(block: Seq<u8>, n: int, bstart: Seq<usize>, bend: Seq<usize>, x: int) -> (c: int)
    requires
        buckets_ok(block, n, bstart, bend),
        0 <= x < n,
    ensures
        0 <= c < 256,
        bstart[c] <= x < bend[c],
{
    lemma_slot_bucket_from(block, n, bstart, bend, x, 0)
}

proof fn lemma_slot_bucket_from(block: Seq<u8>, n: int, bstart: Seq<usize>, bend: Seq<usize>, x: int, c0: int) -> (c: int)
    requires
        buckets_ok(block, n, bstart, bend),
        0 <= x < n,
        0 <= c0 < 256,
        bstart[c0] <= x,
    ensures
        0 <= c < 256,
        bstart[c] <= x < bend[c],
    decreases 256 - c0,
{
    if x < bend[c0] {
        c0
    } else {
        assert(c0 < 255);
        lemma_slot_bucket_from(block, n, bstart, bend, x, c0 + 1)
    }
}

/// The filled slots of `s[0..n]` hold positions in the order of their
/// rotations.
pub open spec fn filled_sorted(block: Seq<u8>, n: usize, s: Seq<u32>) -> bool {
    forall|x1: int, x2: int|
        0 <= x1 < x2 < n && s[x1] != u32::MAX && s[x2] != u32::MAX ==> key_le(
            block,
            n,
            0,
            #[trigger] s[x1],
            #[trigger] s[x2],
        )
}

/// The positions starting with byte `c` split into L-type and S-type ones.
pub proof fn lemma_type_split(block: Seq<u8>, bits: Seq<u64>, n: int, c: int)
    requires
        0 <= n <= block.len(),
        n <= u32::MAX,
        0 <= c < 256,
    ensures
        l_positions(block, bits, n, c).finite(),
        s_positions(block, bits, n, c).finite(),
        l_positions(block, bits, n, c).len() + s_positions(block, bits, n, c).len() == count_byte(
            block,
            c as u8,
            n,
        ),
{
    let ls = l_positions(block, bits, n, c);
    let ss = s_positions(block, bits, n, c);
    lemma_positions_finite(n, typed_at(block, bits, c, false));
    lemma_positions_finite(n, typed_at(block, bits, c, true));
    lemma_byte_positions(block, c as u8, n);
    assert(ls + ss =~= byte_positions(block, c as u8, n));
    assert(ls.disjoint(ss));
    vstd::set_lib::lemma_set_disjoint_lens(ls, ss);
}

/// The slots of bucket `c` from `lo` to `hi` hold L-type positions that
/// start with byte `c`.
pub open spec fn l_filled(block: Seq<u8>, bits: Seq<u64>, s: Seq<u32>, c: int, lo: int, hi: int) -> bool {
    forall|x: int|
        lo <= x < hi ==> #[trigger] s[x] != u32::MAX && !bit(bits, s[x] as int) && block[s[x] as int]
            == c
}

/// The slots from `lo` to `hi` are free.
pub open spec fn free_slots(s: Seq<u32>, lo: int, hi: int) -> bool {
    forall|x: int| lo <= x < hi ==> #[trigger] s[x] == u32::MAX
}

/// The slots of bucket `c` from `lo` to `hi` hold B* positions that start
/// with byte `c`.
pub open spec fn bstar_filled(block: Seq<u8>, bits: Seq<u64>, n: int, s: Seq<u32>, c: int, lo: int, hi: int) -> bool {
    forall|x: int|
        lo <= x < hi ==> #[trigger] s[x] != u32::MAX && is_bstar(bits, n, s[x] as int) && block[s[x]
            as int] == c
}

/// Every filled slot below `n` holds a position of the text, and no two
/// filled slots hold the same one.
pub open spec fn filled_distinct(s: Seq<u32>, n: int) -> bool {
    &&& forall|x: int| 0 <= x < n ==> #[trigger] s[x] == u32::MAX || s[x] < n
    &&& forall|x1: int, x2: int|
        0 <= x1 < x2 < n && s[x1] != u32::MAX ==> #[trigger] s[x1] != #[trigger] s[x2]
}

/// The position before a filled entry `p`.
pub open spec fn before(n: int, p: u32) -> int {
    if p == 0 {
        n - 1
    } else {
        p - 1
    }
}

/// Distinct entries of the slots `[lo, hi)` that all lie in `xs`, together
/// with one more member of `xs` that is none of them, number at most
/// `xs.len()`.
pub proof fn lemma_room_for_one(s: Seq<u32>, lo: int, hi: int, xs: Set<u32>, v: u32)
    requires
        0 <= lo <= hi <= s.len(),
        xs.finite(),
        xs.contains(v),
        forall|i: int| lo <= i < hi ==> xs.contains(#[trigger] s[i]),
        forall|i: int, j: int| lo <= i < j < hi ==> #[trigger] s[i] != #[trigger] s[j],
        forall|i: int| lo <= i < hi ==> #[trigger] s[i] != v,
    ensures
        hi - lo + 1 <= xs.len(),
{
    let g = s.subrange(lo, hi).push(v);
    assert forall|i: int| 0 <= i < g.len() implies xs.contains(#[trigger] g[i]) by {
        if i < hi - lo {
            assert(g[i] == s[lo + i]);
        }
    }
    assert forall|i: int, j: int| 0 <= i < j < g.len() implies #[trigger] g[i] != #[trigger] g[j] by {
        assert(g[i] == s[lo + i]);
        if j < hi - lo {
            assert(g[j] == s[lo + j]);
        }
    }
    lemma_distinct_in_set(g, 0, g.len() as int, xs);
}

/// Bucket `c` during the left-to-right pass: L-type positions from `lo` to
/// the head `hd`, free slots up to `tl`, B* positions up to `hi`.
pub open spec fn phase1_bucket(
    block: Seq<u8>,
    bits: Seq<u64>,
    n: int,
    s: Seq<u32>,
    c: int,
    lo: int,
    hd: int,
    tl: int,
    hi: int,
) -> bool {
    &&& lo <= hd <= tl <= hi
    &&& l_filled(block, bits, s, c, lo, hd)
    &&& free_slots(s, hd, tl)
    &&& bstar_filled(block, bits, n, s, c, tl, hi)
}

/// A write outside a bucket leaves it as it was.
pub proof fn lemma_phase1_frame(
    block: Seq<u8>,
    bits: Seq<u64>,
    n: int,
    s: Seq<u32>,
    s2: Seq<u32>,
    c: int,
    lo: int,
    hd: int,
    tl: int,
    hi: int,
    w: int,
)
    requires
        phase1_bucket(block, bits, n, s, c, lo, hd, tl, hi),
        w < lo || w >= hi,
        s2.len() == s.len(),
        forall|x: int| 0 <= x < s.len() && x != w ==> s2[x] == s[x],
        hi <= s.len(),
        0 <= lo,
    ensures
        phase1_bucket(block, bits, n, s2, c, lo, hd, tl, hi),
{
    assert forall|x: int| lo <= x < hd implies #[trigger] s2[x] != u32::MAX && !bit(bits, s2[x] as int)
        && block[s2[x] as int] == c by {
        assert(s2[x] == s[x]);
    }
    assert forall|x: int| hd <= x < tl implies #[trigger] s2[x] == u32::MAX by {
        assert(s2[x] == s[x]);
    }
    assert forall|x: int| tl <= x < hi implies #[trigger] s2[x] != u32::MAX && is_bstar(
        bits,
        n,
        s2[x] as int,
    ) && block[s2[x] as int] == c by {
        assert(s2[x] == s[x]);
    }
}

/// Putting an L-type position of byte `c` at the head grows the head.
pub proof fn lemma_phase1_grow(
    block: Seq<u8>,
    bits: Seq<u64>,
    n: int,
    s: Seq<u32>,
    c: int,
    lo: int,
    hd: int,
    tl: int,
    hi: int,
    j: u32,
)
    requires
        phase1_bucket(block, bits, n, s, c, lo, hd, tl, hi),
        hd < tl,
        0 <= lo,
        hi <= s.len(),
        j != u32::MAX,
        !bit(bits, j as int),
        block[j as int] == c,
    ensures
        phase1_bucket(block, bits, n, s.update(hd, j), c, lo, hd + 1, tl, hi),
{
    let s2 = s.update(hd, j);
    assert forall|x: int| lo <= x < hd + 1 implies #[trigger] s2[x] != u32::MAX && !bit(
        bits,
        s2[x] as int,
    ) && block[s2[x] as int] == c by {
        if x != hd {
            assert(s2[x] == s[x]);
        }
    }
    assert forall|x: int| hd + 1 <= x < tl implies #[trigger] s2[x] == u32::MAX by {
        assert(s2[x] == s[x]);
    }
    assert forall|x: int| tl <= x < hi implies #[trigger] s2[x] != u32::MAX && is_bstar(
        bits,
        n,
        s2[x] as int,
    ) && block[s2[x] as int] == c by {
        assert(s2[x] == s[x]);
    }
}

/// Bucket `c` during the right-to-left pass: induced L-type positions from
/// `lo` to `hd`, slots not induced up to the tail `tl`, induced S-type
/// positions of byte `c` up to `hi`.
pub open spec fn phase2_bucket(
    block: Seq<u8>,
    bits: Seq<u64>,
    s: Seq<u32>,
    ind: Seq<bool>,
    c: int,
    lo: int,
    hd: int,
    tl: int,
    hi: int,
) -> bool {
    &&& lo <= hd <= tl <= hi
    &&& l_filled(block, bits, s, c, lo, hd)
    &&& forall|x: int| lo <= x < hd ==> #[trigger] ind[x]
    &&& forall|x: int| hd <= x < tl ==> !#[trigger] ind[x]
    &&& forall|x: int|
        tl <= x < hi ==> #[trigger] ind[x] && s[x] != u32::MAX && bit(bits, s[x] as int) && block[s[x]
            as int] == c
}

/// A write outside a bucket leaves it as it was.
pub proof fn lemma_phase2_frame(
    block: Seq<u8>,
    bits: Seq<u64>,
    s: Seq<u32>,
    ind: Seq<bool>,
    c: int,
    lo: int,
    hd: int,
    tl: int,
    hi: int,
    w: int,
    v: u32,
    b: bool,
)
    requires
        phase2_bucket(block, bits, s, ind, c, lo, hd, tl, hi),
        w < lo || w >= hi,
        0 <= w < s.len(),
        w < ind.len(),
        0 <= lo,
        hi <= s.len(),
        hi <= ind.len(),
    ensures
        phase2_bucket(block, bits, s.update(w, v), ind.update(w, b), c, lo, hd, tl, hi),
{
    let s2 = s.update(w, v);
    let ind2 = ind.update(w, b);
    assert forall|x: int| lo <= x < hd implies #[trigger] s2[x] != u32::MAX && !bit(bits, s2[x] as int)
        && block[s2[x] as int] == c by {
        assert(s2[x] == s[x]);
    }
    assert forall|x: int| lo <= x < hd implies #[trigger] ind2[x] by {
        assert(ind2[x] == ind[x]);
    }
    assert forall|x: int| hd <= x < tl implies !#[trigger] ind2[x] by {
        assert(ind2[x] == ind[x]);
    }
    assert forall|x: int| tl <= x < hi implies #[trigger] ind2[x] && s2[x] != u32::MAX && bit(
        bits,
        s2[x] as int,
    ) && block[s2[x] as int] == c by {
        assert(ind2[x] == ind[x]);
        assert(s2[x] == s[x]);
    }
}

/// Putting an S-type position of byte `c` before the tail moves the tail.
pub proof fn lemma_phase2_grow(
    block: Seq<u8>,
    bits: Seq<u64>,
    s: Seq<u32>,
    ind: Seq<bool>,
    c: int,
    lo: int,
    hd: int,
    tl: int,
    hi: int,
    j: u32,
)
    requires
        phase2_bucket(block, bits, s, ind, c, lo, hd, tl, hi),
        hd < tl,
        0 <= lo,
        hi <= s.len(),
        hi <= ind.len(),
        j != u32::MAX,
        bit(bits, j as int),
        block[j as int] == c,
    ensures
        phase2_bucket(
            block,
            bits,
            s.update(tl - 1, j),
            ind.update(tl - 1, true),
            c,
            lo,
            hd,
            tl - 1,
            hi,
        ),
{
    let s2 = s.update(tl - 1, j);
    let ind2 = ind.update(tl - 1, true);
    assert forall|x: int| lo <= x < hd implies #[trigger] s2[x] != u32::MAX && !bit(bits, s2[x] as int)
        && block[s2[x] as int] == c by {
        assert(s2[x] == s[x]);
    }
    assert forall|x: int| lo <= x < hd implies #[trigger] ind2[x] by {
        assert(ind2[x] == ind[x]);
    }
    assert forall|x: int| hd <= x < tl - 1 implies !#[trigger] ind2[x] by {
        assert(ind2[x] == ind[x]);
    }
    assert forall|x: int| tl - 1 <= x < hi implies #[trigger] ind2[x] && s2[x] != u32::MAX && bit(
        bits,
        s2[x] as int,
    ) && block[s2[x] as int] == c by {
        if x != tl - 1 {
            assert(ind2[x] == ind[x]);
            assert(s2[x] == s[x]);
        }
    }
}

/// The state of the left-to-right pass before slot `k` is scanned: every
/// bucket in its phase-1 shape, and every filled slot holding a B*
/// position or an L-type position whose successor sits in a slot before
/// `k`.
pub open spec fn phase1_state(
    block: Seq<u8>,
    bits: Seq<u64>,
    n: int,
    s: Seq<u32>,
    bstart: Seq<usize>,
    bend: Seq<usize>,
    head: Seq<usize>,
    tl: Seq<usize>,
    k: int,
) -> bool {
    &&& buckets_ok(block, n, bstart, bend)
    &&& head.len() == 256
    &&& tl.len() == 256
    &&& n <= s.len()
    &&& filled_distinct(s, n)
    &&& forall|x: int|
        0 <= x < n && #[trigger] s[x] != u32::MAX ==> is_bstar(bits, n, s[x] as int) || (!bit(
            bits,
            s[x] as int,
        ) && exists|y: int| 0 <= y < k && #[trigger] s[y] as int == next_pos(n, s[x] as int))
    &&& forall|c: int|
        0 <= c < 256 ==> #[trigger] phase1_bucket(
            block,
            bits,
            n,
            s,
            c,
            bstart[c] as int,
            head[c] as int,
            tl[c] as int,
            bend[c] as int,
        )
}

/// A filled slot `x` in the left-to-right pass lies in the bucket of its
/// entry's first byte: in its L-type part when the entry is L-type, in its
/// B* part otherwise.
proof fn lemma_phase1_slot(
    block: Seq<u8>,
    bits: Seq<u64>,
    n: int,
    s: Seq<u32>,
    bstart: Seq<usize>,
    bend: Seq<usize>,
    head: Seq<usize>,
    tl: Seq<usize>,
    k: int,
    x: int,
) -> (c: int)
    requires
        phase1_state(block, bits, n, s, bstart, bend, head, tl, k),
        0 <= x < n,
        s[x] != u32::MAX,
    ensures
        0 <= c < 256,
        c == block[s[x] as int],
        bstart[c] <= x < bend[c],
        !bit(bits, s[x] as int) ==> x < head[c],
        bit(bits, s[x] as int) ==> tl[c] <= x && is_bstar(bits, n, s[x] as int),
{
    let c = lemma_slot_bucket(block, n, bstart, bend, x);
    assert(phase1_bucket(
        block,
        bits,
        n,
        s,
        c,
        bstart[c] as int,
        head[c] as int,
        tl[c] as int,
        bend[c] as int,
    ));
    c
}

/// In the left-to-right pass, the slot at which the L-type predecessor `j`
/// of the entry at slot `k` is put lies after `k`.
proof fn lemma_phase1_ahead(
    block: Seq<u8>,
    bits: Seq<u64>,
    n: int,
    s: Seq<u32>,
    bstart: Seq<usize>,
    bend: Seq<usize>,
    head: Seq<usize>,
    tl: Seq<usize>,
    k: int,
    j: int,
)
    requires
        phase1_state(block, bits, n, s, bstart, bend, head, tl, k),
        types_ok(block, bits, n),
        0 < n <= block.len(),
        n <= u32::MAX,
        !all_same(block, n),
        0 <= k < n,
        0 <= j < n,
        s[k] as int == next_pos(n, j),
        !bit(bits, j),
    ensures
        k < head[block[j] as int],
{
    let cp = lemma_phase1_slot(block, bits, n, s, bstart, bend, head, tl, k, k);
    lemma_type_rules(block, bits, n, j);
    let c = block[j] as int;
    if c != cp {
        lemma_bucket_order(block, n, bstart, bend, cp, c);
        assert(phase1_bucket(
            block,
            bits,
            n,
            s,
            c,
            bstart[c] as int,
            head[c] as int,
            tl[c] as int,
            bend[c] as int,
        ));
    }
}

/// Putting the L-type predecessor `j` of the entry at slot `k` at the head
/// `w` of its bucket keeps the filled slots in the order of their
/// rotations.
proof fn lemma_phase1_sorted(
    block: Seq<u8>,
    bits: Seq<u64>,
    n: usize,
    s: Seq<u32>,
    bstart: Seq<usize>,
    bend: Seq<usize>,
    head: Seq<usize>,
    tl: Seq<usize>,
    k: int,
    j: int,
)
    requires
        phase1_state(block, bits, n as int, s, bstart, bend, head, tl, k),
        filled_sorted(block, n, s),
        types_ok(block, bits, n as int),
        2 <= n <= block.len(),
        n <= u32::MAX,
        !all_same(block, n as int),
        0 <= k < n,
        0 <= j < n,
        s[k] as int == next_pos(n as int, j),
        !bit(bits, j),
        head[block[j] as int] < tl[block[j] as int],
    ensures
        filled_sorted(block, n, s.update(head[block[j] as int] as int, j as u32)),
{
    let ni = n as int;
    let c = block[j] as int;
    let w = head[c] as int;
    let ju = j as u32;
    let t = s.update(w, ju);
    lemma_phase1_ahead(block, bits, ni, s, bstart, bend, head, tl, k, j);
    lemma_buckets_within(block, ni, bstart, bend, c);
    assert(phase1_bucket(block, bits, ni, s, c, bstart[c] as int, head[c] as int, tl[c] as int, bend[c] as int));
    assert forall|x1: int, x2: int|
        0 <= x1 < x2 < n && t[x1] != u32::MAX && t[x2] != u32::MAX implies key_le(
        block,
        n,
        0,
        #[trigger] t[x1],
        #[trigger] t[x2],
    ) by {
        if x1 == w {
            assert(t[x2] == s[x2]);
            let c2 = lemma_phase1_slot(block, bits, ni, s, bstart, bend, head, tl, k, x2);
            if c2 == c {
                lemma_l_before_s(block, bits, n, ju, s[x2]);
            } else {
                if c2 < c {
                    lemma_bucket_order(block, ni, bstart, bend, c2, c);
                }
                lemma_key_first_byte(block, n, ju, s[x2]);
            }
        } else if x2 == w {
            assert(t[x1] == s[x1]);
            let c1 = lemma_phase1_slot(block, bits, ni, s, bstart, bend, head, tl, k, x1);
            if c1 == c {
                let y = choose|y: int| 0 <= y < k && #[trigger] s[y] as int == next_pos(ni, s[x1] as int);
                assert(s[y] != u32::MAX);
                lemma_key_shift(block, n, s[x1], ju);
            } else {
                if c1 > c {
                    lemma_bucket_order(block, ni, bstart, bend, c, c1);
                }
                lemma_key_first_byte(block, n, s[x1], ju);
            }
        } else {
            assert(t[x1] == s[x1] && t[x2] == s[x2]);
        }
    }
}

/// Induces the L-type positions: scanning the slots from left to right,
/// for each filled slot whose predecessor position `j` is L-type, puts `j`
/// at the head of the bucket of its first byte.  Returns the final heads.
#[verifier::spinoff_prover]
pub fn induce_l(
    ptr: &mut [u32],
    block: &[u8],
    bitset: &[u64],
    nblock: usize,
    bucket_start: &Vec<usize>,
    bucket_end: &Vec<usize>,
    tail: &Vec<usize>,
) -> (head: Vec<usize>)
    requires
        2 <= nblock <= u32::MAX,
        nblock <= old(ptr)@.len(),
        nblock <= block@.len(),
        nblock <= 64 * bitset@.len(),
        buckets_ok(block@, nblock as int, bucket_start@, bucket_end@),
        tail@.len() == 256,
        types_ok(block@, bitset@, nblock as int),
        !all_same(block@, nblock as int),
        filled_sorted(block@, nblock, old(ptr)@),
        forall|p: int|
            0 <= p < nblock && is_bstar(bitset@, nblock as int, p) ==> #[trigger] present(
                p,
                old(ptr)@,
                nblock as int,
            ),
        filled_distinct(old(ptr)@, nblock as int),
        forall|x: int|
            0 <= x < nblock && old(ptr)@[x] != u32::MAX ==> is_bstar(
                bitset@,
                nblock as int,
                #[trigger] old(ptr)@[x] as int,
            ),
        forall|c: int|
            0 <= c < 256 ==> #[trigger] phase1_bucket(
                block@,
                bitset@,
                nblock as int,
                old(ptr)@,
                c,
                bucket_start@[c] as int,
                bucket_start@[c] as int,
                tail@[c] as int,
                bucket_end@[c] as int,
            ),
    ensures
        final(ptr)@.len() == old(ptr)@.len(),
        forall|x: int| nblock <= x < old(ptr)@.len() ==> final(ptr)@[x] == old(ptr)@[x],
        head@.len() == 256,
        filled_distinct(final(ptr)@, nblock as int),
        filled_sorted(block@, nblock, final(ptr)@),
        forall|p: int|
            0 <= p < nblock && !bit(bitset@, p) ==> #[trigger] present(p, final(ptr)@, nblock as int),
        forall|x: int|
            0 <= x < nblock && #[trigger] final(ptr)@[x] != u32::MAX ==> is_bstar(
                bitset@,
                nblock as int,
                final(ptr)@[x] as int,
            ) || !bit(bitset@, final(ptr)@[x] as int),
        forall|c: int|
            0 <= c < 256 ==> #[trigger] phase1_bucket(
                block@,
                bitset@,
                nblock as int,
                final(ptr)@,
                c,
                bucket_start@[c] as int,
                head@[c] as int,
                tail@[c] as int,
                bucket_end@[c] as int,
            ),
{
    let ghost n = nblock as int;
    let ghost bits = bitset@;
    let ghost bk = block@;
    let ghost bstart = bucket_start@;
    let ghost bend = bucket_end@;
    let ghost tl = tail@;
    let mut head = bucket_start.clone();
    proof {
        assert forall|c: int| 0 <= c < 256 implies head@[c] == bstart[c] by {
            assert(vstd::pervasive::cloned(bstart[c], head@[c]));
        }
    }
    let mut k: usize = 0;
    while k < nblock
        invariant
            2 <= nblock <= u32::MAX,
            n == nblock,
            bits == bitset@,
            bk == block@,
            bstart == bucket_start@,
            bend == bucket_end@,
            tl == tail@,
            nblock <= ptr@.len(),
            ptr@.len() == old(ptr)@.len(),
            nblock <= block@.len(),
            nblock <= 64 * bitset@.len(),
            buckets_ok(bk, n, bstart, bend),
            tl.len() == 256,
            head@.len() == 256,
            k <= nblock,
            forall|x: int| nblock <= x < ptr@.len() ==> ptr@[x] == old(ptr)@[x],
            types_ok(bk, bits, n),
            !all_same(bk, n),
            filled_sorted(bk, nblock, ptr@),
            forall|p: int| 0 <= p < n && is_bstar(bits, n, p) ==> #[trigger] present(p, ptr@, n),
            forall|y: int|
                0 <= y < k && #[trigger] ptr@[y] != u32::MAX && !bit(bits, before(n, ptr@[y])) ==> present(
                    before(n, ptr@[y]),
                    ptr@,
                    n,
                ),
            filled_distinct(ptr@, n),
            forall|x: int|
                0 <= x < n && #[trigger] ptr@[x] != u32::MAX ==> is_bstar(bits, n, ptr@[x] as int)
                    || (!bit(bits, ptr@[x] as int) && exists|y: int|
                    0 <= y < k && #[trigger] ptr@[y] as int == next_pos(n, ptr@[x] as int)),
            forall|c: int|
                0 <= c < 256 ==> #[trigger] phase1_bucket(
                    bk,
                    bits,
                    n,
                    ptr@,
                    c,
                    bstart[c] as int,
                    head@[c] as int,
                    tl[c] as int,
                    bend[c] as int,
                ),
        decreases nblock - k,
    {
        let p = ptr[k];
        if p != u32::MAX {
            let j = if p == 0 {
                nblock - 1
            } else {
                (p - 1) as usize
            };
            proof {
                assert(j == before(n, p));
                assert(next_pos(n, j as int) == p);
            }
            if !is_s(bitset, j) {
                let c = block[j] as usize;
                let w = head[c];
                proof {
                    let ci = c as int;
                    lemma_buckets_within(bk, n, bstart, bend, ci);
                    assert(phase1_bucket(
                        bk,
                        bits,
                        n,
                        ptr@,
                        ci,
                        bstart[ci] as int,
                        head@[ci] as int,
                        tl[ci] as int,
                        bend[ci] as int,
                    ));
                    // `j` is nowhere yet: its successor `p` is met only here.
                    assert forall|q: int| 0 <= q < n implies #[trigger] ptr@[q] != j by {
                        if ptr@[q] == j {
                            assert(!is_bstar(bits, n, j as int));
                            let y = choose|y: int|
                                0 <= y < k && #[trigger] ptr@[y] as int == next_pos(n, ptr@[q] as int);
                            assert(ptr@[y] == p);
                            assert(ptr@[y] != ptr@[k as int]);
                        }
                    }
                    lemma_type_split(bk, bits, n, ci);
                    let ls = l_positions(bk, bits, n, ci);
                    let ss = s_positions(bk, bits, n, ci);
                    assert(ls.contains(j as u32));
                    assert forall|i: int| bstart[ci] <= i < head@[ci] implies ls.contains(
                        #[trigger] ptr@[i],
                    ) by {
                        assert(ptr@[i] < n);
                    }
                    assert forall|i: int, i2: int|
                        bstart[ci] <= i < i2 < head@[ci] implies #[trigger] ptr@[i]
                        != #[trigger] ptr@[i2] by {}
                    lemma_room_for_one(ptr@, bstart[ci] as int, head@[ci] as int, ls, j as u32);
                    assert forall|i: int| tl[ci] <= i < bend[ci] implies ss.contains(#[trigger] ptr@[i]) by {
                        assert(ptr@[i] < n);
                    }
                    lemma_distinct_in_set(ptr@, tl[ci] as int, bend[ci] as int, ss);
                    assert(count_byte(bk, c as u8, n) == bend[ci] - bstart[ci]);
                }
                let ghost before_write = ptr@;
                let ghost head_before = head@;
                proof {
                    assert(phase1_state(bk, bits, n, before_write, bstart, bend, head_before, tl, k as int));
                    lemma_phase1_ahead(bk, bits, n, before_write, bstart, bend, head_before, tl, k as int, j as int);
                    lemma_phase1_sorted(
                        bk,
                        bits,
                        nblock,
                        before_write,
                        bstart,
                        bend,
                        head_before,
                        tl,
                        k as int,
                        j as int,
                    );
                    assert(before_write[w as int] == u32::MAX);
                }
                ptr[w] = j as u32;
                head[c] = w + 1;
                proof {
                    assert(ptr@ == before_write.update(w as int, j as u32));
                    assert forall|q: int| 0 <= q < n && is_bstar(bits, n, q) implies #[trigger] present(
                        q,
                        ptr@,
                        n,
                    ) by {
                        lemma_present_update(q, before_write, n, w as int, j as u32);
                    }
                    assert forall|y: int|
                        0 <= y < k + 1 && #[trigger] ptr@[y] != u32::MAX && !bit(bits, before(n, ptr@[y]))
                            implies present(before(n, ptr@[y]), ptr@, n) by {
                        if y == k {
                            assert(ptr@[w as int] == j);
                        } else {
                            assert(ptr@[y] == before_write[y]);
                            lemma_present_update(before(n, ptr@[y]), before_write, n, w as int, j as u32);
                        }
                    }
                    assert(before_write[k as int] == p);
                    assert forall|x: int|
                        0 <= x < n && #[trigger] ptr@[x] != u32::MAX implies is_bstar(
                        bits,
                        n,
                        ptr@[x] as int,
                    ) || (!bit(bits, ptr@[x] as int) && exists|y: int|
                        0 <= y < k + 1 && #[trigger] ptr@[y] as int == next_pos(n, ptr@[x] as int)) by {
                        if x == w {
                            assert(ptr@[k as int] as int == next_pos(n, ptr@[x] as int));
                        } else {
                            assert(ptr@[x] == before_write[x]);
                            if !is_bstar(bits, n, ptr@[x] as int) {
                                let y = choose|y: int|
                                    0 <= y < k && #[trigger] before_write[y] as int == next_pos(
                                        n,
                                        before_write[x] as int,
                                    );
                                assert(before_write[y] != u32::MAX);
                                assert(ptr@[y] == before_write[y]);
                            }
                        }
                    }
                    assert forall|c2: int| 0 <= c2 < 256 implies #[trigger] phase1_bucket(
                        bk,
                        bits,
                        n,
                        ptr@,
                        c2,
                        bstart[c2] as int,
                        head@[c2] as int,
                        tl[c2] as int,
                        bend[c2] as int,
                    ) by {
                        assert(phase1_bucket(
                            bk,
                            bits,
                            n,
                            before_write,
                            c2,
                            bstart[c2] as int,
                            head_before[c2] as int,
                            tl[c2] as int,
                            bend[c2] as int,
                        ));
                        lemma_buckets_within(bk, n, bstart, bend, c2);
                        if c2 == c {
                            lemma_phase1_grow(
                                bk,
                                bits,
                                n,
                                before_write,
                                c2,
                                bstart[c2] as int,
                                head_before[c2] as int,
                                tl[c2] as int,
                                bend[c2] as int,
                                j as u32,
                            );
                        } else {
                            assert(head@[c2] == head_before[c2]);
                            if c2 < c {
                                lemma_bucket_order(bk, n, bstart, bend, c2, c as int);
                            } else {
                                lemma_bucket_order(bk, n, bstart, bend, c as int, c2);
                            }
                            lemma_phase1_frame(
                                bk,
                                bits,
                                n,
                                before_write,
                                ptr@,
                                c2,
                                bstart[c2] as int,
                                head@[c2] as int,
                                tl[c2] as int,
                                bend[c2] as int,
                                w as int,
                            );
                        }
                    }
                }
            }
        }
        k += 1;
    }
    proof {
        let (s0, l0) = lemma_both_types(bk, bits, n);
        lemma_l_complete(bits, n, ptr@, s0);
    }
    head
}

/// Buckets of smaller bytes lie before those of larger ones.
pub proof fn lemma_bucket_order(block: Seq<u8>, n: int, bstart: Seq<usize>, bend: Seq<usize>, c1: int, c2: int)
    requires
        buckets_ok(block, n, bstart, bend),
        0 <= c1 < c2 < 256,
    ensures
        bend[c1] <= bstart[c2],
    decreases c2 - c1,
{
    assert(bstart[c1 + 1] == bend[c1]);
    if c1 + 1 < c2 {
        lemma_bucket_order(block, n, bstart, bend, c1 + 1, c2);
        lemma_buckets_within(block, n, bstart, bend, c1 + 1);
    }
}

/// The slots from `lo` to `hi` hold no L-type position.
pub open spec fn no_l_slots(bits: Seq<u64>, s: Seq<u32>, lo: int, hi: int) -> bool {
    forall|x: int| lo <= x < hi ==> #[trigger] s[x] == u32::MAX || bit(bits, s[x] as int)
}

/// The marked slots of `s[0..n]` hold positions in the order of their
/// rotations.
pub open spec fn marked_sorted(block: Seq<u8>, n: usize, s: Seq<u32>, mark: Seq<bool>) -> bool {
    forall|x1: int, x2: int|
        0 <= x1 < x2 < n && mark[x1] && mark[x2] ==> key_le(
            block,
            n,
            0,
            #[trigger] s[x1],
            #[trigger] s[x2],
        )
}

/// The state of the right-to-left pass once the slots from `k` on have
/// been scanned: the induced slots (`ind`) hold distinct positions, each
/// L-type or with its successor induced at a scanned slot; the other filled
/// slots hold B* positions; every bucket in its phase-2 shape.
pub open spec fn phase2_state(
    block: Seq<u8>,
    bits: Seq<u64>,
    n: int,
    s: Seq<u32>,
    ind: Seq<bool>,
    bstart: Seq<usize>,
    bend: Seq<usize>,
    hd: Seq<usize>,
    tl: Seq<usize>,
    k: int,
) -> bool {
    &&& buckets_ok(block, n, bstart, bend)
    &&& hd.len() == 256
    &&& tl.len() == 256
    &&& n <= s.len()
    &&& ind.len() == n
    &&& forall|x: int| 0 <= x < n ==> #[trigger] s[x] == u32::MAX || s[x] < n
    &&& forall|x: int|
        0 <= x < n && #[trigger] ind[x] ==> s[x] != u32::MAX && (!bit(bits, s[x] as int) || exists|y: int|
            k <= y < n && ind[y] && #[trigger] s[y] as int == next_pos(n, s[x] as int))
    &&& forall|x: int| 0 <= x < n && #[trigger] s[x] != u32::MAX && !ind[x] ==> is_bstar(bits, n, s[x] as int)
    &&& forall|c: int|
        0 <= c < 256 ==> #[trigger] phase2_bucket(
            block,
            bits,
            s,
            ind,
            c,
            bstart[c] as int,
            hd[c] as int,
            tl[c] as int,
            bend[c] as int,
        )
}

/// An induced slot `x` in the right-to-left pass lies in the bucket of its
/// entry's first byte: in its L-type part when the entry is L-type, in its
/// induced S-type part otherwise.
proof fn lemma_phase2_slot(
    block: Seq<u8>,
    bits: Seq<u64>,
    n: int,
    s: Seq<u32>,
    ind: Seq<bool>,
    bstart: Seq<usize>,
    bend: Seq<usize>,
    hd: Seq<usize>,
    tl: Seq<usize>,
    k: int,
    x: int,
) -> (c: int)
    requires
        phase2_state(block, bits, n, s, ind, bstart, bend, hd, tl, k),
        0 <= x < n,
        ind[x],
    ensures
        0 <= c < 256,
        c == block[s[x] as int],
        bstart[c] <= x < bend[c],
        !bit(bits, s[x] as int) ==> x < hd[c],
        bit(bits, s[x] as int) ==> tl[c] <= x,
{
    let c = lemma_slot_bucket(block, n, bstart, bend, x);
    assert(phase2_bucket(
        block,
        bits,
        s,
        ind,
        c,
        bstart[c] as int,
        hd[c] as int,
        tl[c] as int,
        bend[c] as int,
    ));
    c
}

/// In the right-to-left pass, the slot at which the S-type predecessor `j`
/// of the induced entry at slot `k` is put lies before `k`.
proof fn lemma_phase2_behind(
    block: Seq<u8>,
    bits: Seq<u64>,
    n: int,
    s: Seq<u32>,
    ind: Seq<bool>,
    bstart: Seq<usize>,
    bend: Seq<usize>,
    hd: Seq<usize>,
    tl: Seq<usize>,
    k: int,
    j: int,
)
    requires
        phase2_state(block, bits, n, s, ind, bstart, bend, hd, tl, k + 1),
        types_ok(block, bits, n),
        0 < n <= block.len(),
        n <= u32::MAX,
        !all_same(block, n),
        0 <= k < n,
        ind[k],
        0 <= j < n,
        s[k] as int == next_pos(n, j),
        bit(bits, j),
    ensures
        tl[block[j] as int] <= k,
{
    let cp = lemma_phase2_slot(block, bits, n, s, ind, bstart, bend, hd, tl, k + 1, k);
    lemma_type_rules(block, bits, n, j);
    let c = block[j] as int;
    if c != cp {
        lemma_bucket_order(block, n, bstart, bend, c, cp);
        assert(phase2_bucket(
            block,
            bits,
            s,
            ind,
            c,
            bstart[c] as int,
            hd[c] as int,
            tl[c] as int,
            bend[c] as int,
        ));
    }
}

/// Putting the S-type predecessor `j` of the induced entry at slot `k`
/// just before the tail of its bucket keeps the induced slots in the order
/// of their rotations.
proof fn lemma_phase2_sorted(
    block: Seq<u8>,
    bits: Seq<u64>,
    n: usize,
    s: Seq<u32>,
    ind: Seq<bool>,
    bstart: Seq<usize>,
    bend: Seq<usize>,
    hd: Seq<usize>,
    tl: Seq<usize>,
    k: int,
    j: int,
)
    requires
        phase2_state(block, bits, n as int, s, ind, bstart, bend, hd, tl, k + 1),
        marked_sorted(block, n, s, ind),
        types_ok(block, bits, n as int),
        2 <= n <= block.len(),
        n <= u32::MAX,
        !all_same(block, n as int),
        0 <= k < n,
        ind[k],
        0 <= j < n,
        s[k] as int == next_pos(n as int, j),
        bit(bits, j),
        hd[block[j] as int] < tl[block[j] as int],
    ensures
        marked_sorted(
            block,
            n,
            s.update(tl[block[j] as int] - 1, j as u32),
            ind.update(tl[block[j] as int] - 1, true),
        ),
{
    let ni = n as int;
    let c = block[j] as int;
    let w = tl[c] - 1;
    let ju = j as u32;
    let t = s.update(w, ju);
    let ind2 = ind.update(w, true);
    lemma_phase2_behind(block, bits, ni, s, ind, bstart, bend, hd, tl, k, j);
    lemma_buckets_within(block, ni, bstart, bend, c);
    assert(phase2_bucket(block, bits, s, ind, c, bstart[c] as int, hd[c] as int, tl[c] as int, bend[c] as int));
    assert forall|x1: int, x2: int| 0 <= x1 < x2 < n && ind2[x1] && ind2[x2] implies key_le(
        block,
        n,
        0,
        #[trigger] t[x1],
        #[trigger] t[x2],
    ) by {
        if x1 == w {
            assert(t[x2] == s[x2] && ind[x2]);
            let c2 = lemma_phase2_slot(block, bits, ni, s, ind, bstart, bend, hd, tl, k + 1, x2);
            if c2 == c {
                let y = choose|y: int|
                    k + 1 <= y < ni && ind[y] && #[trigger] s[y] as int == next_pos(ni, s[x2] as int);
                lemma_key_shift(block, n, ju, s[x2]);
            } else {
                if c2 < c {
                    lemma_bucket_order(block, ni, bstart, bend, c2, c);
                }
                lemma_key_first_byte(block, n, ju, s[x2]);
            }
        } else if x2 == w {
            assert(t[x1] == s[x1] && ind[x1]);
            let c1 = lemma_phase2_slot(block, bits, ni, s, ind, bstart, bend, hd, tl, k + 1, x1);
            if c1 == c {
                lemma_l_before_s(block, bits, n, s[x1], ju);
            } else {
                if c1 > c {
                    lemma_bucket_order(block, ni, bstart, bend, c, c1);
                }
                lemma_key_first_byte(block, n, s[x1], ju);
            }
        } else {
            assert(t[x1] == s[x1] && t[x2] == s[x2]);
            assert(ind[x1] && ind[x2]);
        }
    }
}

/// Induces the S-type positions: scanning the slots from right to left,
/// for each filled slot whose predecessor position `j` is S-type, puts `j`
/// at the tail of the bucket of its first byte.
#[verifier::spinoff_prover]
pub fn induce_s(
    ptr: &mut [u32],
    block: &[u8],
    bitset: &[u64],
    nblock: usize,
    bucket_start: &Vec<usize>,
    bucket_end: &Vec<usize>,
    head: &Vec<usize>,
)
    requires
        2 <= nblock <= u32::MAX,
        nblock <= old(ptr)@.len(),
        nblock <= block@.len(),
        nblock <= 64 * bitset@.len(),
        buckets_ok(block@, nblock as int, bucket_start@, bucket_end@),
        head@.len() == 256,
        types_ok(block@, bitset@, nblock as int),
        !all_same(block@, nblock as int),
        filled_sorted(block@, nblock, old(ptr)@),
        forall|p: int|
            0 <= p < nblock && !bit(bitset@, p) ==> #[trigger] present(p, old(ptr)@, nblock as int),
        filled_distinct(old(ptr)@, nblock as int),
        forall|x: int|
            0 <= x < nblock && #[trigger] old(ptr)@[x] != u32::MAX ==> is_bstar(
                bitset@,
                nblock as int,
                old(ptr)@[x] as int,
            ) || !bit(bitset@, old(ptr)@[x] as int),
        forall|c: int|
            0 <= c < 256 ==> bucket_start@[c] <= #[trigger] head@[c] <= bucket_end@[c] && l_filled(
                block@,
                bitset@,
                old(ptr)@,
                c,
                bucket_start@[c] as int,
                head@[c] as int,
            ) && no_l_slots(bitset@, old(ptr)@, head@[c] as int, bucket_end@[c] as int),
    ensures
        final(ptr)@.len() == old(ptr)@.len(),
        forall|x: int| nblock <= x < old(ptr)@.len() ==> final(ptr)@[x] == old(ptr)@[x],
        forall|x: int| 0 <= x < nblock ==> #[trigger] final(ptr)@[x] < nblock,
        distinct_range(final(ptr)@, 0, nblock as int),
        forall|p: int| 0 <= p < nblock ==> #[trigger] present(p, final(ptr)@, nblock as int),
        sorted_range(block@, nblock, 0, final(ptr)@, 0, nblock as int),
{
    let ghost n = nblock as int;
    let ghost bits = bitset@;
    let ghost bk = block@;
    let ghost bstart = bucket_start@;
    let ghost bend = bucket_end@;
    let ghost hd = head@;
    let ghost mut ind: Seq<bool> = Seq::new(
        nblock as nat,
        |x: int| ptr@[x] != u32::MAX && !bit(bitset@, ptr@[x] as int),
    );
    let mut tail = bucket_end.clone();
    proof {
        assert forall|c: int| 0 <= c < 256 implies #[trigger] phase2_bucket(
            bk,
            bits,
            ptr@,
            ind,
            c,
            bstart[c] as int,
            hd[c] as int,
            tail@[c] as int,
            bend[c] as int,
        ) by {
            assert(vstd::pervasive::cloned(bend[c], tail@[c]));
            assert(hd[c] <= bend[c]);
            lemma_buckets_within(bk, n, bstart, bend, c);
            assert forall|x: int| bstart[c] <= x < hd[c] implies #[trigger] ind[x] by {}
            assert forall|x: int| hd[c] <= x < tail@[c] implies !#[trigger] ind[x] by {}
        }
        assert forall|p: int| 0 <= p < n && !bit(bits, p) implies #[trigger] marked_present(
            p,
            ptr@,
            ind,
            n,
        ) by {
            assert(present(p, ptr@, n));
            let x = choose|x: int| 0 <= x < n && ptr@[x] as int == p;
            assert(ind[x]);
        }
    }
    let mut k: usize = nblock;
    while k > 0
        invariant
            2 <= nblock <= u32::MAX,
            n == nblock,
            bits == bitset@,
            bk == block@,
            bstart == bucket_start@,
            bend == bucket_end@,
            hd == head@,
            nblock <= ptr@.len(),
            ptr@.len() == old(ptr)@.len(),
            nblock <= block@.len(),
            nblock <= 64 * bitset@.len(),
            buckets_ok(bk, n, bstart, bend),
            hd.len() == 256,
            tail@.len() == 256,
            ind.len() == n,
            k <= nblock,
            forall|x: int| nblock <= x < ptr@.len() ==> ptr@[x] == old(ptr)@[x],
            types_ok(bk, bits, n),
            !all_same(bk, n),
            marked_sorted(bk, nblock, ptr@, ind),
            forall|p: int| 0 <= p < n && !bit(bits, p) ==> #[trigger] marked_present(p, ptr@, ind, n),
            forall|y: int|
                k <= y < n && #[trigger] ind[y] && ptr@[y] != u32::MAX && bit(bits, before(n, ptr@[y]))
                    ==> marked_present(before(n, ptr@[y]), ptr@, ind, n),
            forall|x: int| 0 <= x < n ==> #[trigger] ptr@[x] == u32::MAX || ptr@[x] < n,
            forall|x1: int, x2: int|
                0 <= x1 < x2 < n && ind[x1] && ind[x2] ==> #[trigger] ptr@[x1] != #[trigger] ptr@[x2],
            forall|x: int|
                0 <= x < n && #[trigger] ind[x] ==> ptr@[x] != u32::MAX && (!bit(bits, ptr@[x] as int)
                    || exists|y: int|
                    k <= y < n && ind[y] && #[trigger] ptr@[y] as int == next_pos(n, ptr@[x] as int)),
            forall|x: int|
                0 <= x < n && #[trigger] ptr@[x] != u32::MAX && !ind[x] ==> is_bstar(
                    bits,
                    n,
                    ptr@[x] as int,
                ),
            forall|c: int|
                0 <= c < 256 ==> #[trigger] phase2_bucket(
                    bk,
                    bits,
                    ptr@,
                    ind,
                    c,
                    bstart[c] as int,
                    hd[c] as int,
                    tail@[c] as int,
                    bend[c] as int,
                ),
        decreases k,
    {
        k -= 1;
        let p = ptr[k];
        if p != u32::MAX {
            let j = if p == 0 {
                nblock - 1
            } else {
                (p - 1) as usize
            };
            proof {
                assert(j == before(n, p));
                assert(next_pos(n, j as int) == p);
            }
            if is_s(bitset, j) {
                let c = block[j] as usize;
                proof {
                    let ci = c as int;
                    lemma_buckets_within(bk, n, bstart, bend, ci);
                    assert(phase2_bucket(
                        bk,
                        bits,
                        ptr@,
                        ind,
                        ci,
                        bstart[ci] as int,
                        hd[ci] as int,
                        tail@[ci] as int,
                        bend[ci] as int,
                    ));
                    // The slot of `p` is induced: a B* position's predecessor is L-type.
                    assert(ind[k as int]);
                    // `j` is not yet among the induced positions.
                    assert forall|x: int| 0 <= x < n && ind[x] implies #[trigger] ptr@[x] != j by {
                        if ptr@[x] == j {
                            let y = choose|y: int|
                                k + 1 <= y < n && ind[y] && #[trigger] ptr@[y] as int == next_pos(
                                    n,
                                    ptr@[x] as int,
                                );
                            assert(ptr@[y] == ptr@[k as int]);
                            assert(ptr@[k as int] != ptr@[y]);
                        }
                    }
                    lemma_type_split(bk, bits, n, ci);
                    let ls = l_positions(bk, bits, n, ci);
                    let ss = s_positions(bk, bits, n, ci);
                    assert(ss.contains(j as u32));
                    assert forall|i: int| bstart[ci] <= i < hd[ci] implies ls.contains(#[trigger] ptr@[i]) by {
                        assert(ptr@[i] < n);
                    }
                    assert forall|i: int, i2: int|
                        bstart[ci] <= i < i2 < hd[ci] implies #[trigger] ptr@[i] != #[trigger] ptr@[i2] by {
                        assert(ind[i] && ind[i2]);
                    }
                    lemma_distinct_in_set(ptr@, bstart[ci] as int, hd[ci] as int, ls);
                    assert forall|i: int| tail@[ci] <= i < bend[ci] implies ss.contains(
                        #[trigger] ptr@[i],
                    ) by {
                        assert(ind[i]);
                        assert(ptr@[i] < n);
                    }
                    assert forall|i: int, i2: int|
                        tail@[ci] <= i < i2 < bend[ci] implies #[trigger] ptr@[i] != #[trigger] ptr@[i2] by {
                        assert(ind[i] && ind[i2]);
                    }
                    assert forall|i: int| tail@[ci] <= i < bend[ci] implies #[trigger] ptr@[i] != j by {
                        assert(ind[i]);
                    }
                    lemma_room_for_one(ptr@, tail@[ci] as int, bend[ci] as int, ss, j as u32);
                    assert(count_byte(bk, c as u8, n) == bend[ci] - bstart[ci]);
                }
                proof {
                    assert(hd[c as int] < tail@[c as int]);
                    assert(phase2_state(bk, bits, n, ptr@, ind, bstart, bend, hd, tail@, k + 1));
                    lemma_phase2_sorted(
                        bk,
                        bits,
                        nblock,
                        ptr@,
                        ind,
                        bstart,
                        bend,
                        hd,
                        tail@,
                        k as int,
                        j as int,
                    );
                    lemma_phase2_behind(bk, bits, n, ptr@, ind, bstart, bend, hd, tail@, k as int, j as int);
                }
                let ghost tail_before = tail@;
                let w = tail[c] - 1;
                tail[c] = w;
                let ghost before_write = ptr@;
                let ghost ind_before = ind;
                ptr[w] = j as u32;
                proof {
                    ind = ind.update(w as int, true);
                    assert(ptr@ == before_write.update(w as int, j as u32));
                    assert forall|q: int| 0 <= q < n && !bit(bits, q) implies #[trigger] marked_present(
                        q,
                        ptr@,
                        ind,
                        n,
                    ) by {
                        lemma_marked_update(q, before_write, ind_before, n, w as int, j as u32);
                    }
                    assert forall|y: int|
                        k <= y < n && #[trigger] ind[y] && ptr@[y] != u32::MAX && bit(bits, before(n, ptr@[y]))
                            implies marked_present(before(n, ptr@[y]), ptr@, ind, n) by {
                        if y == k {
                            assert(ptr@[w as int] == j && ind[w as int]);
                        } else {
                            assert(ptr@[y] == before_write[y] && ind_before[y]);
                            lemma_marked_update(
                                before(n, ptr@[y]),
                                before_write,
                                ind_before,
                                n,
                                w as int,
                                j as u32,
                            );
                        }
                    }
                    assert(!ind_before[w as int]);
                    assert(before_write[k as int] == p);
                    assert forall|x1: int, x2: int|
                        0 <= x1 < x2 < n && ind[x1] && ind[x2] implies #[trigger] ptr@[x1]
                        != #[trigger] ptr@[x2] by {
                        if x1 != w && x2 != w {
                            assert(ptr@[x1] == before_write[x1] && ptr@[x2] == before_write[x2]);
                        } else if x1 == w {
                            assert(ind_before[x2] && ptr@[x2] == before_write[x2]);
                        } else {
                            assert(ind_before[x1] && ptr@[x1] == before_write[x1]);
                        }
                    }
                    assert forall|x: int| 0 <= x < n && #[trigger] ind[x] implies ptr@[x] != u32::MAX
                        && (!bit(bits, ptr@[x] as int) || exists|y: int|
                        k <= y < n && ind[y] && #[trigger] ptr@[y] as int == next_pos(
                            n,
                            ptr@[x] as int,
                        )) by {
                        if x == w {
                            assert(ptr@[k as int] as int == next_pos(n, ptr@[x] as int));
                        } else {
                            assert(ind_before[x] && ptr@[x] == before_write[x]);
                            if bit(bits, ptr@[x] as int) {
                                let y = choose|y: int|
                                    k + 1 <= y < n && ind_before[y] && #[trigger] before_write[y] as int
                                        == next_pos(n, before_write[x] as int);
                                assert(ptr@[y] == before_write[y]);
                            }
                        }
                    }
                    assert forall|x: int|
                        0 <= x < n && #[trigger] ptr@[x] != u32::MAX && !ind[x] implies is_bstar(
                        bits,
                        n,
                        ptr@[x] as int,
                    ) by {
                        assert(ptr@[x] == before_write[x]);
                    }
                    assert forall|c2: int| 0 <= c2 < 256 implies #[trigger] phase2_bucket(
                        bk,
                        bits,
                        ptr@,
                        ind,
                        c2,
                        bstart[c2] as int,
                        hd[c2] as int,
                        tail@[c2] as int,
                        bend[c2] as int,
                    ) by {
                        assert(phase2_bucket(
                            bk,
                            bits,
                            before_write,
                            ind_before,
                            c2,
                            bstart[c2] as int,
                            hd[c2] as int,
                            tail_before[c2] as int,
                            bend[c2] as int,
                        ));
                        lemma_buckets_within(bk, n, bstart, bend, c2);
                        if c2 == c {
                            lemma_phase2_grow(
                                bk,
                                bits,
                                before_write,
                                ind_before,
                                c2,
                                bstart[c2] as int,
                                hd[c2] as int,
                                tail_before[c2] as int,
                                bend[c2] as int,
                                j as u32,
                            );
                        } else {
                            assert(tail@[c2] == tail_before[c2]);
                            if c2 < c {
                                lemma_bucket_order(bk, n, bstart, bend, c2, c as int);
                            } else {
                                lemma_bucket_order(bk, n, bstart, bend, c as int, c2);
                            }
                            lemma_phase2_frame(
                                bk,
                                bits,
                                before_write,
                                ind_before,
                                c2,
                                bstart[c2] as int,
                                hd[c2] as int,
                                tail@[c2] as int,
                                bend[c2] as int,
                                w as int,
                                j as u32,
                                true,
                            );
                        }
                    }
                }
            }
        }
    }
    proof {
        let (s0, l0) = lemma_both_types(bk, bits, n);
        lemma_s_complete(bits, n, ptr@, ind, l0);
        assert forall|p: int| 0 <= p < n implies #[trigger] marked_present(p, ptr@, ind, n) by {
            if !bit(bits, p) {
            }
        }
        lemma_all_marked(ptr@, ind, n);
        assert forall|p: int| 0 <= p < n implies #[trigger] present(p, ptr@, n) by {
            assert(marked_present(p, ptr@, ind, n));
            let x = choose|x: int| 0 <= x < n && ind[x] && ptr@[x] as int == p;
        }
        assert forall|x: int| 0 <= x < n implies #[trigger] ptr@[x] < nblock by {
            assert(ind[x]);
        }
        assert forall|x1: int, x2: int| 0 <= x1 < x2 < n implies #[trigger] ptr@[x1] != #[trigger] ptr@[x2] by {
            assert(ind[x1] && ind[x2]);
        }
        assert forall|x1: int, x2: int| 0 <= x1 < x2 < n implies key_le(
            bk,
            nblock,
            0,
            #[trigger] ptr@[x1],
            #[trigger] ptr@[x2],
        ) by {
            assert(ind[x1] && ind[x2]);
        }
    }
}

/// Places the B* positions, listed in order in `quadrant` (see
/// `decoded`), at the ends of the buckets of their first bytes, keeping
/// their order, into the otherwise free slots `ptr[0..nblock]`.  Returns
/// where each bucket's B* positions start.
pub fn place_bstar(
    ptr: &mut [u32],
    quadrant: &[u16],
    block: &[u8],
    bitset: &[u64],
    nblock: usize,
    num_bstar: usize,
    bucket_start: &Vec<usize>,
    bucket_end: &Vec<usize>,
) -> (tail: Vec<usize>)
    requires
        2 <= nblock <= u32::MAX,
        nblock <= old(ptr)@.len(),
        nblock <= block@.len(),
        2 * num_bstar <= quadrant@.len(),
        buckets_ok(block@, nblock as int, bucket_start@, bucket_end@),
        free_slots(old(ptr)@, 0, nblock as int),
        forall|i: int|
            0 <= i < num_bstar ==> #[trigger] decoded(quadrant@, i) < nblock && is_bstar(
                bitset@,
                nblock as int,
                decoded(quadrant@, i) as int,
            ),
        forall|i: int, i2: int|
            0 <= i < i2 < num_bstar ==> #[trigger] decoded(quadrant@, i) != #[trigger] decoded(
                quadrant@,
                i2,
            ),
        forall|i: int, i2: int|
            0 <= i < i2 < num_bstar ==> key_le(
                block@,
                nblock,
                0,
                #[trigger] decoded(quadrant@, i),
                #[trigger] decoded(quadrant@, i2),
            ),
    ensures
        final(ptr)@.len() == old(ptr)@.len(),
        forall|x: int| nblock <= x < old(ptr)@.len() ==> final(ptr)@[x] == old(ptr)@[x],
        filled_sorted(block@, nblock, final(ptr)@),
        forall|j: int|
            0 <= j < num_bstar ==> present(#[trigger] decoded(quadrant@, j) as int, final(ptr)@, nblock as int),
        tail@.len() == 256,
        filled_distinct(final(ptr)@, nblock as int),
        forall|x: int|
            0 <= x < nblock && final(ptr)@[x] != u32::MAX ==> is_bstar(
                bitset@,
                nblock as int,
                #[trigger] final(ptr)@[x] as int,
            ),
        forall|c: int|
            0 <= c < 256 ==> #[trigger] phase1_bucket(
                block@,
                bitset@,
                nblock as int,
                final(ptr)@,
                c,
                bucket_start@[c] as int,
                bucket_start@[c] as int,
                tail@[c] as int,
                bucket_end@[c] as int,
            ),
{
    let ghost n = nblock as int;
    let ghost bits = bitset@;
    let ghost bk = block@;
    let ghost q = quadrant@;
    let ghost bstart = bucket_start@;
    let ghost bend = bucket_end@;
    let mut tail = bucket_end.clone();
    proof {
        assert forall|c: int| 0 <= c < 256 implies #[trigger] phase1_bucket(
            bk,
            bits,
            n,
            ptr@,
            c,
            bstart[c] as int,
            bstart[c] as int,
            tail@[c] as int,
            bend[c] as int,
        ) by {
            assert(vstd::pervasive::cloned(bend[c], tail@[c]));
            lemma_buckets_within(bk, n, bstart, bend, c);
        }
    }
    let mut i: usize = num_bstar;
    while i > 0
        invariant
            2 <= nblock <= u32::MAX,
            n == nblock,
            bits == bitset@,
            bk == block@,
            q == quadrant@,
            bstart == bucket_start@,
            bend == bucket_end@,
            nblock <= ptr@.len(),
            ptr@.len() == old(ptr)@.len(),
            nblock <= block@.len(),
            2 * num_bstar <= quadrant.len(),
            buckets_ok(bk, n, bstart, bend),
            tail@.len() == 256,
            i <= num_bstar,
            forall|j: int|
                0 <= j < num_bstar ==> #[trigger] decoded(q, j) < n && is_bstar(bits, n, decoded(q, j) as int),
            forall|j: int, j2: int|
                0 <= j < j2 < num_bstar ==> #[trigger] decoded(q, j) != #[trigger] decoded(q, j2),
            forall|j: int, j2: int|
                0 <= j < j2 < num_bstar ==> key_le(bk, nblock, 0, #[trigger] decoded(q, j), #[trigger] decoded(q, j2)),
            forall|x: int| nblock <= x < ptr@.len() ==> ptr@[x] == old(ptr)@[x],
            filled_distinct(ptr@, n),
            filled_sorted(bk, nblock, ptr@),
            forall|j: int| i <= j < num_bstar ==> present(#[trigger] decoded(q, j) as int, ptr@, n),
            forall|x: int|
                0 <= x < n && #[trigger] ptr@[x] != u32::MAX ==> exists|j: int|
                    i <= j < num_bstar && ptr@[x] == #[trigger] decoded(q, j),
            forall|c: int|
                0 <= c < 256 ==> #[trigger] phase1_bucket(
                    bk,
                    bits,
                    n,
                    ptr@,
                    c,
                    bstart[c] as int,
                    bstart[c] as int,
                    tail@[c] as int,
                    bend[c] as int,
                ),
        decreases i,
    {
        i -= 1;
        let low = quadrant[i * 2] as u32;
        let high = quadrant[i * 2 + 1] as u32;
        let s = low | (high << 16);
        proof {
            assert(s == decoded(q, i as int));
            assert(decoded(q, i as int) < n);
        }
        let c = block[s as usize] as usize;
        proof {
            let ci = c as int;
            assert(s == decoded(q, i as int));
            lemma_buckets_within(bk, n, bstart, bend, ci);
            assert(phase1_bucket(
                bk,
                bits,
                n,
                ptr@,
                ci,
                bstart[ci] as int,
                bstart[ci] as int,
                tail@[ci] as int,
                bend[ci] as int,
            ));
            assert forall|x: int| 0 <= x < n implies #[trigger] ptr@[x] != s by {
                if ptr@[x] == s {
                    let j = choose|j: int| i + 1 <= j < num_bstar && ptr@[x] == #[trigger] decoded(q, j);
                    assert(decoded(q, i as int) != decoded(q, j));
                }
            }
            let xs = byte_positions(bk, c as u8, n);
            lemma_byte_positions(bk, c as u8, n);
            assert forall|x: int| tail@[ci] <= x < bend[ci] implies xs.contains(#[trigger] ptr@[x]) by {
                assert(ptr@[x] != u32::MAX);
                let j = choose|j: int| i + 1 <= j < num_bstar && ptr@[x] == #[trigger] decoded(q, j);
            }
            assert forall|x: int, x2: int|
                tail@[ci] <= x < x2 < bend[ci] implies #[trigger] ptr@[x] != #[trigger] ptr@[x2] by {}
            lemma_room_for_one(ptr@, tail@[ci] as int, bend[ci] as int, xs, s);
        }
        let ghost tail_before = tail@;
        let ghost before_write = ptr@;
        let w = tail[c] - 1;
        tail[c] = w;
        ptr[w] = s;
        proof {
            assert(ptr@ == before_write.update(w as int, s));
            assert forall|j: int| i <= j < num_bstar implies present(#[trigger] decoded(q, j) as int, ptr@, n) by {
                if j == i {
                    assert(ptr@[w as int] == s);
                } else {
                    let x = choose|x: int| 0 <= x < n && before_write[x] as int == decoded(q, j) as int;
                    assert(ptr@[x] == before_write[x]);
                }
            }
            assert forall|x1: int, x2: int|
                0 <= x1 < x2 < n && ptr@[x1] != u32::MAX && ptr@[x2] != u32::MAX implies key_le(
                bk,
                nblock,
                0,
                #[trigger] ptr@[x1],
                #[trigger] ptr@[x2],
            ) by {
                if x1 == w {
                    let c2 = lemma_slot_bucket(bk, n, bstart, bend, x2);
                    assert(ptr@[x2] == before_write[x2]);
                    assert(phase1_bucket(
                        bk,
                        bits,
                        n,
                        before_write,
                        c2,
                        bstart[c2] as int,
                        bstart[c2] as int,
                        tail_before[c2] as int,
                        bend[c2] as int,
                    ));
                    if c2 == c {
                        let j = choose|j: int| i + 1 <= j < num_bstar && before_write[x2] == #[trigger] decoded(q, j);
                        assert(key_le(bk, nblock, 0, decoded(q, i as int), decoded(q, j)));
                    } else {
                        if c2 < c {
                            lemma_bucket_order(bk, n, bstart, bend, c2, c as int);
                        }
                        lemma_key_first_byte(bk, nblock, s, ptr@[x2]);
                    }
                } else if x2 == w {
                    let c1 = lemma_slot_bucket(bk, n, bstart, bend, x1);
                    assert(ptr@[x1] == before_write[x1]);
                    assert(phase1_bucket(
                        bk,
                        bits,
                        n,
                        before_write,
                        c1,
                        bstart[c1] as int,
                        bstart[c1] as int,
                        tail_before[c1] as int,
                        bend[c1] as int,
                    ));
                    if c1 > c {
                        lemma_bucket_order(bk, n, bstart, bend, c as int, c1);
                    }
                    lemma_key_first_byte(bk, nblock, ptr@[x1], s);
                } else {
                    assert(ptr@[x1] == before_write[x1]);
                    assert(ptr@[x2] == before_write[x2]);
                }
            }
            assert forall|x: int|
                0 <= x < n && #[trigger] ptr@[x] != u32::MAX implies exists|j: int|
                i <= j < num_bstar && ptr@[x] == #[trigger] decoded(q, j) by {
                if x == w {
                    assert(ptr@[x] == decoded(q, i as int));
                } else {
                    assert(ptr@[x] == before_write[x]);
                    let j = choose|j: int|
                        i + 1 <= j < num_bstar && before_write[x] == #[trigger] decoded(q, j);
                }
            }
            assert forall|c2: int| 0 <= c2 < 256 implies #[trigger] phase1_bucket(
                bk,
                bits,
                n,
                ptr@,
                c2,
                bstart[c2] as int,
                bstart[c2] as int,
                tail@[c2] as int,
                bend[c2] as int,
            ) by {
                assert(phase1_bucket(
                    bk,
                    bits,
                    n,
                    before_write,
                    c2,
                    bstart[c2] as int,
                    bstart[c2] as int,
                    tail_before[c2] as int,
                    bend[c2] as int,
                ));
                lemma_buckets_within(bk, n, bstart, bend, c2);
                if c2 == c {
                    assert forall|x: int| tail@[c2] <= x < bend[c2] implies #[trigger] ptr@[x]
                        != u32::MAX && is_bstar(bits, n, ptr@[x] as int) && bk[ptr@[x] as int] == c2 by {
                        if x != w {
                            assert(ptr@[x] == before_write[x]);
                        }
                    }
                    assert forall|x: int| bstart[c2] <= x < tail@[c2] implies #[trigger] ptr@[x]
                        == u32::MAX by {
                        assert(ptr@[x] == before_write[x]);
                    }
                } else {
                    assert(tail@[c2] == tail_before[c2]);
                    if c2 < c {
                        lemma_bucket_order(bk, n, bstart, bend, c2, c as int);
                    } else {
                        lemma_bucket_order(bk, n, bstart, bend, c as int, c2);
                    }
                    lemma_phase1_frame(
                        bk,
                        bits,
                        n,
                        before_write,
                        ptr@,
                        c2,
                        bstart[c2] as int,
                        bstart[c2] as int,
                        tail@[c2] as int,
                        bend[c2] as int,
                        w as int,
                    );
                }
            }
        }
    }
    proof {
        assert forall|x: int|
            0 <= x < n && ptr@[x] != u32::MAX implies is_bstar(bits, n, #[trigger] ptr@[x] as int) by {
            let j = choose|j: int| 0 <= j < num_bstar && ptr@[x] == #[trigger] decoded(q, j);
        }
    }
    tail
}

} // verus!
