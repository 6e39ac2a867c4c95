//! Sorting text positions by their rotations: insertion sort and the
//! multi-key ternary quicksort for B* suffixes.

use vstd::prelude::*;
use crate::compare::rotation_less;
use crate::order::{
    all_below, elem_key, key_le, lemma_key_le_trans, lemma_key_lt_le, lemma_permuted_below,
    lemma_permuted_refl, lemma_swap_permuted, permuted_within, sorted_range, swapped,
};
use crate::rotation::{
    comparable_text, readable_text, cyclic_upto, lemma_u16_at_rotation, rotation, rotation_pos,
    u16_at,
};
use crate::lex::{lemma_lex_irreflexive, lex_lt};
use crate::order::{
    keeps_ties, lemma_permuted_trans, lemma_stable_refl, lemma_swap_keeps_ties, lemma_swap_tracks,
    stable_within, tracks,
};
use crate::pending::{
    covered, covers, entry_ok, has_prefix, lemma_close_flat, lemma_close_sorted,
    lemma_deepen_range, lemma_measure_concat, lemma_measure_single, lemma_split_range, measure,
    ranges_ok, sorted_mod, word_at, Range,
};

verus! {

/// Sorts `s[lo..hi]` by the rotations of its entries, compared from byte
/// `depth` on, keeping entries with equal keys in their order.  Where the
/// block does not continue the text past its end, the entries are still
/// rearranged, by what the comparison reads there.
pub fn insertion_sort_range(
    s: &mut [u32],
    lo: usize,
    hi: usize,
    block: &[u8],
    nblock: usize,
    depth: usize,
)
    requires
        readable_text(block@, nblock),
        depth <= nblock,
        lo <= hi <= old(s)@.len(),
        all_below(old(s)@, lo as int, hi as int, nblock),
    ensures
        permuted_within(final(s)@, old(s)@, lo as int, hi as int),
        comparable_text(block@, nblock) ==> sorted_range(
            block@,
            nblock,
            depth,
            final(s)@,
            lo as int,
            hi as int,
        ),
        comparable_text(block@, nblock) ==> stable_within(
            block@,
            nblock,
            depth,
            final(s)@,
            old(s)@,
            lo as int,
            hi as int,
        ),
{
    let ghost cyclic = comparable_text(block@, nblock);
    proof {
        lemma_permuted_refl(s@, lo as int, hi as int);
        lemma_stable_refl(block@, nblock, depth, s@, lo as int, hi as int);
    }
    if hi - lo < 2 {
        return;
    }
    let ghost s0 = s@;
    let ghost mut p: Seq<int> = Seq::new(s@.len(), |q: int| q);
    let mut i = lo + 1;
    proof {
        assert(tracks(s@, s0, lo as int, hi as int, p));
        assert(keeps_ties(block@, nblock, depth, s@, lo as int, i as int, p));
    }
    while i < hi
        invariant
            readable_text(block@, nblock),
            cyclic == comparable_text(block@, nblock),
            depth <= nblock,
            lo < i <= hi <= s@.len(),
            all_below(s0, lo as int, hi as int, nblock),
            permuted_within(s@, s0, lo as int, hi as int),
            cyclic ==> sorted_range(block@, nblock, depth, s@, lo as int, i as int),
            tracks(s@, s0, lo as int, hi as int, p),
            forall|q: int| i <= q < hi ==> #[trigger] p[q] == q,
            forall|q: int| lo <= q < i ==> #[trigger] p[q] < i,
            cyclic ==> keeps_ties(block@, nblock, depth, s@, lo as int, i as int, p),
        decreases hi - i,
    {
        proof {
            lemma_permuted_below(s@, s0, lo as int, hi as int, nblock);
        }
        let val = s[i];
        let mut j = i;
        proof {
            assert(s@.update(j as int, val) =~= s@);
            assert(p[i as int] == i);
            assert forall|q1: int, q2: int|
                cyclic &&
                    lo <= q1 < q2 < i + 1 && elem_key(block@, nblock, s@[q1], depth) == elem_key(
                    block@,
                    nblock,
                    s@[q2],
                    depth,
                ) implies #[trigger] p[q1] < #[trigger] p[q2] by {
                if q2 == i {
                    assert(p[q1] < i);
                }
            }
        }
        loop
            invariant
                readable_text(block@, nblock),
                cyclic == comparable_text(block@, nblock),
                depth <= nblock,
                lo <= j <= i < hi <= s@.len(),
                all_below(s0, lo as int, hi as int, nblock),
                val < nblock,
                permuted_within(s@.update(j as int, val), s0, lo as int, hi as int),
                forall|p: int, q: int|
                    cyclic && lo <= p < q <= i && p != j && q != j ==> key_le(
                        block@,
                        nblock,
                        depth,
                        #[trigger] s@.update(j as int, val)[p],
                        #[trigger] s@.update(j as int, val)[q],
                    ),
                forall|q: int|
                    cyclic && j < q <= i ==> lex_lt(
                        elem_key(block@, nblock, val, depth),
                        elem_key(block@, nblock, #[trigger] s@[q], depth),
                    ),
                tracks(s@.update(j as int, val), s0, lo as int, hi as int, p),
                p[j as int] == i,
                forall|q: int| i < q < hi ==> #[trigger] p[q] == q,
                forall|q: int| lo <= q <= i && q != j ==> #[trigger] p[q] < i,
                cyclic ==> keeps_ties(block@, nblock, depth, s@.update(j as int, val), lo as int, i + 1, p),
            ensures
                lo <= j <= i < hi <= s@.len(),
                permuted_within(s@.update(j as int, val), s0, lo as int, hi as int),
                forall|p: int, q: int|
                    cyclic && lo <= p < q <= i && p != j && q != j ==> key_le(
                        block@,
                        nblock,
                        depth,
                        #[trigger] s@.update(j as int, val)[p],
                        #[trigger] s@.update(j as int, val)[q],
                    ),
                forall|q: int|
                    cyclic && j < q <= i ==> lex_lt(
                        elem_key(block@, nblock, val, depth),
                        elem_key(block@, nblock, #[trigger] s@[q], depth),
                    ),
                tracks(s@.update(j as int, val), s0, lo as int, hi as int, p),
                p[j as int] == i,
                forall|q: int| i < q < hi ==> #[trigger] p[q] == q,
                forall|q: int| lo <= q <= i && q != j ==> #[trigger] p[q] < i,
                cyclic ==> keeps_ties(block@, nblock, depth, s@.update(j as int, val), lo as int, i + 1, p),
                cyclic && j > lo ==> key_le(block@, nblock, depth, s@[j - 1], val),
            decreases j,
        {
            if j == lo {
                break;
            }
            let prev = s[j - 1];
            proof {
                lemma_permuted_below(s@.update(j as int, val), s0, lo as int, hi as int, nblock);
                assert(prev == s@.update(j as int, val)[j - 1]);
            }
            if !rotation_less(block, nblock, val as usize, prev as usize, depth) {
                break;
            }
            let ghost t = s@.update(j as int, val);
            s[j] = prev;
            j -= 1;
            proof {
                assert(s@.update(j as int, val) =~= swapped(t, j as int, j + 1));
                lemma_swap_permuted(t, s0, lo as int, hi as int, j as int, j + 1);
                assert(t[j as int] == prev && t[j + 1] == val);
                lemma_swap_tracks(t, s0, lo as int, hi as int, p, j as int);
                if cyclic {
                    lemma_lex_irreflexive(elem_key(block@, nblock, val, depth));
                    lemma_swap_keeps_ties(block@, nblock, depth, t, s0, lo as int, hi as int, i + 1, p, j as int);
                }
                p = p.update(j as int, p[j + 1]).update(j + 1, p[j as int]);
            }
        }
        let ghost v = s@.update(j as int, val);
        s[j] = val;
        proof {
            assert(s@ =~= v);
            let t = s@;
            assert forall|p: int, q: int| cyclic && lo <= p < q < i + 1 implies key_le(
                block@,
                nblock,
                depth,
                #[trigger] t[p],
                #[trigger] t[q],
            ) by {
                lemma_permuted_below(t, s0, lo as int, hi as int, nblock);
                if q == j {
                    if p < j - 1 {
                        lemma_key_le_trans(block@, nblock, depth, t[p], t[j - 1], val);
                    }
                } else if p == j {
                    lemma_key_lt_le(block@, nblock, depth, val, t[q]);
                }
            }
        }
        i += 1;
    }
    proof {
        assert(tracks(s@, s0, lo as int, hi as int, p));
        assert(cyclic ==> tracks(s@, s0, lo as int, hi as int, p) && keeps_ties(
            block@,
            nblock,
            depth,
            s@,
            lo as int,
            hi as int,
            p,
        ));
    }
}

/// Sorts `s` by the rotations of its entries, compared from byte `depth`
/// on, keeping entries with equal keys in their order.
pub fn insertion_sort(s: &mut [u32], block: &[u8], nblock: usize, depth: usize)
    requires
        readable_text(block@, nblock),
        depth <= nblock,
        all_below(old(s)@, 0, old(s)@.len() as int, nblock),
    ensures
        permuted_within(final(s)@, old(s)@, 0, old(s)@.len() as int),
        comparable_text(block@, nblock) ==> sorted_range(
            block@,
            nblock,
            depth,
            final(s)@,
            0,
            old(s)@.len() as int,
        ),
        comparable_text(block@, nblock) ==> stable_within(
            block@,
            nblock,
            depth,
            final(s)@,
            old(s)@,
            0,
            old(s)@.len() as int,
        ),
{
    let len = s.len();
    insertion_sort_range(s, 0, len, block, nblock, depth);
}

/// Exchanges the entries at `a` and `b`.
fn swap_entries(s: &mut [u32], a: usize, b: usize)
    requires
        a < old(s)@.len(),
        b < old(s)@.len(),
    ensures
        final(s)@ == swapped(old(s)@, a as int, b as int),
{
    let x = s[a];
    let y = s[b];
    s[a] = y;
    s[b] = x;
}

/// The median of three words.
pub fn median_u16(a: u16, b: u16, c: u16) -> (m: u16)
    ensures
        m == a || m == b || m == c,
        (m <= a && m <= b) || (m <= a && m <= c) || (m <= b && m <= c),
        (m >= a && m >= b) || (m >= a && m >= c) || (m >= b && m >= c),
{
    if a < b {
        if b < c {
            b
        } else if a < c {
            c
        } else {
            a
        }
    } else {
        if a < c {
            a
        } else if b < c {
            c
        } else {
            b
        }
    }
}

/// Partitions `slice[offset..offset + len]` by the word at `depth` of each
/// entry's rotation into the entries below, at and above `pivot`, and
/// returns where the entries at the pivot start and end, relative to
/// `offset`.
fn partition_by_word(
    slice: &mut [u32],
    offset: usize,
    len: usize,
    block: &[u8],
    nblock: usize,
    depth: usize,
    pivot: u16,
) -> (r: (usize, usize))
    requires
        cyclic_upto(block@, nblock, 1),
        depth + 2 <= nblock,
        offset + len <= old(slice).len(),
        all_below(old(slice)@, offset as int, offset + len, nblock),
        exists|q: int|
            offset <= q < offset + len && word_at(block@, nblock, #[trigger] old(slice)@[q], depth)
                == pivot,
    ensures
        permuted_within(final(slice)@, old(slice)@, offset as int, offset + len),
        r.0 < r.1 <= len,
        forall|q: int|
            offset <= q < offset + r.0 ==> word_at(block@, nblock, #[trigger] final(slice)@[q], depth)
                < pivot,
        forall|q: int|
            offset + r.0 <= q < offset + r.1 ==> word_at(
                block@,
                nblock,
                #[trigger] final(slice)@[q],
                depth,
            ) == pivot,
        forall|q: int|
            offset + r.1 <= q < offset + len ==> word_at(
                block@,
                nblock,
                #[trigger] final(slice)@[q],
                depth,
            ) > pivot,
{
    let ghost s_start = slice@;
    let ghost mut pw: int = choose|q: int|
        offset <= q < offset + len && word_at(block@, nblock, #[trigger] s_start[q], depth)
            == pivot;
    proof {
        lemma_permuted_refl(slice@, offset as int, offset + len);
    }
    let mut lt: usize = 0;
    let mut i: usize = 0;
    let mut gt: usize = len;
    while i < gt
        invariant
            cyclic_upto(block@, nblock, 1),
            depth + 2 <= nblock,
            offset + len <= slice.len(),
            all_below(s_start, offset as int, offset + len, nblock),
            permuted_within(slice@, s_start, offset as int, offset + len),
            lt <= i <= gt <= len,
            forall|q: int|
                offset <= q < offset + lt ==> word_at(block@, nblock, #[trigger] slice@[q], depth)
                    < pivot,
            forall|q: int|
                offset + lt <= q < offset + i ==> word_at(block@, nblock, #[trigger] slice@[q], depth)
                    == pivot,
            forall|q: int|
                offset + gt <= q < offset + len ==> word_at(
                    block@,
                    nblock,
                    #[trigger] slice@[q],
                    depth,
                ) > pivot,
            offset + lt <= pw < offset + gt,
            word_at(block@, nblock, slice@[pw], depth) == pivot,
        decreases gt - i,
    {
        proof {
            lemma_permuted_below(slice@, s_start, offset as int, offset + len, nblock);
        }
        let xi = slice[offset + i];
        let w = u16_at(block, nblock, rotation_pos(nblock, xi as usize, depth));
        proof {
            lemma_u16_at_rotation(block@, nblock, xi as usize, depth);
        }
        let ghost before = slice@;
        if w < pivot {
            if i != lt {
                swap_entries(slice, offset + i, offset + lt);
                proof {
                    lemma_swap_permuted(
                        before,
                        s_start,
                        offset as int,
                        offset + len,
                        offset + i,
                        offset + lt,
                    );
                    if pw == offset + lt {
                        pw = offset + i;
                    }
                }
            }
            lt += 1;
            i += 1;
        } else if w > pivot {
            gt -= 1;
            swap_entries(slice, offset + i, offset + gt);
            proof {
                lemma_swap_permuted(
                    before,
                    s_start,
                    offset as int,
                    offset + len,
                    offset + i,
                    offset + gt,
                );
                if pw == offset + gt {
                    pw = offset + i;
                }
            }
        } else {
            i += 1;
        }
    }
    (lt, gt)
}

/// Sorts `slice[lo..hi]` by the rotations of its entries, compared from
/// byte `initial_depth` on: a multi-key ternary quicksort on 16-bit words
/// that goes two bytes deeper on the part equal to the pivot, with an
/// explicit stack of pending ranges, and insertion sort for short ranges.
#[verifier::rlimit(80)]
pub fn ssort_bstar_range(
    slice: &mut [u32],
    lo: usize,
    hi: usize,
    block: &[u8],
    nblock: usize,
    initial_depth: usize,
)
    requires
        comparable_text(block@, nblock),
        16 < hi - lo && initial_depth + 2 <= nblock ==> cyclic_upto(block@, nblock, 1),
        initial_depth <= nblock,
        lo <= hi <= old(slice)@.len(),
        all_below(old(slice)@, lo as int, hi as int, nblock),
    ensures
        permuted_within(final(slice)@, old(slice)@, lo as int, hi as int),
        sorted_range(block@, nblock, initial_depth, final(slice)@, lo as int, hi as int),
        hi - lo <= 16 ==> stable_within(
            block@,
            nblock,
            initial_depth,
            final(slice)@,
            old(slice)@,
            lo as int,
            hi as int,
        ),
{
    let total = hi - lo;
    if total <= 1 {
        proof {
            lemma_permuted_refl(slice@, lo as int, hi as int);
            lemma_stable_refl(block@, nblock, initial_depth, slice@, lo as int, hi as int);
        }
        return;
    }
    if total <= 16 {
        insertion_sort_range(slice, lo, hi, block, nblock, initial_depth);
        return;
    }
    let ghost s0 = slice@;
    let ghost d0 = initial_depth;
    let mut stack: Vec<(usize, usize, usize)> = Vec::new();
    stack.push((lo, total, initial_depth));
    let ghost mut prefs: Seq<Seq<u8>> = seq![Seq::<u8>::empty()];
    proof {
        lemma_permuted_refl(slice@, lo as int, hi as int);
        let e = stack@[0];
        assert forall|q: int| e.0 <= q < e.0 + e.1 implies has_prefix(
            block@,
            nblock,
            #[trigger] slice@[q],
            d0,
            e.2,
            prefs[0],
        ) by {
            assert(rotation(block@, nblock as int, slice@[q] as int).subrange(d0 as int, d0 as int)
                =~= Seq::<u8>::empty());
        }
        assert forall|i: int, j: int| lo <= i < j < hi implies key_le(
            block@,
            nblock,
            d0,
            #[trigger] slice@[i],
            #[trigger] slice@[j],
        ) || covered(stack@, i, j) by {
            assert(covers(stack@[0], i, j));
        }
    }
    proof {
        assert(block@.len() == block.len());
    }
    while stack.len() > 0
        invariant
            comparable_text(block@, nblock),
            block@.len() <= usize::MAX,
            initial_depth + 2 <= nblock ==> cyclic_upto(block@, nblock, 1),
            d0 == initial_depth,
            initial_depth <= nblock,
            lo <= hi <= slice.len(),
            all_below(s0, lo as int, hi as int, nblock),
            permuted_within(slice@, s0, lo as int, hi as int),
            ranges_ok(block@, nblock, d0, slice@, lo as int, hi as int, stack@, prefs),
            sorted_mod(block@, nblock, d0, slice@, lo as int, hi as int, stack@),
            forall|t: int| 0 <= t < stack@.len() ==> (#[trigger] stack@[t]).1 >= 1,
            stack@.len() <= 256,
        decreases measure(stack@, nblock),
    {
        let ghost stack_before = stack@;
        let ghost prefs_before = prefs;
        let ghost s_before = slice@;
        let (offset, len, depth) = stack.pop().unwrap();
        let ghost e: Range = (offset, len, depth);
        let ghost pe = prefs.last();
        proof {
            prefs = prefs.drop_last();
            assert(stack_before =~= stack@ + seq![e]);
            assert(prefs_before =~= prefs + seq![pe]);
            assert(stack_before =~= stack@ + seq![e] + Seq::<Range>::empty());
            assert(prefs_before =~= prefs + seq![pe] + Seq::<Seq<u8>>::empty());
            assert(stack_before[stack@.len() as int] == e);
            assert(entry_ok(block@, nblock, d0, s_before, lo as int, hi as int, e, pe));
            lemma_permuted_below(slice@, s0, lo as int, hi as int, nblock);
            lemma_measure_concat(stack@, seq![e], nblock);
            lemma_measure_single(e, nblock);
            assert(stack_before[stack@.len() as int].1 >= 1);
            assert(len * (nblock + 1 - depth) >= 1) by (nonlinear_arith)
                requires
                    len >= 1,
                    depth <= nblock,
            ;
        }

        if len <= 16 || depth + 2 > nblock {
            insertion_sort_range(slice, offset, offset + len, block, nblock, depth);
            proof {
                lemma_close_sorted(
                    block@,
                    nblock,
                    d0,
                    s_before,
                    slice@,
                    lo as int,
                    hi as int,
                    stack@,
                    e,
                    Seq::<Range>::empty(),
                    prefs,
                    pe,
                    Seq::<Seq<u8>>::empty(),
                );
                assert(stack@ + Seq::<Range>::empty() =~= stack@);
                assert(prefs + Seq::<Seq<u8>>::empty() =~= prefs);
                lemma_permuted_trans(
                    slice@,
                    s_before,
                    s0,
                    offset as int,
                    offset + len,
                    lo as int,
                    hi as int,
                );
            }
            continue;
        }

        let mid = len / 2;
        let x0 = slice[offset];
        let x1 = slice[offset + mid];
        let x2 = slice[offset + len - 1];
        let w0 = u16_at(block, nblock, rotation_pos(nblock, x0 as usize, depth));
        let w1 = u16_at(block, nblock, rotation_pos(nblock, x1 as usize, depth));
        let w2 = u16_at(block, nblock, rotation_pos(nblock, x2 as usize, depth));
        let pivot = median_u16(w0, w1, w2);
        proof {
            lemma_u16_at_rotation(block@, nblock, x0 as usize, depth);
            lemma_u16_at_rotation(block@, nblock, x1 as usize, depth);
            lemma_u16_at_rotation(block@, nblock, x2 as usize, depth);
            let q = if pivot == w0 {
                offset as int
            } else if pivot == w1 {
                offset + mid
            } else {
                offset + len - 1
            };
            assert(word_at(block@, nblock, slice@[q], depth) == pivot);
        }

        let (lt, gt) = partition_by_word(slice, offset, len, block, nblock, depth, pivot);
        proof {
            lemma_permuted_trans(
                slice@,
                s_before,
                s0,
                offset as int,
                offset + len,
                lo as int,
                hi as int,
            );
        }

        if lt == 0 && gt == len {
            if depth + 2 < nblock {
                stack.push((offset, len, depth + 2));
                proof {
                    let w = rotation(block@, nblock as int, slice@[offset as int] as int).subrange(
                        depth as int,
                        depth + 2,
                    );
                    lemma_deepen_range(
                        block@,
                        nblock,
                        d0,
                        s_before,
                        slice@,
                        lo as int,
                        hi as int,
                        stack_before.drop_last(),
                        e,
                        prefs,
                        pe,
                        pivot as nat,
                    );
                    prefs = prefs.push(pe + w);
                    assert(stack@ =~= stack_before.drop_last() + seq![(offset, len, (depth + 2) as usize)]);
                    assert(prefs =~= prefs_before.drop_last() + seq![pe + w]);
                }
            } else {
                proof {
                    let w = rotation(block@, nblock as int, slice@[offset as int] as int).subrange(
                        depth as int,
                        depth + 2,
                    );
                    let e2: Range = (offset, len, (depth + 2) as usize);
                    lemma_deepen_range(
                        block@,
                        nblock,
                        d0,
                        s_before,
                        slice@,
                        lo as int,
                        hi as int,
                        stack@,
                        e,
                        prefs,
                        pe,
                        pivot as nat,
                    );
                    assert(stack@ + seq![e2] =~= stack@ + seq![e2] + Seq::<Range>::empty());
                    assert(prefs + seq![pe + w] =~= prefs + seq![pe + w] + Seq::<Seq<u8>>::empty());
                    lemma_permuted_below(slice@, s0, lo as int, hi as int, nblock);
                    lemma_close_flat(
                        block@,
                        nblock,
                        d0,
                        slice@,
                        lo as int,
                        hi as int,
                        stack@,
                        e2,
                        Seq::<Range>::empty(),
                        prefs,
                        pe + w,
                        Seq::<Seq<u8>>::empty(),
                    );
                    assert(stack@ + Seq::<Range>::empty() =~= stack@);
                    assert(prefs + Seq::<Seq<u8>>::empty() =~= prefs);
                }
            }
            continue;
        }

        let ghost s_part = slice@;
        let ghost w = rotation(block@, nblock as int, s_part[offset + lt] as int).subrange(
            depth as int,
            depth + 2,
        );
        let mut parts = [
            (offset, lt, depth),
            (offset + lt, gt - lt, depth + 2),
            (offset + gt, len - gt, depth),
        ];
        let ghost mut pparts: Seq<Seq<u8>> = seq![pe, pe + w, pe];
        if parts[1].1 > parts[0].1 {
            let t = parts[0];
            parts[0] = parts[1];
            parts[1] = t;
            proof {
                pparts = seq![pparts[1], pparts[0], pparts[2]];
            }
        }
        if parts[2].1 > parts[1].1 {
            let t = parts[1];
            parts[1] = parts[2];
            parts[2] = t;
            proof {
                pparts = seq![pparts[0], pparts[2], pparts[1]];
            }
            if parts[1].1 > parts[0].1 {
                let t = parts[0];
                parts[0] = parts[1];
                parts[1] = t;
                proof {
                    pparts = seq![pparts[1], pparts[0], pparts[2]];
                }
            }
        }
        proof {
            lemma_split_range(
                block@,
                nblock,
                d0,
                s_before,
                s_part,
                lo as int,
                hi as int,
                stack@,
                e,
                prefs,
                pe,
                lt,
                gt,
                pivot as nat,
                parts@,
                pparts,
            );
            assert(parts@.subrange(0, 3) =~= parts@);
            assert(pparts.subrange(0, 3) =~= pparts);
        }

        let mut k: usize = 0;
        while k < 3
            invariant
                comparable_text(block@, nblock),
                block@.len() <= usize::MAX,
                initial_depth + 2 <= nblock ==> cyclic_upto(block@, nblock, 1),
                d0 == initial_depth,
                initial_depth <= nblock,
                lo <= hi <= slice.len(),
                all_below(s0, lo as int, hi as int, nblock),
                permuted_within(slice@, s0, lo as int, hi as int),
                k <= 3,
                parts@.len() == 3,
                pparts.len() == 3,
                ranges_ok(
                    block@,
                    nblock,
                    d0,
                    slice@,
                    lo as int,
                    hi as int,
                    stack@ + parts@.subrange(k as int, 3),
                    prefs + pparts.subrange(k as int, 3),
                ),
                sorted_mod(
                    block@,
                    nblock,
                    d0,
                    slice@,
                    lo as int,
                    hi as int,
                    stack@ + parts@.subrange(k as int, 3),
                ),
                forall|t: int| 0 <= t < stack@.len() ==> (#[trigger] stack@[t]).1 >= 1,
                stack@.len() <= 256,
                measure(stack@ + parts@.subrange(k as int, 3), nblock) < measure(
                    stack_before,
                    nblock,
                ),
            decreases 3 - k,
        {
            let (p_off, p_len, p_depth) = parts[k];
            let ghost part: Range = (p_off, p_len, p_depth);
            let ghost pk = pparts[k as int];
            let ghost rest = parts@.subrange(k + 1, 3);
            let ghost prest = pparts.subrange(k + 1, 3);
            let ghost stack_k = stack@;
            let ghost prefs_k = prefs;
            let ghost s_k = slice@;
            proof {
                assert(parts@[k as int] == part);
                assert(parts@.subrange(k as int, 3) =~= seq![part] + rest);
                assert(pparts.subrange(k as int, 3) =~= seq![pk] + prest);
                assert(stack@ + parts@.subrange(k as int, 3) =~= stack@ + seq![part] + rest);
                assert(prefs + pparts.subrange(k as int, 3) =~= prefs + seq![pk] + prest);
                lemma_measure_concat(stack@ + seq![part], rest, nblock);
                lemma_measure_concat(stack@, rest, nblock);
                lemma_measure_concat(stack@, seq![part], nblock);
                let all = stack@ + seq![part] + rest;
                let allp = prefs + seq![pk] + prest;
                assert(all[stack@.len() as int] == part);
                assert(allp[stack@.len() as int] == pk);
                assert(entry_ok(block@, nblock, d0, slice@, lo as int, hi as int, part, pk));
                lemma_permuted_below(slice@, s0, lo as int, hi as int, nblock);
            }
            if p_len > 1 && p_depth < nblock {
                if stack.len() < 256 {
                    stack.push((p_off, p_len, p_depth));
                    proof {
                        prefs = prefs.push(pk);
                        assert(stack@ + rest =~= stack_k + seq![part] + rest);
                        assert(prefs + prest =~= prefs_k + seq![pk] + prest);
                    }
                } else {
                    insertion_sort_range(slice, p_off, p_off + p_len, block, nblock, p_depth);
                    proof {
                        lemma_close_sorted(
                            block@,
                            nblock,
                            d0,
                            s_k,
                            slice@,
                            lo as int,
                            hi as int,
                            stack@,
                            part,
                            rest,
                            prefs,
                            pk,
                            prest,
                        );
                        lemma_permuted_trans(
                            slice@,
                            s_k,
                            s0,
                            p_off as int,
                            p_off + p_len,
                            lo as int,
                            hi as int,
                        );
                    }
                }
            } else {
                proof {
                    lemma_close_flat(
                        block@,
                        nblock,
                        d0,
                        slice@,
                        lo as int,
                        hi as int,
                        stack@,
                        part,
                        rest,
                        prefs,
                        pk,
                        prest,
                    );
                }
            }
            k += 1;
        }
        proof {
            assert(parts@.subrange(3, 3) =~= Seq::<Range>::empty());
            assert(pparts.subrange(3, 3) =~= Seq::<Seq<u8>>::empty());
            assert(stack@ + parts@.subrange(3, 3) =~= stack@);
            assert(prefs + pparts.subrange(3, 3) =~= prefs);
        }
    }
}

/// Sorts `slice` by the rotations of its entries, compared from byte
/// `initial_depth` on (see `ssort_bstar_range`).
pub fn ssort_bstar(slice: &mut [u32], block: &[u8], nblock: usize, initial_depth: usize)
    requires
        comparable_text(block@, nblock),
        16 < old(slice)@.len() && initial_depth + 2 <= nblock ==> cyclic_upto(block@, nblock, 1),
        initial_depth <= nblock,
        all_below(old(slice)@, 0, old(slice)@.len() as int, nblock),
    ensures
        permuted_within(final(slice)@, old(slice)@, 0, old(slice)@.len() as int),
        sorted_range(block@, nblock, initial_depth, final(slice)@, 0, old(slice)@.len() as int),
        old(slice)@.len() <= 16 ==> stable_within(
            block@,
            nblock,
            initial_depth,
            final(slice)@,
            old(slice)@,
            0,
            old(slice)@.len() as int,
        ),
{
    let len = slice.len();
    ssort_bstar_range(slice, 0, len, block, nblock, initial_depth);
}

} // verus!
