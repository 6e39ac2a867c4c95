//! Counting positions: a run of distinct entries drawn from a finite set is
//! no longer than the set.

use vstd::prelude::*;

verus! {

/// The positions below `k` that satisfy `pred`.
pub open spec fn positions(k: int, pred: spec_fn(u32) -> bool) -> Set<u32> {
    Set::new(|x: u32| x < k && pred(x))
}

/// The number of positions below `k` that hold byte `c`.
pub open spec fn count_byte(text: Seq<u8>, c: u8, k: int) -> nat
    decreases k,
{
    if k <= 0 {
        0
    } else {
        count_byte(text, c, k - 1) + if text[k - 1] == c {
            1nat
        } else {
            0nat
        }
    }
}

/// The positions below `k` that hold byte `c`.
pub open spec fn byte_positions(text: Seq<u8>, c: u8, k: int) -> Set<u32> {
    positions(k, |x: u32| text[x as int] == c)
}

/// The positions below `k` that satisfy `pred` form a finite set of at most
/// `k` elements.
pub proof fn lemma_positions_finite(k: int, pred: spec_fn(u32) -> bool)
    requires
        0 <= k <= u32::MAX + 1,
    ensures
        positions(k, pred).finite(),
        positions(k, pred).len() <= k,
    decreases k,
{
    if k == 0 {
        assert(positions(k, pred) =~= Set::<u32>::empty());
    } else {
        lemma_positions_finite(k - 1, pred);
        let x = (k - 1) as u32;
        if pred(x) {
            assert(positions(k, pred) =~= positions(k - 1, pred).insert(x));
        } else {
            assert(positions(k, pred) =~= positions(k - 1, pred));
        }
    }
}

/// A byte occurs at most as often as there are positions.
pub proof fn lemma_count_byte_bound(text: Seq<u8>, c: u8, k: int)
    requires
        0 <= k,
    ensures
        count_byte(text, c, k) <= k,
    decreases k,
{
    if k > 0 {
        lemma_count_byte_bound(text, c, k - 1);
    }
}

/// The positions holding byte `c` number `count_byte`.
pub proof fn lemma_byte_positions(text: Seq<u8>, c: u8, k: int)
    requires
        0 <= k <= text.len(),
        k <= u32::MAX + 1,
    ensures
        byte_positions(text, c, k).finite(),
        byte_positions(text, c, k).len() == count_byte(text, c, k),
    decreases k,
{
    if k == 0 {
        assert(byte_positions(text, c, k) =~= Set::<u32>::empty());
    } else {
        lemma_byte_positions(text, c, k - 1);
        let x = (k - 1) as u32;
        if text[k - 1] == c {
            assert(byte_positions(text, c, k) =~= byte_positions(text, c, k - 1).insert(x));
        } else {
            assert(byte_positions(text, c, k) =~= byte_positions(text, c, k - 1));
        }
    }
}

/// Distinct entries `s[lo..hi]`, all in the finite set `xs`, are no more
/// than `xs` holds.
pub proof fn lemma_distinct_in_set(s: Seq<u32>, lo: int, hi: int, xs: Set<u32>)
    requires
        0 <= lo <= hi <= s.len(),
        xs.finite(),
        forall|i: int| lo <= i < hi ==> xs.contains(#[trigger] s[i]),
        forall|i: int, j: int| lo <= i < j < hi ==> #[trigger] s[i] != #[trigger] s[j],
    ensures
        hi - lo <= xs.len(),
{
    let t = s.subrange(lo, hi);
    assert(t.no_duplicates()) by {
        assert forall|i: int, j: int| 0 <= i < t.len() && 0 <= j < t.len() && i != j implies t[i]
            != t[j] by {
            if i < j {
                assert(s[lo + i] != s[lo + j]);
            } else {
                assert(s[lo + j] != s[lo + i]);
            }
        }
    }
    t.unique_seq_to_set();
    assert(t.to_set().subset_of(xs)) by {
        assert forall|x: u32| t.to_set().contains(x) implies xs.contains(x) by {
            let i = choose|i: int| 0 <= i < t.len() && t[i] == x;
            assert(s[lo + i] == x);
        }
    }
    vstd::set_lib::lemma_len_subset(t.to_set(), xs);
}

} // verus!
