//! Why induced sorting leaves every position of the text in the array:
//! each induced position is reached from its successor, and following
//! successors from any position meets a position that is there from the
//! start.

use vstd::prelude::*;
use crate::bstar::is_bstar;
use crate::counting::{lemma_distinct_in_set, lemma_positions_finite, positions};
use crate::induce::before;
use crate::stype::{bit, next_pos, prev_pos};

verus! {

/// How many steps forward from `j` the position `t` lies, in a cyclic text
/// of length `n`.
pub open spec fn gap(n: int, j: int, t: int) -> int {
    if j <= t {
        t - j
    } else {
        t + n - j
    }
}

/// Position `v` is an entry of `s[0..n]`.
pub open spec fn present(v: int, s: Seq<u32>, n: int) -> bool {
    exists|x: int| 0 <= x < n && s[x] as int == v
}

/// Position `v` is an entry of a marked slot of `s[0..n]`.
pub open spec fn marked_present(v: int, s: Seq<u32>, mark: Seq<bool>, n: int) -> bool {
    exists|x: int| 0 <= x < n && mark[x] && s[x] as int == v
}

/// Filling a free slot keeps every present position present.
pub proof fn lemma_present_update(v: int, s: Seq<u32>, n: int, w: int, val: u32)
    requires
        present(v, s, n),
        0 <= v < u32::MAX,
        n <= s.len(),
        0 <= w < s.len(),
        s[w] == u32::MAX,
    ensures
        present(v, s.update(w, val), n),
{
    let x = choose|x: int| 0 <= x < n && s[x] as int == v;
    assert(s.update(w, val)[x] == s[x]);
}

/// Filling an unmarked slot and marking it keeps every marked entry.
pub proof fn lemma_marked_update(v: int, s: Seq<u32>, mark: Seq<bool>, n: int, w: int, val: u32)
    requires
        marked_present(v, s, mark, n),
        n <= s.len(),
        n <= mark.len(),
        0 <= w < s.len(),
        w < mark.len(),
        !mark[w],
    ensures
        marked_present(v, s.update(w, val), mark.update(w, true), n),
{
    let x = choose|x: int| 0 <= x < n && mark[x] && s[x] as int == v;
    assert(s.update(w, val)[x] == s[x]);
    assert(mark.update(w, true)[x]);
}

/// The position before the one after `j` is `j`.
proof fn lemma_before_next(n: int, j: int)
    requires
        0 <= j < n <= u32::MAX,
    ensures
        before(n, next_pos(n, j) as u32) == j,
        prev_pos(n, next_pos(n, j)) == j,
        next_pos(n, j) < n,
{
}

/// An L-type position is present where every B* position is, and where
/// every present position brings its L-type predecessor with it.
proof fn lemma_l_present(bits: Seq<u64>, n: int, s: Seq<u32>, s0: int, j: int)
    requires
        2 <= n <= s.len(),
        n <= u32::MAX,
        0 <= s0 < n,
        bit(bits, s0),
        forall|p: int| 0 <= p < n && is_bstar(bits, n, p) ==> #[trigger] present(p, s, n),
        forall|y: int|
            0 <= y < n && #[trigger] s[y] != u32::MAX && !bit(bits, before(n, s[y])) ==> present(
                before(n, s[y]),
                s,
                n,
            ),
        0 <= j < n,
        !bit(bits, j),
    ensures
        present(j, s, n),
    decreases gap(n, j, s0),
{
    let p = next_pos(n, j);
    lemma_before_next(n, j);
    if bit(bits, p) {
        assert(is_bstar(bits, n, p));
    } else {
        lemma_l_present(bits, n, s, s0, p);
    }
    assert(present(p, s, n));
    let y = choose|y: int| 0 <= y < n && s[y] as int == p;
    assert(s[y] != u32::MAX);
}

/// After the left-to-right pass every L-type position is present: where
/// the text has an S-type position `s0`, every B* position is present, and
/// every present position brought its L-type predecessor.
pub proof fn lemma_l_complete(bits: Seq<u64>, n: int, s: Seq<u32>, s0: int)
    requires
        2 <= n <= s.len(),
        n <= u32::MAX,
        0 <= s0 < n,
        bit(bits, s0),
        forall|p: int| 0 <= p < n && is_bstar(bits, n, p) ==> #[trigger] present(p, s, n),
        forall|y: int|
            0 <= y < n && #[trigger] s[y] != u32::MAX && !bit(bits, before(n, s[y])) ==> present(
                before(n, s[y]),
                s,
                n,
            ),
    ensures
        forall|j: int| 0 <= j < n && !bit(bits, j) ==> #[trigger] present(j, s, n),
{
    assert forall|j: int| 0 <= j < n && !bit(bits, j) implies #[trigger] present(j, s, n) by {
        lemma_l_present(bits, n, s, s0, j);
    }
}

/// An S-type position is among the marked entries where every L-type
/// position is, and where every marked entry brought its S-type
/// predecessor with it.
proof fn lemma_s_present(bits: Seq<u64>, n: int, s: Seq<u32>, mark: Seq<bool>, l0: int, j: int)
    requires
        2 <= n <= s.len(),
        n <= mark.len(),
        n <= u32::MAX,
        0 <= l0 < n,
        !bit(bits, l0),
        forall|p: int| 0 <= p < n && !bit(bits, p) ==> #[trigger] marked_present(p, s, mark, n),
        forall|y: int|
            0 <= y < n && #[trigger] mark[y] && s[y] != u32::MAX && bit(bits, before(n, s[y]))
                ==> marked_present(before(n, s[y]), s, mark, n),
        0 <= j < n,
        bit(bits, j),
    ensures
        marked_present(j, s, mark, n),
    decreases gap(n, j, l0),
{
    let p = next_pos(n, j);
    lemma_before_next(n, j);
    if bit(bits, p) {
        lemma_s_present(bits, n, s, mark, l0, p);
    }
    assert(marked_present(p, s, mark, n));
    let y = choose|y: int| 0 <= y < n && mark[y] && s[y] as int == p;
    assert(s[y] != u32::MAX);
}

/// After the right-to-left pass every S-type position is among the marked
/// entries: where the text has an L-type position `l0`, every L-type
/// position is among them, and every marked entry brought its S-type
/// predecessor.
pub proof fn lemma_s_complete(bits: Seq<u64>, n: int, s: Seq<u32>, mark: Seq<bool>, l0: int)
    requires
        2 <= n <= s.len(),
        n <= mark.len(),
        n <= u32::MAX,
        0 <= l0 < n,
        !bit(bits, l0),
        forall|p: int| 0 <= p < n && !bit(bits, p) ==> #[trigger] marked_present(p, s, mark, n),
        forall|y: int|
            0 <= y < n && #[trigger] mark[y] && s[y] != u32::MAX && bit(bits, before(n, s[y]))
                ==> marked_present(before(n, s[y]), s, mark, n),
    ensures
        forall|j: int| 0 <= j < n && bit(bits, j) ==> #[trigger] marked_present(j, s, mark, n),
{
    assert forall|j: int| 0 <= j < n && bit(bits, j) implies #[trigger] marked_present(j, s, mark, n) by {
        lemma_s_present(bits, n, s, mark, l0, j);
    }
}

/// Where the marked slots of `s[0..n]` hold distinct entries and every
/// position below `n` is among them, every slot is marked.
pub proof fn lemma_all_marked(s: Seq<u32>, mark: Seq<bool>, n: int)
    requires
        0 <= n <= s.len(),
        n <= mark.len(),
        n <= u32::MAX,
        forall|x1: int, x2: int|
            0 <= x1 < x2 < n && mark[x1] && mark[x2] ==> #[trigger] s[x1] != #[trigger] s[x2],
        forall|p: int| 0 <= p < n ==> #[trigger] marked_present(p, s, mark, n),
    ensures
        forall|x: int| 0 <= x < n ==> #[trigger] mark[x],
{
    assert forall|x0: int| 0 <= x0 < n implies #[trigger] mark[x0] by {
        if !mark[x0] {
            let slot = |p: int| choose|x: int| 0 <= x < n && mark[x] && s[x] as int == p;
            let v = Seq::new(n as nat, |p: int| slot(p) as u32);
            let all = positions(n, |x: u32| true);
            lemma_positions_finite(n, |x: u32| true);
            let xs = all.remove(x0 as u32);
            assert(xs =~= positions(n, |x: u32| x as int != x0));
            assert forall|p: int| 0 <= p < n implies xs.contains(#[trigger] v[p]) by {
                assert(marked_present(p, s, mark, n));
            }
            assert forall|p1: int, p2: int| 0 <= p1 < p2 < n implies #[trigger] v[p1] != #[trigger] v[p2] by {
                assert(marked_present(p1, s, mark, n));
                assert(marked_present(p2, s, mark, n));
            }
            lemma_distinct_in_set(v, 0, n, xs);
            assert(all.contains(x0 as u32));
        }
    }
}

} // verus!
