//! Inverting the transform: the last column of the sorted rotations and the
//! row of position 0 give the text back, by the mapping a decoder follows
//! from each row to the row of the rotation one position earlier.

use vstd::prelude::*;
use vstd::relations::injective_on;
use crate::fill::present;
use crate::lex::{
    lemma_lex_asymmetric, lemma_lex_irreflexive, lemma_lex_total, lemma_lex_transitive, lex_lt,
};
use crate::order::{distinct_range, elem_key, sorted_range};
use crate::rotation::{rotation, wrap};
use crate::rotorder::{lemma_key_first_byte, lemma_key_shift};
use crate::stype::{next_pos, prev_pos};

verus! {

/// The last column of the sorted rotations `ptr[0..n]` of the text
/// `block[0..n]`: the byte before each row's position.
pub open spec fn bwt_last(block: Seq<u8>, n: usize, ptr: Seq<u32>) -> Seq<u8> {
    Seq::new(n as nat, |k: int| block[prev_pos(n as int, ptr[k] as int)])
}

/// The slots of `l` whose bytes are below `c`.
pub open spec fn under_set(l: Seq<u8>, c: u8) -> Set<int> {
    Set::new(|j: int| 0 <= j < l.len() && l[j] < c)
}

/// How many bytes of `l` are below `c`.
pub open spec fn bytes_under(l: Seq<u8>, c: u8) -> nat {
    under_set(l, c).len()
}

/// The first `k` slots of `l` whose bytes equal `c`.
pub open spec fn rank_set(l: Seq<u8>, c: u8, k: int) -> Set<int> {
    Set::new(|j: int| 0 <= j < k && l[j] == c)
}

/// How many of the first `k` bytes of `l` equal `c`.
pub open spec fn rank_before(l: Seq<u8>, c: u8, k: int) -> nat {
    rank_set(l, c, k).len()
}

/// The row a decoder goes to from row `k` of the last column `l`: the
/// bytes below `l[k]`, and the earlier occurrences of `l[k]`.
pub open spec fn lf(l: Seq<u8>, k: int) -> int {
    (bytes_under(l, l[k]) + rank_before(l, l[k], k)) as int
}

/// The row `i` steps from row `r`.
pub open spec fn lf_steps(l: Seq<u8>, r: int, i: nat) -> int
    decreases i,
{
    if i == 0 {
        r
    } else {
        lf(l, lf_steps(l, r, (i - 1) as nat))
    }
}

/// The text a decoder rebuilds from the last column `l` and the row
/// `orig` of position 0, from its end backwards.
pub open spec fn inverse_bwt(l: Seq<u8>, orig: int) -> Seq<u8> {
    Seq::new(l.len(), |j: int| l[lf_steps(l, orig, (l.len() - 1 - j) as nat)])
}

/// The row holding position `q`.
spec fn row_of(ptr: Seq<u32>, n: int, q: int) -> int {
    choose|r: int| 0 <= r < n && ptr[r] as int == q
}

/// The key of position `p` at depth 0.
spec fn key(block: Seq<u8>, n: usize, p: int) -> Seq<u8> {
    elem_key(block, n, p as u32, 0)
}

/// The rows or positions below `n` that satisfy `pred`.
spec fn below(n: int, pred: spec_fn(int) -> bool) -> Set<int> {
    Set::new(|p: int| 0 <= p < n && pred(p))
}

/// A set of rows or positions below `n` is finite and has at most `n`
/// members.
proof fn lemma_below_finite(n: int, s: Set<int>)
    requires
        0 <= n,
        forall|p: int| s.contains(p) ==> 0 <= p < n,
    ensures
        s.finite(),
        s.len() <= n,
{
    vstd::set_lib::lemma_int_range(0, n);
    assert(s.subset_of(vstd::set_lib::set_int_range(0, n)));
    vstd::set_lib::lemma_len_subset(s, vstd::set_lib::set_int_range(0, n));
}

/// A one-to-one map from `s` into `t` shows `s` no larger than `t`.
proof fn lemma_inject_le(n: int, s: Set<int>, t: Set<int>, f: spec_fn(int) -> int)
    requires
        0 <= n,
        forall|p: int| s.contains(p) ==> 0 <= p < n,
        forall|p: int| t.contains(p) ==> 0 <= p < n,
        injective_on(f, s),
        forall|p: int| s.contains(p) ==> t.contains(f(p)),
    ensures
        s.len() <= t.len(),
{
    lemma_below_finite(n, s);
    lemma_below_finite(n, t);
    vstd::set_lib::lemma_map_size(s, s.map(f), f);
    assert(s.map(f).subset_of(t));
    vstd::set_lib::lemma_len_subset(s.map(f), t);
}

/// The slots `[lo, hi)` number `hi - lo`.
proof fn lemma_range_len(lo: int, hi: int)
    requires
        0 <= lo <= hi,
    ensures
        below(hi, |p: int| lo <= p).len() == hi - lo,
{
    vstd::set_lib::lemma_int_range(lo, hi);
    assert(below(hi, |p: int| lo <= p) =~= vstd::set_lib::set_int_range(lo, hi));
}

/// `ptr[0..n]` holds every position of the text `block[0..n]` once, in the
/// order of their rotations.
pub open spec fn sorted_rotations(block: Seq<u8>, n: usize, ptr: Seq<u32>) -> bool {
    &&& 1 <= n <= u32::MAX
    &&& n <= block.len()
    &&& n <= ptr.len()
    &&& forall|x: int| 0 <= x < n ==> #[trigger] ptr[x] < n
    &&& distinct_range(ptr, 0, n as int)
    &&& forall|p: int| 0 <= p < n ==> #[trigger] present(p, ptr, n as int)
    &&& sorted_range(block, n, 0, ptr, 0, n as int)
}

/// The row of a position holds it.
proof fn lemma_row_of(block: Seq<u8>, n: usize, ptr: Seq<u32>, q: int)
    requires
        sorted_rotations(block, n, ptr),
        0 <= q < n,
    ensures
        0 <= row_of(ptr, n as int, q) < n,
        ptr[row_of(ptr, n as int, q)] as int == q,
{
    assert(present(q, ptr, n as int));
}

/// Rows are ordered by their keys: a later row's key is not smaller.
proof fn lemma_rows_ordered(block: Seq<u8>, n: usize, ptr: Seq<u32>, r1: int, r2: int)
    requires
        sorted_rotations(block, n, ptr),
        0 <= r1 <= r2 < n,
    ensures
        !lex_lt(key(block, n, ptr[r2] as int), key(block, n, ptr[r1] as int)),
{
    if r1 < r2 {
        assert(crate::order::key_le(block, n, 0, ptr[r1], ptr[r2]));
    } else {
        lemma_lex_irreflexive(key(block, n, ptr[r1] as int));
    }
}

/// As many positions hold a byte below `c` as rows of the last column do.
proof fn lemma_under_count(block: Seq<u8>, n: usize, ptr: Seq<u32>, c: u8)
    requires
        sorted_rotations(block, n, ptr),
    ensures
        below(n as int, |p: int| block[p] < c).len() == bytes_under(bwt_last(block, n, ptr), c),
{
    let ni = n as int;
    let l = bwt_last(block, n, ptr);
    let a = below(ni, |p: int| block[p] < c);
    let ar = under_set(l, c);
    let f = |r: int| prev_pos(ni, ptr[r] as int);
    let g = |p: int| row_of(ptr, ni, next_pos(ni, p));
    assert forall|r1: int, r2: int| ar.contains(r1) && ar.contains(r2) && #[trigger] f(r1) == #[trigger] f(r2)
        implies r1 == r2 by {
        if r1 < r2 {
            assert(ptr[r1] != ptr[r2]);
        } else if r2 < r1 {
            assert(ptr[r2] != ptr[r1]);
        }
    }
    assert forall|p: int| ar.contains(p) implies a.contains(f(p)) by {}
    lemma_inject_le(ni, ar, a, f);
    assert forall|p1: int, p2: int| a.contains(p1) && a.contains(p2) && #[trigger] g(p1) == #[trigger] g(p2)
        implies p1 == p2 by {
        lemma_row_of(block, n, ptr, next_pos(ni, p1));
        lemma_row_of(block, n, ptr, next_pos(ni, p2));
    }
    assert forall|p: int| a.contains(p) implies ar.contains(g(p)) by {
        lemma_row_of(block, n, ptr, next_pos(ni, p));
    }
    lemma_inject_le(ni, a, ar, g);
}

/// The rows before the row `lf` leads to from row `k` hold keys no smaller
/// than that of the position before row `k`'s: there are at most `lf` rows
/// whose keys are smaller.
proof fn lemma_lf_upper(block: Seq<u8>, n: usize, ptr: Seq<u32>, k: int)
    requires
        sorted_rotations(block, n, ptr),
        0 <= k < n,
    ensures
        below(n as int, |r: int| lex_lt(key(block, n, ptr[r] as int), key(block, n, prev_pos(n as int, ptr[k] as int)))).len()
            <= lf(bwt_last(block, n, ptr), k),
{
    let ni = n as int;
    let l = bwt_last(block, n, ptr);
    let x = prev_pos(ni, ptr[k] as int);
    let c = l[k];
    let v = key(block, n, x);
    let a = below(ni, |p: int| block[p] < c);
    let bp = below(ni, |p: int| block[p] == c && lex_lt(key(block, n, p), v));
    let e = rank_set(l, c, k);
    let plt = below(ni, |p: int| lex_lt(key(block, n, p), v));
    let rlt = below(ni, |r: int| lex_lt(key(block, n, ptr[r] as int), v));
    assert(next_pos(ni, x) == ptr[k] as int);
    lemma_under_count(block, n, ptr, c);
    // Positions with byte `c` and a smaller key go to earlier rows of `c`.
    let g = |p: int| row_of(ptr, ni, next_pos(ni, p));
    assert forall|p1: int, p2: int| bp.contains(p1) && bp.contains(p2) && #[trigger] g(p1) == #[trigger] g(p2)
        implies p1 == p2 by {
        lemma_row_of(block, n, ptr, next_pos(ni, p1));
        lemma_row_of(block, n, ptr, next_pos(ni, p2));
    }
    assert forall|p: int| bp.contains(p) implies e.contains(g(p)) by {
        let q = next_pos(ni, p);
        lemma_row_of(block, n, ptr, q);
        lemma_key_shift(block, n, p as u32, x as u32);
        if g(p) >= k {
            lemma_rows_ordered(block, n, ptr, k, g(p));
        }
    }
    lemma_inject_le(ni, bp, e, g);
    // Smaller keys start with a byte no larger than `c`.
    assert forall|p: int| plt.contains(p) implies #[trigger] a.union(bp).contains(p) by {
        if block[p] > c {
            lemma_key_first_byte(block, n, x as u32, p as u32);
            lemma_lex_asymmetric(key(block, n, x), key(block, n, p));
        }
    }
    lemma_below_finite(ni, a);
    lemma_below_finite(ni, bp);
    lemma_below_finite(ni, a.union(bp));
    vstd::set_lib::lemma_len_union(a, bp);
    vstd::set_lib::lemma_len_subset(plt, a.union(bp));
    // Rows with smaller keys hold positions with smaller keys.
    let f = |r: int| ptr[r] as int;
    assert forall|r1: int, r2: int| rlt.contains(r1) && rlt.contains(r2) && #[trigger] f(r1) == #[trigger] f(r2)
        implies r1 == r2 by {
        if r1 < r2 {
            assert(ptr[r1] != ptr[r2]);
        } else if r2 < r1 {
            assert(ptr[r2] != ptr[r1]);
        }
    }
    lemma_inject_le(ni, rlt, plt, f);
    assert(rlt =~= below(ni, |r: int| lex_lt(key(block, n, ptr[r] as int), key(block, n, prev_pos(ni, ptr[k] as int)))));
}

/// More than `lf` rows hold keys no larger than that of the position
/// before row `k`'s.
proof fn lemma_lf_lower(block: Seq<u8>, n: usize, ptr: Seq<u32>, k: int)
    requires
        sorted_rotations(block, n, ptr),
        0 <= k < n,
    ensures
        lf(bwt_last(block, n, ptr), k) < below(
            n as int,
            |r: int| !lex_lt(key(block, n, prev_pos(n as int, ptr[k] as int)), key(block, n, ptr[r] as int)),
        ).len(),
{
    let ni = n as int;
    let l = bwt_last(block, n, ptr);
    let x = prev_pos(ni, ptr[k] as int);
    let c = l[k];
    let v = key(block, n, x);
    let a = below(ni, |p: int| block[p] < c);
    let cp = below(ni, |p: int| block[p] == c && !lex_lt(v, key(block, n, p)));
    let e = rank_set(l, c, k);
    let e1 = rank_set(l, c, k + 1);
    let ple = below(ni, |p: int| !lex_lt(v, key(block, n, p)));
    let rle = below(ni, |r: int| !lex_lt(v, key(block, n, ptr[r] as int)));
    assert(next_pos(ni, x) == ptr[k] as int);
    lemma_under_count(block, n, ptr, c);
    // The rows of `c` up to `k` come from positions with byte `c` and keys
    // no larger.
    assert(e1 =~= e.insert(k));
    lemma_below_finite(ni, e);
    let f = |r: int| prev_pos(ni, ptr[r] as int);
    assert forall|r1: int, r2: int| e1.contains(r1) && e1.contains(r2) && #[trigger] f(r1) == #[trigger] f(r2)
        implies r1 == r2 by {
        if r1 < r2 {
            assert(ptr[r1] != ptr[r2]);
        } else if r2 < r1 {
            assert(ptr[r2] != ptr[r1]);
        }
    }
    assert forall|r: int| e1.contains(r) implies cp.contains(f(r)) by {
        let y = f(r);
        assert(next_pos(ni, y) == ptr[r] as int);
        lemma_rows_ordered(block, n, ptr, r, k);
        lemma_key_shift(block, n, x as u32, y as u32);
    }
    lemma_inject_le(ni, e1, cp, f);
    // Positions with a smaller byte have smaller keys.
    assert forall|p: int| a.union(cp).contains(p) implies #[trigger] ple.contains(p) by {
        if block[p] < c {
            lemma_key_first_byte(block, n, p as u32, x as u32);
            lemma_lex_asymmetric(key(block, n, p), v);
        }
    }
    lemma_below_finite(ni, a);
    lemma_below_finite(ni, cp);
    lemma_below_finite(ni, ple);
    assert(a.disjoint(cp));
    vstd::set_lib::lemma_set_disjoint_lens(a, cp);
    vstd::set_lib::lemma_len_subset(a.union(cp), ple);
    // Positions with keys no larger sit in rows with keys no larger.
    let g = |p: int| row_of(ptr, ni, p);
    assert forall|p1: int, p2: int| ple.contains(p1) && ple.contains(p2) && #[trigger] g(p1) == #[trigger] g(p2)
        implies p1 == p2 by {
        lemma_row_of(block, n, ptr, p1);
        lemma_row_of(block, n, ptr, p2);
    }
    assert forall|p: int| ple.contains(p) implies rle.contains(g(p)) by {
        lemma_row_of(block, n, ptr, p);
    }
    lemma_inject_le(ni, ple, rle, g);
    assert(rle =~= below(ni, |r: int| !lex_lt(key(block, n, prev_pos(ni, ptr[k] as int)), key(block, n, ptr[r] as int))));
}

/// The row `lf` leads to from row `k` holds a rotation equal to that of
/// the position before row `k`'s.
proof fn lemma_lf_row(block: Seq<u8>, n: usize, ptr: Seq<u32>, k: int)
    requires
        sorted_rotations(block, n, ptr),
        0 <= k < n,
    ensures
        0 <= lf(bwt_last(block, n, ptr), k) < n,
        key(block, n, ptr[lf(bwt_last(block, n, ptr), k)] as int) == key(
            block,
            n,
            prev_pos(n as int, ptr[k] as int),
        ),
{
    let ni = n as int;
    let l = bwt_last(block, n, ptr);
    let m = lf(l, k);
    let v = key(block, n, prev_pos(ni, ptr[k] as int));
    let rlt = below(ni, |r: int| lex_lt(key(block, n, ptr[r] as int), v));
    let rle = below(ni, |r: int| !lex_lt(v, key(block, n, ptr[r] as int)));
    lemma_lf_upper(block, n, ptr, k);
    lemma_lf_lower(block, n, ptr, k);
    assert(rlt =~= below(ni, |r: int| lex_lt(key(block, n, ptr[r] as int), key(block, n, prev_pos(ni, ptr[k] as int)))));
    assert(rle =~= below(ni, |r: int| !lex_lt(key(block, n, prev_pos(ni, ptr[k] as int)), key(block, n, ptr[r] as int))));
    lemma_below_finite(ni, rle);
    lemma_below_finite(ni, rlt);
    let km = key(block, n, ptr[m] as int);
    lemma_lex_total(km, v);
    if lex_lt(km, v) {
        let pre = below(m + 1, |p: int| 0 <= p);
        lemma_range_len(0, m + 1);
        assert forall|r: int| pre.contains(r) implies rlt.contains(r) by {
            let kr = key(block, n, ptr[r] as int);
            lemma_rows_ordered(block, n, ptr, r, m);
            lemma_lex_total(kr, km);
            if lex_lt(kr, km) {
                lemma_lex_transitive(kr, km, v);
            }
        }
        vstd::set_lib::lemma_len_subset(pre, rlt);
    } else if lex_lt(v, km) {
        let pre = below(m, |p: int| 0 <= p);
        lemma_range_len(0, m);
        assert forall|r: int| rle.contains(r) implies pre.contains(r) by {
            if r >= m {
                let kr = key(block, n, ptr[r] as int);
                lemma_rows_ordered(block, n, ptr, m, r);
                lemma_lex_total(km, kr);
                if lex_lt(km, kr) {
                    lemma_lex_transitive(v, km, kr);
                }
            }
        }
        lemma_below_finite(m, pre);
        vstd::set_lib::lemma_len_subset(rle, pre);
    }
}

/// A key at depth 0 is the whole rotation.
proof fn lemma_key_rotation(block: Seq<u8>, n: usize, p: int)
    requires
        0 <= p < n <= u32::MAX,
    ensures
        key(block, n, p) == rotation(block, n as int, p),
{
    assert(key(block, n, p) =~= rotation(block, n as int, p));
}

/// The rotation one position earlier is the rotation turned by one byte:
/// equal rotations stay equal one position earlier.
proof fn lemma_prev_rotation(block: Seq<u8>, n: int, x: int, y: int)
    requires
        0 <= x < n,
        0 <= y < n,
        rotation(block, n, x) == rotation(block, n, y),
    ensures
        rotation(block, n, prev_pos(n, x)) == rotation(block, n, prev_pos(n, y)),
        block[prev_pos(n, x)] == rotation(block, n, x)[n - 1],
{
    let (rx, ry) = (rotation(block, n, x), rotation(block, n, y));
    let (px, py) = (rotation(block, n, prev_pos(n, x)), rotation(block, n, prev_pos(n, y)));
    assert(wrap(n, x + n - 1) == prev_pos(n, x));
    assert(wrap(n, y + n - 1) == prev_pos(n, y));
    assert forall|k: int| 0 <= k < n implies #[trigger] px[k] == py[k] by {
        if k == 0 {
            assert(px[0] == rx[n - 1] && py[0] == ry[n - 1]);
        } else {
            assert(wrap(n, prev_pos(n, x) + k) == wrap(n, x + k - 1));
            assert(wrap(n, prev_pos(n, y) + k) == wrap(n, y + k - 1));
            assert(px[k] == rx[k - 1] && py[k] == ry[k - 1]);
        }
    }
    assert(px =~= py);
}

/// The position `i` places before position 0, cyclically.
spec fn back(n: int, i: int) -> int {
    if i == 0 {
        0
    } else {
        n - i
    }
}

/// After `i` steps from the row of position 0, the decoder stands at a row
/// holding the rotation of the position `i` places before it.
proof fn lemma_lf_steps(block: Seq<u8>, n: usize, ptr: Seq<u32>, orig: int, i: nat)
    requires
        sorted_rotations(block, n, ptr),
        0 <= orig < n,
        ptr[orig] == 0,
        i < n,
    ensures
        0 <= lf_steps(bwt_last(block, n, ptr), orig, i) < n,
        rotation(block, n as int, ptr[lf_steps(bwt_last(block, n, ptr), orig, i)] as int) == rotation(
            block,
            n as int,
            back(n as int, i as int),
        ),
    decreases i,
{
    let ni = n as int;
    let l = bwt_last(block, n, ptr);
    if i > 0 {
        let j = (i - 1) as nat;
        lemma_lf_steps(block, n, ptr, orig, j);
        let r = lf_steps(l, orig, j);
        lemma_lf_row(block, n, ptr, r);
        let m = lf(l, r);
        assert(lf_steps(l, orig, i) == m);
        lemma_key_rotation(block, n, ptr[m] as int);
        lemma_key_rotation(block, n, prev_pos(ni, ptr[r] as int));
        lemma_prev_rotation(block, ni, ptr[r] as int, back(ni, j as int));
        assert(prev_pos(ni, back(ni, j as int)) == back(ni, i as int));
    }
}

/// The transform can be undone: following the decoder's mapping from the
/// row of position 0 through the last column of the sorted rotations
/// gives the text back.
pub proof fn lemma_inverse_bwt(block: Seq<u8>, n: usize, ptr: Seq<u32>, orig: int)
    requires
        sorted_rotations(block, n, ptr),
        0 <= orig < n,
        ptr[orig] == 0,
    ensures
        inverse_bwt(bwt_last(block, n, ptr), orig) == block.subrange(0, n as int),
{
    let ni = n as int;
    let l = bwt_last(block, n, ptr);
    let t = inverse_bwt(l, orig);
    assert forall|j: int| 0 <= j < ni implies #[trigger] t[j] == block[j] by {
        let i = (ni - 1 - j) as nat;
        lemma_lf_steps(block, n, ptr, orig, i);
        let r = lf_steps(l, orig, i);
        let b = back(ni, i as int);
        lemma_prev_rotation(block, ni, ptr[r] as int, b);
        lemma_prev_rotation(block, ni, b, b);
        assert(prev_pos(ni, b) == j);
    }
    assert(t =~= block.subrange(0, ni));
}

} // verus!
