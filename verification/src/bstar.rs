//! B* positions: S-type positions whose predecessor is L-type, read off the
//! type bitset a word at a time.

use vstd::prelude::*;
use crate::stype::{bit, prev_pos, s_type, s_type_within, words_for};
use crate::rotorder::types_ok;

verus! {

/// Position `x` is B*: S-type with an L-type predecessor, per the bitset.
pub open spec fn is_bstar(bits: Seq<u64>, n: int, x: int) -> bool {
    bit(bits, x) && !bit(bits, prev_pos(n, x))
}

/// Position `x` of the text `block[0..n]` is B*: S-type, with an L-type
/// predecessor.
pub open spec fn text_bstar(block: Seq<u8>, n: int, x: int) -> bool {
    s_type(block, n, x) && !s_type(block, n, prev_pos(n, x))
}

/// The number of B* positions of the text `block[0..n]` below `lim`.
pub open spec fn bstar_count(block: Seq<u8>, n: int, lim: int) -> nat
    decreases lim,
{
    if lim <= 0 {
        0
    } else {
        bstar_count(block, n, lim - 1) + if text_bstar(block, n, lim - 1) {
            1nat
        } else {
            0nat
        }
    }
}

/// Where the bitset records the types of the text, its list of B*
/// positions below `lim` is as long as their count.
pub proof fn lemma_bstar_count(block: Seq<u8>, bits: Seq<u64>, n: int, lim: int)
    requires
        types_ok(block, bits, n),
        0 <= lim <= n,
    ensures
        bstar_upto(bits, n, lim).len() == bstar_count(block, n, lim),
    decreases lim,
{
    if lim > 0 {
        lemma_bstar_count(block, bits, n, lim - 1);
        let x = lim - 1;
        assert(bit(bits, x) == s_type(block, n, x));
        assert(bit(bits, prev_pos(n, x)) == s_type(block, n, prev_pos(n, x)));
    }
}

/// Types read only the text: two blocks with the same text give every
/// position the same type.
pub proof fn lemma_s_type_same_text(b1: Seq<u8>, b2: Seq<u8>, n: int, i: int, m: nat)
    requires
        0 <= i < n,
        forall|k: int| 0 <= k < n ==> #[trigger] b1[k] == b2[k],
    ensures
        s_type_within(b1, n, i, m) == s_type_within(b2, n, i, m),
    decreases m,
{
    if m > 0 {
        let j = crate::stype::next_pos(n, i);
        assert(b1[i] == b2[i] && b1[j] == b2[j]);
        lemma_s_type_same_text(b1, b2, n, j, (m - 1) as nat);
    }
}

/// Two blocks with the same text have the same number of B* positions.
pub proof fn lemma_bstar_count_same_text(b1: Seq<u8>, b2: Seq<u8>, n: int, lim: int)
    requires
        0 <= lim <= n,
        forall|k: int| 0 <= k < n ==> #[trigger] b1[k] == b2[k],
    ensures
        bstar_count(b1, n, lim) == bstar_count(b2, n, lim),
    decreases lim,
{
    if lim > 0 {
        lemma_bstar_count_same_text(b1, b2, n, lim - 1);
        let x = lim - 1;
        lemma_s_type_same_text(b1, b2, n, x, n as nat);
        lemma_s_type_same_text(b1, b2, n, prev_pos(n, x), n as nat);
    }
}

/// Bit `c` of word `w`.
pub open spec fn word_bit(w: u64, c: int) -> bool {
    (w >> (c as u64)) & 1u64 == 1u64
}

/// The B* positions below `lim`, in increasing order.
pub open spec fn bstar_upto(bits: Seq<u64>, n: int, lim: int) -> Seq<u32>
    decreases lim,
{
    if lim <= 0 {
        Seq::empty()
    } else {
        bstar_upto(bits, n, lim - 1) + if is_bstar(bits, n, lim - 1) {
            seq![(lim - 1) as u32]
        } else {
            Seq::<u32>::empty()
        }
    }
}

/// The list of B* positions below `lim` holds exactly those positions, in
/// strictly increasing order, and no more than `lim` of them.
pub proof fn lemma_bstar_upto(bits: Seq<u64>, n: int, lim: int)
    requires
        0 <= lim <= u32::MAX + 1,
    ensures
        bstar_upto(bits, n, lim).len() <= lim,
        forall|i: int|
            0 <= i < bstar_upto(bits, n, lim).len() ==> (#[trigger] bstar_upto(bits, n, lim)[i])
                < lim && is_bstar(bits, n, bstar_upto(bits, n, lim)[i] as int),
        forall|i: int, j: int|
            0 <= i < j < bstar_upto(bits, n, lim).len() ==> #[trigger] bstar_upto(bits, n, lim)[i]
                < #[trigger] bstar_upto(bits, n, lim)[j],
        forall|x: u32|
            x < lim && is_bstar(bits, n, x as int) ==> bstar_upto(bits, n, lim).contains(x),
    decreases lim,
{
    if lim > 0 {
        lemma_bstar_upto(bits, n, lim - 1);
        let prev = bstar_upto(bits, n, lim - 1);
        let cur = bstar_upto(bits, n, lim);
        assert forall|x: u32| x < lim && is_bstar(bits, n, x as int) implies cur.contains(x) by {
            if x < lim - 1 {
                assert(prev.contains(x));
                let i = choose|i: int| 0 <= i < prev.len() && prev[i] == x;
                assert(cur[i] == x);
            } else {
                assert(cur[cur.len() - 1] == x);
            }
        }
    }
}

/// Without B* positions in `[a, b)`, the lists up to `a` and `b` agree.
pub proof fn lemma_bstar_gap(bits: Seq<u64>, n: int, a: int, b: int)
    requires
        0 <= a <= b,
        forall|x: int| a <= x < b ==> !is_bstar(bits, n, x),
    ensures
        bstar_upto(bits, n, b) == bstar_upto(bits, n, a),
    decreases b - a,
{
    if a < b {
        lemma_bstar_gap(bits, n, a, b - 1);
        assert(bstar_upto(bits, n, b) =~= bstar_upto(bits, n, b - 1));
    }
}

/// Clearing the lowest set bit of a word changes that bit only, and the
/// bits below it are clear.
proof fn lemma_clear_lowest(m: u64, t: u64, c: u64)
    requires
        t < 64,
        c < 64,
        m >= 1,
        (m >> t) & 1u64 == 1u64,
        m << ((64 - t) as u64) == 0u64,
    ensures
        ((m & ((m - 1) as u64)) >> c) & 1u64 == if c == t {
            0u64
        } else {
            (m >> c) & 1u64
        },
        c < t ==> (m >> c) & 1u64 == 0u64,
{
    assert(((m & ((m - 1) as u64)) >> c) & 1u64 == if c == t {
        0u64
    } else {
        (m >> c) & 1u64
    }) by (bit_vector)
        requires
            t < 64,
            c < 64,
            m >= 1,
            (m >> t) & 1u64 == 1u64,
            m << ((64 - t) as u64) == 0u64,
    ;
    assert(c < t ==> (m >> c) & 1u64 == 0u64) by (bit_vector)
        requires
            t < 64,
            c < 64,
            m << ((64 - t) as u64) == 0u64,
    ;
}

/// The bits of `w & !pw` and of `(w << 1) | x` for a bit `x`.
proof fn lemma_mask_bits(w: u64, pw: u64, x: u64, c: u64)
    requires
        c < 64,
        x <= 1,
    ensures
        ((w & !pw) >> c) & 1u64 == 1u64 <==> ((w >> c) & 1u64 == 1u64 && (pw >> c) & 1u64
            != 1u64),
        c == 0 ==> ((((w << 1u64) | x) >> c) & 1u64 == 1u64 <==> x == 1u64),
        c > 0 ==> ((((w << 1u64) | x) >> c) & 1u64 == (w >> ((c - 1) as u64)) & 1u64),
{
    assert(((w & !pw) >> c) & 1u64 == 1u64 <==> ((w >> c) & 1u64 == 1u64 && (pw >> c) & 1u64
        != 1u64)) by (bit_vector)
        requires
            c < 64,
    ;
    assert(c == 0 ==> ((((w << 1u64) | x) >> c) & 1u64 == 1u64 <==> x == 1u64)) by (bit_vector)
        requires
            x <= 1,
    ;
    assert(c > 0 ==> ((((w << 1u64) | x) >> c) & 1u64 == (w >> ((c - 1) as u64)) & 1u64))
        by (bit_vector)
        requires
            c < 64,
            x <= 1,
    ;
}

/// The top bit of a word, and bit `b` of it, each as a number `0` or `1`.
proof fn lemma_one_bit(w: u64, b: u64)
    requires
        b < 64,
    ensures
        w >> 63u64 <= 1,
        (w >> 63u64) == (w >> 63u64) & 1u64,
        (w >> b) & 1u64 <= 1,
{
    assert(w >> 63u64 <= 1 && (w >> 63u64) == (w >> 63u64) & 1u64) by (bit_vector);
    assert((w >> b) & 1u64 <= 1) by (bit_vector);
}

/// A zero word has no bit set.
proof fn lemma_zero_word(c: u64)
    ensures
        (0u64 >> c) & 1u64 == 0u64,
{
    assert((0u64 >> c) & 1u64 == 0u64) by (bit_vector);
}

/// Writes the B* positions of a text of `nblock` bytes, per the type bitset,
/// in increasing order to the front of `ptr`, and returns how many there
/// are.
pub fn collect_bstar(bitset: &[u64], nblock: usize, ptr: &mut [u32]) -> (num_bstar: usize)
    requires
        2 <= nblock <= u32::MAX,
        nblock <= old(ptr)@.len(),
        bitset@.len() == words_for(nblock as int),
        forall|i: int| nblock <= i < 64 * bitset@.len() ==> !bit(bitset@, i),
    ensures
        final(ptr)@.len() == old(ptr)@.len(),
        num_bstar == bstar_upto(bitset@, nblock as int, nblock as int).len(),
        final(ptr)@.subrange(0, num_bstar as int) == bstar_upto(
            bitset@,
            nblock as int,
            nblock as int,
        ),
        forall|k: int| num_bstar <= k < old(ptr)@.len() ==> final(ptr)@[k] == old(ptr)@[k],
{
    let ghost n = nblock as int;
    let ghost bits = bitset@;
    let words_needed = bitset.len();
    let mut num_bstar: usize = 0;
    let mut word_idx: usize = 0;
    proof {
        assert(n <= 64 * words_needed);
        lemma_bstar_upto(bits, n, 64 * words_needed);
        assert(ptr@.subrange(0, 0) =~= bstar_upto(bits, n, 0));
    }
    while word_idx < words_needed
        invariant
            2 <= n == nblock <= u32::MAX,
            n <= ptr@.len(),
            ptr@.len() == old(ptr)@.len(),
            bits == bitset@,
            words_needed == bits.len() == words_for(n),
            forall|i: int| n <= i < 64 * bits.len() ==> !bit(bits, i),
            word_idx <= words_needed,
            num_bstar == bstar_upto(bits, n, 64 * word_idx).len(),
            ptr@.subrange(0, num_bstar as int) == bstar_upto(bits, n, 64 * word_idx),
            forall|k: int| num_bstar <= k < ptr@.len() ==> ptr@[k] == old(ptr)@[k],
        decreases words_needed - word_idx,
    {
        let w = bitset[word_idx];
        proof {
            lemma_bstar_upto(bits, n, 64 * word_idx + 64);
        }
        if w == 0 {
            proof {
                assert forall|x: int| 64 * word_idx <= x < 64 * word_idx + 64 implies !is_bstar(
                    bits,
                    n,
                    x,
                ) by {
                    lemma_zero_word((x % 64) as u64);
                }
                lemma_bstar_gap(bits, n, 64 * word_idx, 64 * word_idx + 64);
            }
            word_idx += 1;
            continue;
        }
        let prev_w = if word_idx == 0 {
            let last_w = bitset[words_needed - 1];
            let last_bit = if nblock % 64 == 0 {
                last_w >> 63u64
            } else {
                (last_w >> ((nblock % 64) - 1) as u64) & 1
            };
            proof {
                lemma_one_bit(last_w, if nblock % 64 == 0 {
                    63u64
                } else {
                    ((nblock % 64) - 1) as u64
                });
                assert(last_bit == 1 <==> bit(bits, n - 1));
            }
            (w << 1u64) | last_bit
        } else {
            let before = bitset[word_idx - 1];
            proof {
                lemma_one_bit(before, 63);
                assert((before >> 63u64) == 1 <==> bit(bits, 64 * word_idx - 1));
            }
            (w << 1u64) | (before >> 63u64)
        };
        let mut bstar_mask = w & !prev_w;
        let ghost mut lowb: int = 0;
        proof {
            assert forall|c: int| 0 <= c < 64 implies word_bit(bstar_mask, c)
                == (c >= lowb && is_bstar(bits, n, 64 * word_idx + c)) by {
                let x = 64 * word_idx + c;
                if word_idx == 0 {
                    let last_w = bits[words_needed - 1];
                    let last_bit = if nblock % 64 == 0 {
                        last_w >> 63u64
                    } else {
                        (last_w >> ((nblock % 64) - 1) as u64) & 1
                    };
                    lemma_one_bit(last_w, 63);
                    lemma_mask_bits(w, prev_w, last_bit, c as u64);
                } else {
                    let before = bits[word_idx - 1];
                    lemma_one_bit(before, 63);
                    lemma_mask_bits(w, prev_w, before >> 63u64, c as u64);
                }
                assert(bit(bits, x) == ((w >> (c as u64)) & 1u64 == 1u64));
                if c > 0 {
                    assert(prev_pos(n, x) == x - 1);
                    assert(bit(bits, x - 1) == ((w >> ((c - 1) as u64)) & 1u64 == 1u64));
                }
            }
        }
        while bstar_mask != 0
            invariant
                2 <= n == nblock <= u32::MAX,
                n <= ptr@.len(),
                ptr@.len() == old(ptr)@.len(),
                bits == bitset@,
                words_needed == bits.len() == words_for(n),
                forall|i: int| n <= i < 64 * bits.len() ==> !bit(bits, i),
                word_idx < words_needed,
                0 <= lowb <= 64,
                forall|c: int|
                    0 <= c < 64 ==> word_bit(bstar_mask, c) == (c >= lowb
                        && is_bstar(bits, n, 64 * word_idx + c)),
                num_bstar == bstar_upto(bits, n, 64 * word_idx + lowb).len(),
                ptr@.subrange(0, num_bstar as int) == bstar_upto(bits, n, 64 * word_idx + lowb),
                forall|k: int| num_bstar <= k < ptr@.len() ==> ptr@[k] == old(ptr)@[k],
            decreases 64 - lowb,
        {
            let bit = bstar_mask.trailing_zeros() as usize;
            let ghost t = bit as int;
            proof {
                vstd::std_specs::bits::axiom_u64_trailing_zeros(bstar_mask);
                assert(word_bit(bstar_mask, t));
                assert(word_bit(bstar_mask, t) == (t >= lowb && is_bstar(bits, n, 64 * word_idx + t)));
                assert forall|x: int| 64 * word_idx + lowb <= x < 64 * word_idx + t implies !is_bstar(
                    bits,
                    n,
                    x,
                ) by {
                    let c = x - 64 * word_idx;
                    lemma_clear_lowest(bstar_mask, t as u64, c as u64);
                    assert(word_bit(bstar_mask, c) == (c >= lowb && is_bstar(bits, n, x)));
                }
                lemma_bstar_gap(bits, n, 64 * word_idx + lowb, 64 * word_idx + t);
                assert(is_bstar(bits, n, 64 * word_idx + t));
                lemma_bstar_upto(bits, n, 64 * word_idx + t);
            }
            let i = word_idx * 64 + bit;
            if i < nblock {
                ptr[num_bstar] = i as u32;
                num_bstar += 1;
            }
            let ghost old_mask = bstar_mask;
            bstar_mask &= bstar_mask - 1;
            proof {
                assert(ptr@.subrange(0, num_bstar as int) =~= bstar_upto(
                    bits,
                    n,
                    64 * word_idx + t + 1,
                ));
                assert forall|c: int| 0 <= c < 64 implies word_bit(bstar_mask, c)
                    == (c >= t + 1 && is_bstar(bits, n, 64 * word_idx + c)) by {
                    lemma_clear_lowest(old_mask, t as u64, c as u64);
                    assert(word_bit(old_mask, c) == (c >= lowb && is_bstar(bits, n, 64 * word_idx + c)));
                    assert(bstar_mask == old_mask & ((old_mask - 1) as u64));
                }
                lowb = t + 1;
            }
        }
        proof {
            assert forall|x: int| 64 * word_idx + lowb <= x < 64 * word_idx + 64 implies !is_bstar(
                bits,
                n,
                x,
            ) by {
                let c = x - 64 * word_idx;
                lemma_zero_word(c as u64);
                assert(word_bit(bstar_mask, c) == (c >= lowb && is_bstar(bits, n, 64 * word_idx + c)));
            }
            lemma_bstar_gap(bits, n, 64 * word_idx + lowb, 64 * word_idx + 64);
        }
        word_idx += 1;
    }
    proof {
        assert forall|x: int| n <= x < 64 * words_needed implies !is_bstar(bits, n, x) by {}
        lemma_bstar_gap(bits, n, n, 64 * words_needed);
    }
    num_bstar
}

/// No two B* positions are adjacent, so at most half the positions are B*.
pub proof fn lemma_bstar_half(bits: Seq<u64>, n: int)
    requires
        2 <= n <= u32::MAX,
    ensures
        2 * bstar_upto(bits, n, n).len() <= n,
{
    let l = bstar_upto(bits, n, n);
    lemma_bstar_upto(bits, n, n);
    let m = l.len() as int;
    let pv = Seq::new(m as nat, |i: int| prev_pos(n, l[i] as int) as u32);
    let g = l + pv;
    let xs = crate::counting::positions(n, |x: u32| true);
    crate::counting::lemma_positions_finite(n, |x: u32| true);
    assert forall|i: int| 0 <= i < g.len() implies xs.contains(#[trigger] g[i]) by {
        if i < m {
            assert(g[i] == l[i]);
        } else {
            assert(g[i] == pv[i - m]);
            assert(l[i - m] < n);
        }
    }
    assert forall|i: int, j: int| 0 <= i < j < g.len() implies #[trigger] g[i] != #[trigger] g[j] by {
        if j < m {
            assert(l[i] < l[j]);
        } else if i >= m {
            assert(l[i - m] < l[j - m]);
        } else {
            assert(g[i] == l[i]);
            assert(g[j] == pv[j - m]);
            assert(is_bstar(bits, n, l[i] as int));
            assert(is_bstar(bits, n, l[j - m] as int));
        }
    }
    crate::counting::lemma_distinct_in_set(g, 0, g.len() as int, xs);
}

} // verus!
