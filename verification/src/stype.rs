//! S-type and L-type cyclic suffixes, and the bitset that records them.
//!
//! Position `i` of a cyclic text is S-type when its rotation comes before
//! the rotation at `i + 1`: when the first byte from `i` on that differs
//! from its successor is smaller than that successor.  Otherwise it is
//! L-type.  In a text whose bytes are all equal, no position is S-type.

use vstd::prelude::*;

verus! {

/// The position after `i` in a cyclic text of length `n`.
pub open spec fn next_pos(n: int, i: int) -> int {
    if i + 1 == n {
        0
    } else {
        i + 1
    }
}

/// The position before `i` in a cyclic text of length `n`.
pub open spec fn prev_pos(n: int, i: int) -> int {
    if i == 0 {
        n - 1
    } else {
        i - 1
    }
}

/// The byte at `i` differs from the one after it.
pub open spec fn differs_at(text: Seq<u8>, n: int, i: int) -> bool {
    text[i] != text[next_pos(n, i)]
}

/// All bytes of `text[0..n]` are equal.
pub open spec fn all_same(text: Seq<u8>, n: int) -> bool {
    forall|i: int| 0 <= i < n ==> #[trigger] text[i] == text[0]
}

/// Looking at most `steps` positions from `i` on for a byte that differs
/// from its successor: whether it is the smaller.
pub open spec fn s_type_within(text: Seq<u8>, n: int, i: int, steps: nat) -> bool
    decreases steps,
{
    if steps == 0 {
        false
    } else {
        let j = next_pos(n, i);
        if text[i] < text[j] {
            true
        } else if text[i] > text[j] {
            false
        } else {
            s_type_within(text, n, j, (steps - 1) as nat)
        }
    }
}

/// Position `i` of the cyclic text `text[0..n]` is S-type.
pub open spec fn s_type(text: Seq<u8>, n: int, i: int) -> bool {
    s_type_within(text, n, i, n as nat)
}

/// The position `t` steps after `i`.
pub open spec fn advance(n: int, i: int, t: nat) -> int
    decreases t,
{
    if t == 0 {
        i
    } else {
        advance(n, next_pos(n, i), (t - 1) as nat)
    }
}

/// Advancing `t < n` steps from `i < n` wraps at most once.
pub proof fn lemma_advance(n: int, i: int, t: nat)
    requires
        0 <= i < n,
        t < n,
    ensures
        advance(n, i, t) == if i + t < n {
            i + t
        } else {
            i + t - n
        },
    decreases t,
{
    if t > 0 {
        lemma_advance(n, next_pos(n, i), (t - 1) as nat);
    }
}

/// Once a differing byte lies within reach, looking further changes
/// nothing.
pub proof fn lemma_s_type_stable(text: Seq<u8>, n: int, i: int, t: nat, m1: nat, m2: nat)
    requires
        0 <= i < n,
        t < m1 <= m2,
        differs_at(text, n, advance(n, i, t)),
    ensures
        s_type_within(text, n, i, m1) == s_type_within(text, n, i, m2),
    decreases t,
{
    if t > 0 && text[i] == text[next_pos(n, i)] {
        lemma_s_type_stable(
            text,
            n,
            next_pos(n, i),
            (t - 1) as nat,
            (m1 - 1) as nat,
            (m2 - 1) as nat,
        );
    }
}

/// Where some byte differs from its successor, a position is S-type when
/// its byte is below the next one, L-type when above, and of the next
/// position's type when equal.
pub proof fn lemma_s_type_step(text: Seq<u8>, n: int, i: int, d: int)
    requires
        0 <= i < n,
        0 <= d < n,
        differs_at(text, n, d),
    ensures
        s_type(text, n, i) == if text[i] < text[next_pos(n, i)] {
            true
        } else if text[i] > text[next_pos(n, i)] {
            false
        } else {
            s_type(text, n, next_pos(n, i))
        },
{
    let j = next_pos(n, i);
    if text[i] == text[j] {
        // The differing byte is `t` steps after `j`, with `t < n - 1`.
        let t: nat = if d >= j {
            (d - j) as nat
        } else {
            (d + n - j) as nat
        };
        lemma_advance(n, j, t);
        assert(i != d);
        lemma_s_type_stable(text, n, j, t, (n - 1) as nat, n as nat);
    }
}

/// Bit `i` of the bitset `bits`, 64 to a word, lowest bit first.
pub open spec fn bit(bits: Seq<u64>, i: int) -> bool {
    (bits[i / 64] >> ((i % 64) as u64)) & 1u64 == 1u64
}

/// The number of 64-bit words that hold `n` bits.
pub open spec fn words_for(n: int) -> int {
    (n + 63) / 64
}

/// Setting bit `b` of a word changes that bit only.
pub proof fn lemma_set_bit(w: u64, b: u64, c: u64)
    requires
        b < 64,
        c < 64,
    ensures
        ((w | (1u64 << b)) >> c) & 1u64 == if c == b {
            1u64
        } else {
            (w >> c) & 1u64
        },
{
    assert(((w | (1u64 << b)) >> c) & 1u64 == if c == b {
        1u64
    } else {
        (w >> c) & 1u64
    }) by (bit_vector)
        requires
            b < 64,
            c < 64,
    ;
}

/// A zero word has no bit set.
pub proof fn lemma_zero_bits(c: u64)
    ensures
        (0u64 >> c) & 1u64 == 0u64,
{
    assert((0u64 >> c) & 1u64 == 0u64) by (bit_vector);
}

/// The word and the bit that hold position `i`.
pub proof fn lemma_bit_index(i: usize)
    ensures
        i >> 6usize == i / 64,
        i & 63usize == i % 64,
{
    assert(i >> 6usize == i / 64) by (bit_vector);
    assert(i & 63usize == i % 64) by (bit_vector);
}

/// Whether bit `i` of the bitset is set.
pub fn is_s(bitset: &[u64], i: usize) -> (r: bool)
    requires
        i / 64 < bitset@.len(),
    ensures
        r == bit(bitset@, i as int),
{
    proof {
        lemma_bit_index(i);
    }
    let v = bitset[i >> 6] >> ((i & 63) as u64);
    proof {
        assert((v & 1u64 != 0u64) == (v & 1u64 == 1u64)) by (bit_vector);
    }
    (v & 1) != 0
}

/// Where the bytes of a cyclic text are equal to their successors, all are
/// equal.
pub proof fn lemma_chain_same(text: Seq<u8>, n: int)
    requires
        0 < n <= text.len(),
        forall|k: int| 0 <= k < n ==> !#[trigger] differs_at(text, n, k),
    ensures
        all_same(text, n),
{
    assert forall|i: int| 0 <= i < n implies #[trigger] text[i] == text[0] by {
        lemma_chain_prefix(text, n, i);
    }
}

/// Bytes equal to their successors up to `i` equal the first.
proof fn lemma_chain_prefix(text: Seq<u8>, n: int, i: int)
    requires
        0 <= i < n <= text.len(),
        forall|k: int| 0 <= k < n ==> !#[trigger] differs_at(text, n, k),
    ensures
        text[i] == text[0],
    decreases i,
{
    if i > 0 {
        lemma_chain_prefix(text, n, i - 1);
        assert(!differs_at(text, n, i - 1));
    }
}

/// Marks in `is_s_type` the S-type positions of the cyclic text
/// `block[0..n]`, after clearing its first `words_for(n)` words; returns
/// whether all bytes of the text are equal, in which case none is marked.
pub fn classify_cyclic_suffixes(block: &[u8], n: usize, is_s_type: &mut [u64]) -> (all_equal: bool)
    requires
        n <= block@.len(),
        words_for(n as int) <= old(is_s_type)@.len(),
    ensures
        final(is_s_type)@.len() == old(is_s_type)@.len(),
        all_equal == all_same(block@, n as int),
        forall|i: int|
            0 <= i < n ==> bit(final(is_s_type)@, i) == (!all_equal && s_type(
                block@,
                n as int,
                i,
            )),
        forall|i: int| n <= i < 64 * words_for(n as int) ==> !bit(final(is_s_type)@, i),
        forall|w: int|
            words_for(n as int) <= w < old(is_s_type)@.len() ==> final(is_s_type)@[w] == old(
                is_s_type,
            )@[w],
{
    let words = n / 64 + if n % 64 != 0 {
        1
    } else {
        0
    };
    assert(words == words_for(n as int));
    let mut w: usize = 0;
    while w < words
        invariant
            words == words_for(n as int),
            words <= is_s_type@.len(),
            is_s_type@.len() == old(is_s_type)@.len(),
            w <= words,
            forall|k: int| 0 <= k < w ==> is_s_type@[k] == 0,
            forall|k: int| words <= k < is_s_type@.len() ==> is_s_type@[k] == old(is_s_type)@[k],
        decreases words - w,
    {
        is_s_type[w] = 0;
        w += 1;
    }
    proof {
        assert forall|i: int| 0 <= i < 64 * words implies !bit(is_s_type@, i) by {
            lemma_zero_bits((i % 64) as u64);
        }
    }

    let mut p = usize::MAX;
    let mut i: usize = 0;
    while i < n
        invariant_except_break
            p == usize::MAX,
        invariant
            n <= block@.len(),
            i <= n,
            forall|k: int| 0 <= k < i ==> !#[trigger] differs_at(block@, n as int, k),
        ensures
            p == usize::MAX ==> forall|k: int| 0 <= k < n ==> !#[trigger] differs_at(block@, n as int, k),
            p != usize::MAX ==> p < n && differs_at(block@, n as int, p as int),
        decreases n - i,
    {
        let next_i = if i + 1 == n {
            0
        } else {
            i + 1
        };
        if block[i] != block[next_i] {
            p = i;
            break;
        }
        i += 1;
    }

    if p == usize::MAX {
        proof {
            if n > 0 {
                lemma_chain_same(block@, n as int);
            }
        }
        return true;
    }
    proof {
        let np = next_pos(n as int, p as int);
        if block@[p as int] != block@[0] {
            assert(!(block@[p as int] == block@[0]));
        } else {
            assert(block@[np] != block@[0]);
        }
        assert(!all_same(block@, n as int));
    }

    let next_p = if p + 1 == n {
        0
    } else {
        p + 1
    };
    let mut curr_is_s = block[p] < block[next_p];
    proof {
        lemma_s_type_step(block@, n as int, p as int, p as int);
    }
    if curr_is_s {
        set_bit(is_s_type, p);
    }
    let ghost pp = p as int;
    assert(n <= 64 * words);
    let mut i = if p == 0 {
        n - 1
    } else {
        p - 1
    };
    while i != p
        invariant
            n <= block@.len(),
            pp == p,
            p < n,
            i < n,
            differs_at(block@, n as int, pp),
            words == words_for(n as int),
            n <= 64 * words,
            words <= is_s_type@.len(),
            is_s_type@.len() == old(is_s_type)@.len(),
            forall|k: int| words <= k < is_s_type@.len() ==> is_s_type@[k] == old(is_s_type)@[k],
            curr_is_s == s_type(block@, n as int, next_pos(n as int, i as int)),
            forall|k: int|
                0 <= k < n ==> bit(is_s_type@, k) == (done_between(i as int, pp, k) && s_type(
                    block@,
                    n as int,
                    k,
                )),
            forall|k: int| n <= k < 64 * words ==> !bit(is_s_type@, k),
        decreases if i >= p {
            i - p
        } else {
            i + n - p
        },
    {
        let ghost i_old = i as int;
        let ghost bits_old = is_s_type@;
        let next_i = if i + 1 == n {
            0
        } else {
            i + 1
        };
        let c = block[i];
        let next_c = block[next_i];
        proof {
            lemma_s_type_step(block@, n as int, i as int, pp);
        }
        if c < next_c {
            curr_is_s = true;
        } else if c > next_c {
            curr_is_s = false;
        }
        if curr_is_s {
            set_bit(is_s_type, i);
        }
        i = if i == 0 {
            n - 1
        } else {
            i - 1
        };
        proof {
            assert(curr_is_s == s_type(block@, n as int, i_old));
            assert forall|k: int| 0 <= k < n implies bit(is_s_type@, k) == (done_between(
                i as int,
                pp,
                k,
            ) && s_type(block@, n as int, k)) by {
                if k != i_old {
                    assert(bit(is_s_type@, k) == bit(bits_old, k));
                    assert(done_between(i as int, pp, k) == done_between(i_old, pp, k));
                } else {
                    assert(done_between(i as int, pp, k));
                    assert(!done_between(i_old, pp, k));
                }
            }
        }
    }
    proof {
        assert forall|k: int| 0 <= k < n implies bit(is_s_type@, k) == s_type(block@, n as int, k) by {
            assert(done_between(i as int, pp, k));
        }
    }
    false
}

/// Position `k` lies after `i` and up to `p`, going round the cycle.
pub open spec fn done_between(i: int, p: int, k: int) -> bool {
    if i < p {
        i < k <= p
    } else {
        k > i || k <= p
    }
}

/// Sets bit `i` of the bitset.
fn set_bit(bits: &mut [u64], i: usize)
    requires
        i / 64 < old(bits)@.len(),
    ensures
        final(bits)@.len() == old(bits)@.len(),
        bit(final(bits)@, i as int),
        forall|k: int| 0 <= k < 64 * old(bits)@.len() && k != i ==> bit(final(bits)@, k) == bit(old(bits)@, k),
        forall|w: int| 0 <= w < old(bits)@.len() && w != i / 64 ==> final(bits)@[w] == old(bits)@[w],
{
    proof {
        lemma_bit_index(i);
    }
    let w = bits[i >> 6];
    bits[i >> 6] = w | (1u64 << ((i & 63) as u64));
    proof {
        assert forall|k: int| 0 <= k < 64 * old(bits)@.len() && k != i implies bit(bits@, k) == bit(
            old(bits)@,
            k,
        ) by {
            if k / 64 == i / 64 {
                lemma_set_bit(w, (i % 64) as u64, (k % 64) as u64);
            }
        }
        lemma_set_bit(w, (i % 64) as u64, (i % 64) as u64);
    }
}

} // verus!
