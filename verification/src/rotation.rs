//! The cyclic rotations of a block and the keys by which they are sorted.
//!
//! The text is `block[0..n]`; the block holds `BZ_N_OVERSHOOT` more bytes
//! that repeat the text from its start, so that a read a little past `n`
//! sees the text again.

use vstd::prelude::*;
use crate::lex::{be_value, lex_lt, lemma_lex_append, lemma_lex_irreflexive, pow256};

verus! {

/// How many bytes past the text the block repeats it.
pub const BZ_N_OVERSHOOT: usize = 34;

/// `x` reduced into `[0, n)` for `x < 2n`.
pub open spec fn wrap(n: int, x: int) -> int {
    if x < n {
        x
    } else {
        x - n
    }
}

/// The rotation of the text `block[0..n]` that starts at position `a`.
pub open spec fn rotation(block: Seq<u8>, n: int, a: int) -> Seq<u8> {
    Seq::new(n as nat, |k: int| block[wrap(n, a + k)])
}

/// The key by which a sort at `depth` orders position `a`: its rotation
/// without its first `depth` bytes.
pub open spec fn rotation_key(block: Seq<u8>, n: usize, a: usize, depth: usize) -> Seq<u8> {
    rotation(block, n as int, a as int).subrange(depth as int, n as int)
}

/// Where byte `c` of rotation `a` lies in the block.
pub open spec fn cursor(n: usize, a: usize, c: usize) -> int {
    wrap(n as int, a + c)
}

/// The `w` bytes of the block from `pos` on.
pub open spec fn window(block: Seq<u8>, pos: usize, w: usize) -> Seq<u8> {
    block.subrange(pos as int, pos + w)
}

/// The byte at `i` repeats the one `n` places before it.
pub open spec fn repeats_at(block: Seq<u8>, n: int, i: int) -> bool {
    block[i] == block[i - n]
}

/// The block holds a text of `n > 0` bytes followed by `w` bytes that
/// continue it cyclically.
pub open spec fn cyclic_upto(block: Seq<u8>, n: usize, w: int) -> bool {
    &&& 0 < n
    &&& n + w <= block.len()
    &&& forall|i: int| n <= i < n + w ==> #[trigger] repeats_at(block, n as int, i)
}

/// The block holds a text of `n > 0` bytes followed by `BZ_N_OVERSHOOT`
/// bytes that continue it cyclically, and `2n` fits in a `usize`.
pub open spec fn cyclic_block(block: Seq<u8>, n: usize) -> bool {
    &&& cyclic_upto(block, n, BZ_N_OVERSHOOT as int)
    &&& n + n <= usize::MAX
}

/// How many bytes past a text of `n` bytes a comparison of its rotations
/// reads: a word of eight bytes read at the text's last byte reaches seven
/// past it, and a text shorter than a word is compared byte by byte.
pub open spec fn read_past(n: usize) -> int {
    if n >= 8 {
        7
    } else {
        0
    }
}

/// The block holds what a comparison of the text's rotations reads: the
/// text, and the `read_past(n)` bytes that continue it cyclically.
pub open spec fn comparable_text(block: Seq<u8>, n: usize) -> bool {
    cyclic_upto(block, n, read_past(n))
}

/// The block is long enough for a comparison of the text's rotations: it
/// holds the text of `n > 0` bytes and the `read_past(n)` bytes after it.
pub open spec fn readable_text(block: Seq<u8>, n: usize) -> bool {
    0 < n && n + read_past(n) <= block.len()
}

/// Where byte `depth` of rotation `x` lies in the text.
pub fn rotation_pos(n: usize, x: usize, depth: usize) -> (p: usize)
    requires
        x < n,
        depth <= n,
    ensures
        p == wrap(n as int, x + depth),
{
    if depth >= n - x {
        depth - (n - x)
    } else {
        x + depth
    }
}

/// Rotations `a` and `b` agree on their bytes `[lo, hi)`.
pub open spec fn agree(block: Seq<u8>, n: usize, a: usize, b: usize, lo: usize, hi: usize) -> bool {
    rotation(block, n as int, a as int).subrange(lo as int, hi as int) == rotation(
        block,
        n as int,
        b as int,
    ).subrange(lo as int, hi as int)
}

/// Any two rotations agree on an empty range of bytes.
pub proof fn lemma_agree_empty(block: Seq<u8>, n: usize, a: usize, b: usize, c: usize)
    requires
        a < n,
        b < n,
        c <= n,
    ensures
        agree(block, n, a, b, c, c),
{
    assert(rotation(block, n as int, a as int).subrange(c as int, c as int) =~= rotation(
        block,
        n as int,
        b as int,
    ).subrange(c as int, c as int));
}

/// Within the overshoot, a byte of the block is the text byte it repeats.
pub proof fn lemma_cyclic_char(block: Seq<u8>, n: usize, k: int, i: int)
    requires
        cyclic_upto(block, n, k),
        0 <= i < n + k,
        i < n + n,
    ensures
        block[i] == block[wrap(n as int, i)],
{
    if i >= n {
        assert(repeats_at(block, n as int, i));
    }
}

/// `w` bytes of rotation `a` from its byte `c` on lie at `wrap(n, a + c)` in
/// the block.
pub proof fn lemma_rotation_window(block: Seq<u8>, n: usize, k: int, a: usize, c: usize, w: usize)
    requires
        cyclic_upto(block, n, k),
        a < n,
        c + w <= n,
        w <= k + 1,
    ensures
        ({
            let cur = wrap(n as int, a + c);
            block.subrange(cur, cur + w) == rotation(block, n as int, a as int).subrange(
                c as int,
                c + w,
            )
        }),
{
    let cur = wrap(n as int, a + c);
    let r = rotation(block, n as int, a as int);
    assert forall|t: int| 0 <= t < w implies #[trigger] block.subrange(cur, cur + w)[t] == r.subrange(
        c as int,
        c + w,
    )[t] by {
        if a + c < n {
            lemma_cyclic_char(block, n, k, cur + t);
        }
    }
    assert(block.subrange(cur, cur + w) =~= r.subrange(c as int, c + w));
}

/// One step of a comparison from byte `c` on: where the next `w` bytes of
/// the two rotations are equal, agreement extends over them; where they
/// differ, they decide the order of the keys at `depth`.
pub proof fn lemma_compare_window(
    block: Seq<u8>,
    n: usize,
    a: usize,
    b: usize,
    depth: usize,
    c: usize,
    w: usize,
)
    requires
        a < n,
        b < n,
        depth <= c,
        c + w <= n,
        agree(block, n, a, b, depth, c),
    ensures
        ({
            let sa = rotation(block, n as int, a as int).subrange(c as int, c + w);
            let sb = rotation(block, n as int, b as int).subrange(c as int, c + w);
            let ka = rotation_key(block, n, a, depth);
            let kb = rotation_key(block, n, b, depth);
            &&& sa == sb ==> agree(block, n, a, b, depth, (c + w) as usize)
            &&& sa != sb ==> ka != kb && lex_lt(ka, kb) == lex_lt(sa, sb) && lex_lt(kb, ka)
                == lex_lt(sb, sa)
        }),
{
    let ra = rotation(block, n as int, a as int);
    let rb = rotation(block, n as int, b as int);
    let sa = ra.subrange(c as int, c + w);
    let sb = rb.subrange(c as int, c + w);
    let pa = ra.subrange(depth as int, c as int);
    let pb = rb.subrange(depth as int, c as int);
    let ta = ra.subrange(c + w, n as int);
    let tb = rb.subrange(c + w, n as int);
    let ka = rotation_key(block, n, a, depth);
    let kb = rotation_key(block, n, b, depth);
    assert(ka =~= pa + sa + ta);
    assert(kb =~= pb + sb + tb);
    if sa == sb {
        assert(ra.subrange(depth as int, c + w) =~= pa + sa);
        assert(rb.subrange(depth as int, c + w) =~= pb + sb);
    } else {
        lemma_lex_append(pa + sa, pb + sb, ta, tb);
        lemma_lex_append(pb + sb, pa + sa, tb, ta);
        lemma_lex_append(pa, pb, sa, sb);
        lemma_lex_append(pb, pa, sb, sa);
        lemma_lex_irreflexive(pa);
        assert((pa + sa).subrange(pa.len() as int, (pa + sa).len() as int) =~= sa);
        assert((pb + sb).subrange(pb.len() as int, (pb + sb).len() as int) =~= sb);
        assert(ka.subrange(c - depth, c + w - depth) =~= sa);
        assert(kb.subrange(c - depth, c + w - depth) =~= sb);
    }
}

/// Where rotations `a` and `b` agree on their bytes `[d, e)`, their keys
/// from byte `d` compare as their keys from byte `e`.
pub proof fn lemma_key_skip_prefix(block: Seq<u8>, n: usize, a: usize, b: usize, d: usize, e: usize)
    requires
        a < n,
        b < n,
        d <= e <= n,
        agree(block, n, a, b, d, e),
    ensures
        lex_lt(rotation_key(block, n, a, d), rotation_key(block, n, b, d)) == lex_lt(
            rotation_key(block, n, a, e),
            rotation_key(block, n, b, e),
        ),
        (rotation_key(block, n, a, d) == rotation_key(block, n, b, d)) == (rotation_key(block, n, a, e)
            == rotation_key(block, n, b, e)),
{
    let ra = rotation(block, n as int, a as int);
    let rb = rotation(block, n as int, b as int);
    let pa = ra.subrange(d as int, e as int);
    let pb = rb.subrange(d as int, e as int);
    let ka = rotation_key(block, n, a, e);
    let kb = rotation_key(block, n, b, e);
    assert(rotation_key(block, n, a, d) =~= pa + ka);
    assert(rotation_key(block, n, b, d) =~= pb + kb);
    lemma_lex_irreflexive(pa);
    lemma_lex_append(pa, pb, ka, kb);
    if pa + ka == pb + kb {
        assert(ka =~= (pa + ka).subrange(pa.len() as int, (pa + ka).len() as int));
        assert(kb =~= (pb + kb).subrange(pb.len() as int, (pb + kb).len() as int));
    }
}

/// Reads `block[pos..pos + 8]` as a big-endian number.
pub fn load_be_u64(block: &[u8], pos: usize) -> (w: u64)
    requires
        pos + 8 <= block.len(),
    ensures
        w as nat == be_value(block@.subrange(pos as int, pos + 8)),
{
    let mut w: u64 = 0;
    let mut i: usize = 0;
    proof {
        assert(block@.subrange(pos as int, pos as int) =~= Seq::<u8>::empty());
        reveal_with_fuel(pow256, 9);
        assert(pow256(8) == 0x1_0000_0000_0000_0000);
    }
    while i < 8
        invariant
            i <= 8,
            pos + 8 <= block.len(),
            w as nat == be_value(block@.subrange(pos as int, pos + i)),
            w < pow256(i as nat),
            pow256(8) == 0x1_0000_0000_0000_0000,
        decreases 8 - i,
    {
        proof {
            lemma_pow256_monotone((i + 1) as nat, 8);
            assert(block@.subrange(pos as int, pos + i + 1).drop_last() =~= block@.subrange(
                pos as int,
                pos + i,
            ));
        }
        w = w * 256 + block[pos + i] as u64;
        i = i + 1;
    }
    w
}

/// Powers of `256` grow with the exponent.
pub proof fn lemma_pow256_monotone(i: nat, j: nat)
    requires
        i <= j,
    ensures
        pow256(i) <= pow256(j),
    decreases j,
{
    if i < j {
        lemma_pow256_monotone(i, (j - 1) as nat);
    }
}

/// The big-endian 16-bit word of the two bytes at position `pos` (taken
/// modulo `n`) of the cyclic text.
pub fn u16_at(block: &[u8], n: usize, pos: usize) -> (w: u16)
    requires
        wrap(n as int, pos as int) + 1 < block@.len(),
    ensures
        w as int == block@[wrap(n as int, pos as int)] * 256 + block@[wrap(n as int, pos as int) + 1],
{
    let mut p = pos;
    if p >= n {
        p -= n;
    }
    (block[p] as u16) * 256 + (block[p + 1] as u16)
}

/// The word that `u16_at` reads at `x + depth` is the value of bytes
/// `depth` and `depth + 1` of rotation `x`.
pub proof fn lemma_u16_at_rotation(block: Seq<u8>, n: usize, x: usize, depth: usize)
    requires
        cyclic_upto(block, n, 1),
        x < n,
        depth + 2 <= n,
    ensures
        block[wrap(n as int, x + depth)] * 256 + block[wrap(n as int, x + depth) + 1] == be_value(
            rotation(block, n as int, x as int).subrange(depth as int, depth + 2),
        ),
{
    lemma_rotation_window(block, n, 1, x, depth, 2);
    let cur = wrap(n as int, x + depth);
    let s = block.subrange(cur, cur + 2);
    assert(s.drop_last().drop_last() =~= Seq::<u8>::empty());
    assert(s.drop_last().last() == block[cur]);
    reveal_with_fuel(be_value, 3);
    assert(be_value(s) == block[cur] * 256 + block[cur + 1]);
}

} // verus!
