//! How the order of rotations relates to their first bytes and to the types
//! of their positions: the facts on which induced sorting rests.

use vstd::prelude::*;
use crate::lex::{
    lemma_lex_append, lemma_lex_asymmetric, lemma_lex_irreflexive, lemma_lex_single, lex_lt,
};
use crate::order::{elem_key, key_le, lemma_key_lt_le};
use crate::rotation::{rotation, wrap};
use crate::stype::{
    all_same, bit, differs_at, lemma_chain_same, lemma_s_type_step, next_pos, s_type, s_type_within,
};

verus! {

/// The bitset records the type of every position of the text `block[0..n]`.
pub open spec fn types_ok(block: Seq<u8>, bits: Seq<u64>, n: int) -> bool {
    forall|i: int| 0 <= i < n ==> #[trigger] bit(bits, i) == s_type(block, n, i)
}

/// A rotation is its first byte followed by the next rotation without its
/// last byte; that last byte is the first byte again.
proof fn lemma_rotation_shift(block: Seq<u8>, n: int, x: int)
    requires
        1 <= n,
        0 <= x < n,
    ensures
        rotation(block, n, x) == seq![block[x]] + rotation(block, n, next_pos(n, x)).subrange(0, n - 1),
        rotation(block, n, next_pos(n, x)) == rotation(block, n, next_pos(n, x)).subrange(0, n - 1)
            + seq![block[x]],
{
    let r = rotation(block, n, x);
    let x2 = next_pos(n, x);
    let r2 = rotation(block, n, x2);
    assert forall|k: int| 1 <= k < n implies #[trigger] r[k] == r2[k - 1] by {
        assert(wrap(n, x + k) == wrap(n, x2 + k - 1));
    }
    assert(r2[n - 1] == block[x]) by {
        assert(wrap(n, x2 + n - 1) == x);
    }
    assert(r =~= seq![block[x]] + r2.subrange(0, n - 1));
    assert(r2 =~= r2.subrange(0, n - 1) + seq![block[x]]);
}

/// The key of a position at depth 0 is its whole rotation.
proof fn lemma_key_is_rotation(block: Seq<u8>, n: usize, x: u32)
    requires
        x < n,
    ensures
        elem_key(block, n, x, 0) == rotation(block, n as int, x as int),
{
    assert(elem_key(block, n, x, 0) =~= rotation(block, n as int, x as int));
}

/// Two rotations that start with the same byte compare as the rotations
/// one position further on.
pub proof fn lemma_key_shift(block: Seq<u8>, n: usize, x: u32, y: u32)
    requires
        1 <= n <= u32::MAX,
        x < n,
        y < n,
        block[x as int] == block[y as int],
    ensures
        lex_lt(elem_key(block, n, x, 0), elem_key(block, n, y, 0)) == lex_lt(
            elem_key(block, n, next_pos(n as int, x as int) as u32, 0),
            elem_key(block, n, next_pos(n as int, y as int) as u32, 0),
        ),
        key_le(block, n, 0, x, y) == key_le(
            block,
            n,
            0,
            next_pos(n as int, x as int) as u32,
            next_pos(n as int, y as int) as u32,
        ),
{
    let ni = n as int;
    let x2 = next_pos(ni, x as int) as u32;
    let y2 = next_pos(ni, y as int) as u32;
    lemma_key_is_rotation(block, n, x);
    lemma_key_is_rotation(block, n, y);
    lemma_key_is_rotation(block, n, x2);
    lemma_key_is_rotation(block, n, y2);
    lemma_rotation_shift(block, ni, x as int);
    lemma_rotation_shift(block, ni, y as int);
    let c = seq![block[x as int]];
    let a = rotation(block, ni, x2 as int).subrange(0, ni - 1);
    let b = rotation(block, ni, y2 as int).subrange(0, ni - 1);
    assert(seq![block[y as int]] == c);
    lemma_lex_irreflexive(c);
    lemma_lex_append(c, c, a, b);
    lemma_lex_append(c, c, b, a);
    lemma_lex_append(a, b, c, c);
    lemma_lex_append(b, a, c, c);
}

/// A rotation with a smaller first byte comes strictly first.
pub proof fn lemma_key_first_byte(block: Seq<u8>, n: usize, x: u32, y: u32)
    requires
        1 <= n,
        x < n,
        y < n,
        block[x as int] < block[y as int],
    ensures
        lex_lt(elem_key(block, n, x, 0), elem_key(block, n, y, 0)),
        key_le(block, n, 0, x, y),
        !key_le(block, n, 0, y, x),
{
    let ni = n as int;
    lemma_key_is_rotation(block, n, x);
    lemma_key_is_rotation(block, n, y);
    lemma_rotation_shift(block, ni, x as int);
    lemma_rotation_shift(block, ni, y as int);
    let a = rotation(block, ni, next_pos(ni, x as int)).subrange(0, ni - 1);
    let b = rotation(block, ni, next_pos(ni, y as int)).subrange(0, ni - 1);
    lemma_lex_single(seq![block[x as int]], seq![block[y as int]]);
    lemma_lex_append(seq![block[x as int]], seq![block[y as int]], a, b);
    lemma_key_lt_le(block, n, 0, x, y);
    lemma_lex_asymmetric(elem_key(block, n, x, 0), elem_key(block, n, y, 0));
}

/// Of two rotations with the same first byte, the one at an L-type
/// position comes strictly before the one at an S-type position, looking
/// `m` positions ahead.
proof fn lemma_l_before_s_within(block: Seq<u8>, n: usize, x: u32, y: u32, m: nat)
    requires
        1 <= n <= u32::MAX,
        x < n,
        y < n,
        block[x as int] == block[y as int],
        !s_type_within(block, n as int, x as int, m),
        s_type_within(block, n as int, y as int, m),
    ensures
        lex_lt(elem_key(block, n, x, 0), elem_key(block, n, y, 0)),
    decreases m,
{
    let ni = n as int;
    let x2 = next_pos(ni, x as int);
    let y2 = next_pos(ni, y as int);
    lemma_key_shift(block, n, x, y);
    if block[y as int] < block[y2] {
        lemma_key_first_byte(block, n, x2 as u32, y2 as u32);
    } else if block[x as int] > block[x2] {
        lemma_key_first_byte(block, n, x2 as u32, y2 as u32);
    } else {
        lemma_l_before_s_within(block, n, x2 as u32, y2 as u32, (m - 1) as nat);
    }
}

/// Of two rotations with the same first byte, the one at an L-type
/// position may stand before the one at an S-type position.
pub proof fn lemma_l_before_s(block: Seq<u8>, bits: Seq<u64>, n: usize, x: u32, y: u32)
    requires
        types_ok(block, bits, n as int),
        1 <= n <= u32::MAX,
        x < n,
        y < n,
        block[x as int] == block[y as int],
        !bit(bits, x as int),
        bit(bits, y as int),
    ensures
        key_le(block, n, 0, x, y),
{
    lemma_l_before_s_within(block, n, x, y, n as nat);
    lemma_key_lt_le(block, n, 0, x, y);
}

/// A position is S-type exactly when its rotation comes strictly before
/// the rotation at the next position, and L-type exactly when it comes
/// strictly after it, in a text whose bytes are not all equal.
pub proof fn lemma_s_type_order(block: Seq<u8>, n: usize, i: u32)
    requires
        1 <= n <= u32::MAX,
        n <= block.len(),
        !all_same(block, n as int),
        i < n,
    ensures
        s_type(block, n as int, i as int) == lex_lt(
            elem_key(block, n, i, 0),
            elem_key(block, n, next_pos(n as int, i as int) as u32, 0),
        ),
        !s_type(block, n as int, i as int) == lex_lt(
            elem_key(block, n, next_pos(n as int, i as int) as u32, 0),
            elem_key(block, n, i, 0),
        ),
{
    let d = lemma_differs_somewhere(block, n as int);
    lemma_s_type_order_from(block, n, i, d);
}

proof fn lemma_s_type_order_from(block: Seq<u8>, n: usize, i: u32, d: int)
    requires
        1 <= n <= u32::MAX,
        n <= block.len(),
        0 <= d < n,
        differs_at(block, n as int, d),
        i < n,
    ensures
        s_type(block, n as int, i as int) == lex_lt(
            elem_key(block, n, i, 0),
            elem_key(block, n, next_pos(n as int, i as int) as u32, 0),
        ),
        !s_type(block, n as int, i as int) == lex_lt(
            elem_key(block, n, next_pos(n as int, i as int) as u32, 0),
            elem_key(block, n, i, 0),
        ),
    decreases if i <= d {
        d - i
    } else {
        d + n - i
    },
{
    let ni = n as int;
    let i2 = next_pos(ni, i as int) as u32;
    let i3 = next_pos(ni, i2 as int) as u32;
    lemma_s_type_step(block, ni, i as int, d);
    if block[i as int] < block[i2 as int] {
        lemma_key_first_byte(block, n, i, i2);
    } else if block[i as int] > block[i2 as int] {
        lemma_key_first_byte(block, n, i2, i);
    } else {
        assert(i as int != d);
        lemma_s_type_order_from(block, n, i2, d);
        lemma_key_shift(block, n, i, i2);
        lemma_key_shift(block, n, i2, i);
    }
}

/// Some byte of a text whose bytes are not all equal differs from its
/// successor.
pub proof fn lemma_differs_somewhere(block: Seq<u8>, n: int) -> (d: int)
    requires
        0 < n <= block.len(),
        !all_same(block, n),
    ensures
        0 <= d < n,
        differs_at(block, n, d),
{
    if forall|k: int| 0 <= k < n ==> !#[trigger] differs_at(block, n, k) {
        lemma_chain_same(block, n);
    }
    choose|d: int| 0 <= d < n && differs_at(block, n, d)
}

/// An S-type position holds a byte no larger than the next one, and where
/// they are equal the next position is S-type too; an L-type position
/// holds one no smaller, and where they are equal the next is L-type too.
pub proof fn lemma_type_rules(block: Seq<u8>, bits: Seq<u64>, n: int, i: int)
    requires
        types_ok(block, bits, n),
        0 < n <= block.len(),
        !all_same(block, n),
        0 <= i < n,
    ensures
        bit(bits, i) ==> block[i] <= block[next_pos(n, i)] && (block[i] == block[next_pos(n, i)]
            ==> bit(bits, next_pos(n, i))),
        !bit(bits, i) ==> block[i] >= block[next_pos(n, i)] && (block[i] == block[next_pos(n, i)]
            ==> !bit(bits, next_pos(n, i))),
{
    let d = lemma_differs_somewhere(block, n);
    lemma_s_type_step(block, n, i, d);
    assert(bit(bits, i) == s_type(block, n, i));
    assert(bit(bits, next_pos(n, i)) == s_type(block, n, next_pos(n, i)));
}

/// Where no byte is below its successor, the first byte is the largest
/// and the last the smallest.
proof fn lemma_descending(block: Seq<u8>, n: int, i: int)
    requires
        0 <= i < n,
        forall|k: int| 0 <= k < n ==> block[k] >= block[#[trigger] next_pos(n, k)],
    ensures
        block[0] >= block[i],
        block[i] >= block[n - 1],
{
    lemma_descending_head(block, n, i);
    lemma_descending_tail(block, n, i);
}

proof fn lemma_descending_head(block: Seq<u8>, n: int, i: int)
    requires
        0 <= i < n,
        forall|k: int| 0 <= k < n ==> block[k] >= block[#[trigger] next_pos(n, k)],
    ensures
        block[0] >= block[i],
    decreases i,
{
    if i > 0 {
        lemma_descending_head(block, n, i - 1);
        assert(block[i - 1] >= block[next_pos(n, i - 1)]);
    }
}

proof fn lemma_descending_tail(block: Seq<u8>, n: int, i: int)
    requires
        0 <= i < n,
        forall|k: int| 0 <= k < n ==> block[k] >= block[#[trigger] next_pos(n, k)],
    ensures
        block[i] >= block[n - 1],
    decreases n - i,
{
    if i < n - 1 {
        lemma_descending_tail(block, n, i + 1);
        assert(block[i] >= block[next_pos(n, i)]);
    }
}

/// Where no byte is above its successor, the first byte is the smallest
/// and the last the largest.
proof fn lemma_ascending(block: Seq<u8>, n: int, i: int)
    requires
        0 <= i < n,
        forall|k: int| 0 <= k < n ==> block[k] <= block[#[trigger] next_pos(n, k)],
    ensures
        block[0] <= block[i],
        block[i] <= block[n - 1],
{
    lemma_ascending_head(block, n, i);
    lemma_ascending_tail(block, n, i);
}

proof fn lemma_ascending_head(block: Seq<u8>, n: int, i: int)
    requires
        0 <= i < n,
        forall|k: int| 0 <= k < n ==> block[k] <= block[#[trigger] next_pos(n, k)],
    ensures
        block[0] <= block[i],
    decreases i,
{
    if i > 0 {
        lemma_ascending_head(block, n, i - 1);
        assert(block[i - 1] <= block[next_pos(n, i - 1)]);
    }
}

proof fn lemma_ascending_tail(block: Seq<u8>, n: int, i: int)
    requires
        0 <= i < n,
        forall|k: int| 0 <= k < n ==> block[k] <= block[#[trigger] next_pos(n, k)],
    ensures
        block[i] <= block[n - 1],
    decreases n - i,
{
    if i < n - 1 {
        lemma_ascending_tail(block, n, i + 1);
        assert(block[i] <= block[next_pos(n, i)]);
    }
}

/// A cyclic text in which no byte is below its successor has all bytes
/// equal.
proof fn lemma_descending_same(block: Seq<u8>, n: int)
    requires
        0 < n,
        forall|k: int| 0 <= k < n ==> block[k] >= block[#[trigger] next_pos(n, k)],
    ensures
        all_same(block, n),
{
    assert(block[n - 1] >= block[next_pos(n, n - 1)]);
    assert forall|i: int| 0 <= i < n implies #[trigger] block[i] == block[0] by {
        lemma_descending(block, n, i);
    }
}

/// A cyclic text in which no byte is above its successor has all bytes
/// equal.
proof fn lemma_ascending_same(block: Seq<u8>, n: int)
    requires
        0 < n,
        forall|k: int| 0 <= k < n ==> block[k] <= block[#[trigger] next_pos(n, k)],
    ensures
        all_same(block, n),
{
    assert(block[n - 1] <= block[next_pos(n, n - 1)]);
    assert forall|i: int| 0 <= i < n implies #[trigger] block[i] == block[0] by {
        lemma_ascending(block, n, i);
    }
}

/// A text whose bytes are not all equal has an S-type position.
proof fn lemma_some_s(block: Seq<u8>, bits: Seq<u64>, n: int) -> (s0: int)
    requires
        types_ok(block, bits, n),
        0 < n <= block.len(),
        !all_same(block, n),
    ensures
        0 <= s0 < n,
        bit(bits, s0),
{
    if forall|k: int| 0 <= k < n ==> !#[trigger] bit(bits, k) {
        assert forall|k: int| 0 <= k < n implies block[k] >= block[#[trigger] next_pos(n, k)] by {
            lemma_type_rules(block, bits, n, k);
        }
        lemma_descending_same(block, n);
    }
    choose|k: int| 0 <= k < n && bit(bits, k)
}

/// A text whose bytes are not all equal has an L-type position.
proof fn lemma_some_l(block: Seq<u8>, bits: Seq<u64>, n: int) -> (l0: int)
    requires
        types_ok(block, bits, n),
        0 < n <= block.len(),
        !all_same(block, n),
    ensures
        0 <= l0 < n,
        !bit(bits, l0),
{
    if forall|k: int| 0 <= k < n ==> #[trigger] bit(bits, k) {
        assert forall|k: int| 0 <= k < n implies block[k] <= block[#[trigger] next_pos(n, k)] by {
            lemma_type_rules(block, bits, n, k);
        }
        lemma_ascending_same(block, n);
    }
    choose|k: int| 0 <= k < n && !bit(bits, k)
}

/// A text whose bytes are not all equal has both an S-type and an L-type
/// position.
pub proof fn lemma_both_types(block: Seq<u8>, bits: Seq<u64>, n: int) -> (r: (int, int))
    requires
        types_ok(block, bits, n),
        0 < n <= block.len(),
        !all_same(block, n),
    ensures
        0 <= r.0 < n,
        bit(bits, r.0),
        0 <= r.1 < n,
        !bit(bits, r.1),
{
    (lemma_some_s(block, bits, n), lemma_some_l(block, bits, n))
}

/// Keys read only the text: two blocks with the same text give every
/// position the same key.
pub proof fn lemma_key_same_text(b1: Seq<u8>, b2: Seq<u8>, n: usize, x: u32, depth: usize)
    requires
        x < n,
        depth <= n,
        n <= b1.len(),
        n <= b2.len(),
        b1.subrange(0, n as int) == b2.subrange(0, n as int),
    ensures
        elem_key(b1, n, x, depth) == elem_key(b2, n, x, depth),
{
    let ni = n as int;
    assert forall|k: int| 0 <= k < ni implies #[trigger] rotation(b1, ni, x as int)[k] == rotation(
        b2,
        ni,
        x as int,
    )[k] by {
        let i = wrap(ni, x + k);
        assert(b1[i] == b1.subrange(0, ni)[i]);
        assert(b2[i] == b2.subrange(0, ni)[i]);
    }
    assert(rotation(b1, ni, x as int) =~= rotation(b2, ni, x as int));
}

/// Where all bytes are equal, all rotations are equal.
pub proof fn lemma_same_rotations(block: Seq<u8>, n: usize, x: u32, y: u32)
    requires
        all_same(block, n as int),
        x < n,
        y < n,
    ensures
        key_le(block, n, 0, x, y),
{
    lemma_key_is_rotation(block, n, x);
    lemma_key_is_rotation(block, n, y);
    let ni = n as int;
    assert forall|k: int| 0 <= k < ni implies #[trigger] rotation(block, ni, x as int)[k] == rotation(
        block,
        ni,
        y as int,
    )[k] by {
        assert(block[wrap(ni, x + k)] == block[0]);
        assert(block[wrap(ni, y + k)] == block[0]);
    }
    assert(rotation(block, ni, x as int) =~= rotation(block, ni, y as int));
    lemma_lex_irreflexive(rotation(block, ni, x as int));
}

} // verus!
