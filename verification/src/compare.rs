//! Three-way comparison of two rotations of the cyclic text.

use vstd::prelude::*;
use core::cmp::Ordering;
use crate::lex::{
    lex_lt, lemma_be_value_order, lemma_lex_asymmetric, lemma_lex_irreflexive, lemma_lex_single,
    lemma_lex_total,
};
use crate::rotation::{
    agree, comparable_text, cursor, readable_text, rotation_pos, lemma_agree_empty,
    lemma_compare_window, read_past, lemma_rotation_window, load_be_u64, lemma_key_skip_prefix,
    rotation_key, window,
};

verus! {

/// The three-way lexicographic comparison of two byte strings of equal
/// length.
pub open spec fn lex_order(s: Seq<u8>, t: Seq<u8>) -> Ordering {
    if lex_lt(s, t) {
        Ordering::Less
    } else if s == t {
        Ordering::Equal
    } else {
        Ordering::Greater
    }
}

/// Comparing two rotations the other way round gives the reverse answer:
/// `Less` becomes `Greater`, `Greater` becomes `Less`, `Equal` stays.
pub proof fn lemma_compare_reversed(block: Seq<u8>, n: usize, a: usize, b: usize, depth: usize)
    requires
        a < n,
        b < n,
        depth <= n,
    ensures
        (lex_order(rotation_key(block, n, a, depth), rotation_key(block, n, b, depth))
            == Ordering::Less) == (lex_order(rotation_key(block, n, b, depth), rotation_key(block, n, a, depth))
            == Ordering::Greater),
        (lex_order(rotation_key(block, n, a, depth), rotation_key(block, n, b, depth))
            == Ordering::Equal) == (lex_order(rotation_key(block, n, b, depth), rotation_key(block, n, a, depth))
            == Ordering::Equal),
{
    let ka = rotation_key(block, n, a, depth);
    let kb = rotation_key(block, n, b, depth);
    lemma_lex_total(ka, kb);
    if lex_lt(ka, kb) {
        lemma_lex_asymmetric(ka, kb);
    }
    if lex_lt(kb, ka) {
        lemma_lex_asymmetric(kb, ka);
    }
    if ka == kb {
        lemma_lex_irreflexive(ka);
    }
}

/// Comparing two rotations from byte `d` gives the same answer as from
/// byte `e` when their bytes `[d, e)` agree: a matched prefix can be
/// skipped.
pub proof fn lemma_compare_skip_prefix(block: Seq<u8>, n: usize, a: usize, b: usize, d: usize, e: usize)
    requires
        a < n,
        b < n,
        d <= e <= n,
        agree(block, n, a, b, d, e),
    ensures
        lex_order(rotation_key(block, n, a, d), rotation_key(block, n, b, d)) == lex_order(
            rotation_key(block, n, a, e),
            rotation_key(block, n, b, e),
        ),
{
    lemma_key_skip_prefix(block, n, a, b, d, e);
}

/// Compares rotations `a` and `b` of the text `block[0..n]` from their byte
/// `depth` on, eight bytes at a time while eight remain, then byte by byte.
///
/// The reads stay within the text and the seven bytes past it; where those
/// seven bytes continue the text, the answer is the order of the rotations.
pub fn compare_cyclic_suffixes(block: &[u8], n: usize, a: usize, b: usize, depth: usize) -> (res:
    Ordering)
    requires
        a == b || (readable_text(block@, n) && a < n && b < n && depth <= n),
    ensures
        a == b ==> res == Ordering::Equal,
        comparable_text(block@, n) && a < n && b < n && depth <= n ==> res == lex_order(
            rotation_key(block@, n, a, depth),
            rotation_key(block@, n, b, depth),
        ),
{
    if a == b {
        proof {
            lemma_lex_irreflexive(rotation_key(block@, n, a, depth));
        }
        return Ordering::Equal;
    }
    let ghost cyclic = comparable_text(block@, n);
    proof {
        assert(block@.len() == block.len());
    }
    let mut cur_a = rotation_pos(n, a, depth);
    let mut cur_b = rotation_pos(n, b, depth);
    let mut checked = depth;
    proof {
        lemma_agree_empty(block@, n, a, b, depth);
    }

    while n - checked >= 8
        invariant
            readable_text(block@, n),
            block@.len() <= usize::MAX,
            cyclic == comparable_text(block@, n),
            a < n,
            b < n,
            depth <= checked <= n,
            cur_a == cursor(n, a, checked),
            cur_b == cursor(n, b, checked),
            cyclic ==> agree(block@, n, a, b, depth, checked),
        decreases n - checked,
    {
        let wa = load_be_u64(block, cur_a);
        let wb = load_be_u64(block, cur_b);
        proof {
            if cyclic {
                lemma_rotation_window(block@, n, read_past(n), a, checked, 8);
                lemma_rotation_window(block@, n, read_past(n), b, checked, 8);
                lemma_compare_window(block@, n, a, b, depth, checked, 8);
                lemma_be_value_order(window(block@, cur_a, 8), window(block@, cur_b, 8));
                lemma_lex_total(rotation_key(block@, n, a, depth), rotation_key(block@, n, b, depth));
            }
        }
        if wa != wb {
            proof {
                if cyclic && wb < wa {
                    lemma_lex_asymmetric(
                        rotation_key(block@, n, b, depth),
                        rotation_key(block@, n, a, depth),
                    );
                }
            }
            if wa < wb {
                return Ordering::Less;
            } else {
                return Ordering::Greater;
            }
        }
        checked += 8;
        cur_a += 8;
        if cur_a >= n {
            cur_a -= n;
        }
        cur_b += 8;
        if cur_b >= n {
            cur_b -= n;
        }
    }

    while checked < n
        invariant
            readable_text(block@, n),
            block@.len() <= usize::MAX,
            cyclic == comparable_text(block@, n),
            a < n,
            b < n,
            depth <= checked <= n,
            cur_a == cursor(n, a, checked),
            cur_b == cursor(n, b, checked),
            cyclic ==> agree(block@, n, a, b, depth, checked),
        decreases n - checked,
    {
        let ca = block[cur_a];
        let cb = block[cur_b];
        proof {
            if cyclic {
                lemma_rotation_window(block@, n, 0, a, checked, 1);
                lemma_rotation_window(block@, n, 0, b, checked, 1);
                lemma_compare_window(block@, n, a, b, depth, checked, 1);
                lemma_lex_single(window(block@, cur_a, 1), window(block@, cur_b, 1));
                lemma_lex_total(rotation_key(block@, n, a, depth), rotation_key(block@, n, b, depth));
            }
        }
        if ca != cb {
            proof {
                if cyclic && cb < ca {
                    lemma_lex_asymmetric(
                        rotation_key(block@, n, b, depth),
                        rotation_key(block@, n, a, depth),
                    );
                }
            }
            if ca < cb {
                return Ordering::Less;
            } else {
                return Ordering::Greater;
            }
        }
        checked += 1;
        cur_a += 1;
        if cur_a == n {
            cur_a = 0;
        }
        cur_b += 1;
        if cur_b == n {
            cur_b = 0;
        }
    }
    proof {
        if cyclic {
            assert(rotation_key(block@, n, a, depth) =~= rotation_key(block@, n, b, depth));
        }
        lemma_lex_irreflexive(rotation_key(block@, n, a, depth));
    }
    Ordering::Equal
}

/// Whether rotation `a` comes strictly before rotation `b`, comparing from
/// their byte `depth` on.
pub fn rotation_less(block: &[u8], n: usize, a: usize, b: usize, depth: usize) -> (r: bool)
    requires
        readable_text(block@, n),
        a < n,
        b < n,
        depth <= n,
    ensures
        comparable_text(block@, n) ==> r == lex_lt(
            rotation_key(block@, n, a, depth),
            rotation_key(block@, n, b, depth),
        ),
{
    match compare_cyclic_suffixes(block, n, a, b, depth) {
        Ordering::Less => true,
        _ => false,
    }
}

} // verus!
