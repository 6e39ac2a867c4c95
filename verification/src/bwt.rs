//! The Burrows-Wheeler transform of a block: two-stage induced sorting of
//! its cyclic rotations, and the block-sorting entry point of the
//! compressor.

use vstd::prelude::*;
use crate::bstar::{
    bstar_count, bstar_upto, collect_bstar, is_bstar, lemma_bstar_count,
    lemma_bstar_count_same_text, lemma_bstar_half, lemma_bstar_upto,
};
use crate::bucket::{decoded, lemma_split_join, sort_bstar_buckets};
use crate::counting::{count_byte, lemma_count_byte_bound};
use crate::induce::{
    buckets_ok, induce_l, induce_s, l_filled, no_l_slots, phase1_bucket, place_bstar,
};
use crate::fill::present;
use crate::inverse::{bwt_last, inverse_bwt, lemma_inverse_bwt};
use crate::order::{distinct_range, key_le, occurs_in, sorted_range};
use crate::rotorder::{lemma_key_same_text, lemma_same_rotations, types_ok};
use crate::rotation::{cyclic_block, repeats_at, BZ_N_OVERSHOOT};
use crate::stype::{all_same, bit, classify_cyclic_suffixes};

verus! {

/// The number of 64-bit words of the type bitset: enough for the largest
/// block, 900 000 bytes.
pub const BITSET_WORDS: usize = 14063;

/// How many bytes below `c` the text `block[0..n]` holds.
pub open spec fn bytes_below(block: Seq<u8>, n: int, c: int) -> nat
    decreases c,
{
    if c <= 0 {
        0
    } else {
        bytes_below(block, n, c - 1) + count_byte(block, (c - 1) as u8, n)
    }
}

/// One more byte of text adds one to the count below every larger byte.
proof fn lemma_bytes_below_step(block: Seq<u8>, k: int, c: int)
    requires
        0 <= k,
        0 <= c <= 256,
    ensures
        bytes_below(block, k + 1, c) == bytes_below(block, k, c) + if block[k] < c {
            1nat
        } else {
            0nat
        },
    decreases c,
{
    if c > 0 {
        lemma_bytes_below_step(block, k, c - 1);
    }
}

/// Every byte of the text is below 256.
proof fn lemma_bytes_below_all(block: Seq<u8>, k: int)
    requires
        0 <= k,
    ensures
        bytes_below(block, k, 256) == k,
    decreases k,
{
    if k > 0 {
        lemma_bytes_below_all(block, k - 1);
        lemma_bytes_below_step(block, k - 1, 256);
    } else {
        lemma_bytes_below_zero(block, 256);
    }
}

/// An empty text has no bytes.
proof fn lemma_bytes_below_zero(block: Seq<u8>, c: int)
    ensures
        bytes_below(block, 0, c) == 0,
    decreases c,
{
    if c > 0 {
        lemma_bytes_below_zero(block, c - 1);
    }
}

/// Counts below grow with the byte.
proof fn lemma_bytes_below_mono(block: Seq<u8>, n: int, a: int, b: int)
    requires
        0 <= a <= b,
    ensures
        bytes_below(block, n, a) <= bytes_below(block, n, b),
    decreases b - a,
{
    if a < b {
        lemma_bytes_below_mono(block, n, a, b - 1);
    }
}

/// Sorts the cyclic rotations of the text `block[0..nblock]` by two-stage
/// induced sorting: `ptr[0..nblock]` receives every position of the text
/// once, in the order of the rotations that start there.  Returns the index
/// in `ptr` of position `0`.
///
/// The block must hold `BZ_N_OVERSHOOT` bytes past the text, which this
/// fills with the text's start; `quadrant` serves as scratch space.
pub fn divsufsort_bwt(ptr: &mut [u32], block: &mut [u8], quadrant: &mut [u16], nblock: usize) -> (orig_ptr:
    i32)
    requires
        nblock <= 64 * BITSET_WORDS,
        nblock <= old(ptr)@.len(),
        nblock >= 2 ==> nblock + BZ_N_OVERSHOOT <= old(block)@.len(),
        nblock >= 2 ==> 2 * bstar_count(old(block)@, nblock as int, nblock as int) <= old(
            quadrant,
        )@.len(),
    ensures
        final(ptr)@.len() == old(ptr)@.len(),
        final(block)@.len() == old(block)@.len(),
        final(quadrant)@.len() == old(quadrant)@.len(),
        final(block)@.subrange(0, nblock as int) == old(block)@.subrange(0, nblock as int),
        nblock >= 2 ==> cyclic_block(final(block)@, nblock),
        nblock >= 2 ==> forall|i: int|
            nblock + BZ_N_OVERSHOOT <= i < old(block)@.len() ==> #[trigger] final(block)@[i] == old(
                block,
            )@[i],
        nblock < 2 ==> final(block)@ == old(block)@,
        nblock < 2 || all_same(old(block)@, nblock as int) ==> final(quadrant)@ == old(quadrant)@,
        nblock == 0 ==> orig_ptr == 0,
        nblock >= 1 ==> 0 <= orig_ptr < nblock && final(ptr)@[orig_ptr as int] == 0,
        forall|x: int| 0 <= x < nblock ==> #[trigger] final(ptr)@[x] < nblock,
        distinct_range(final(ptr)@, 0, nblock as int),
        forall|p: int| 0 <= p < nblock ==> #[trigger] present(p, final(ptr)@, nblock as int),
        sorted_range(old(block)@, nblock, 0, final(ptr)@, 0, nblock as int),
        nblock >= 2 && all_same(old(block)@, nblock as int) ==> forall|i: int|
            0 <= i < nblock ==> #[trigger] final(ptr)@[i] == i,
        nblock >= 2 && !all_same(old(block)@, nblock as int) ==> forall|x: int|
            nblock <= x < old(ptr)@.len() ==> #[trigger] final(ptr)@[x] == u32::MAX,
        nblock < 2 || all_same(old(block)@, nblock as int) ==> forall|x: int|
            nblock <= x < old(ptr)@.len() ==> #[trigger] final(ptr)@[x] == old(ptr)@[x],
        1 <= nblock <= old(block)@.len() ==> inverse_bwt(
            bwt_last(old(block)@, nblock, final(ptr)@),
            orig_ptr as int,
        ) == old(block)@.subrange(0, nblock as int),
{
    if nblock == 0 {
        return 0;
    }
    if nblock == 1 {
        ptr[0] = 0;
        proof {
            assert(ptr@[0] as int == 0);
            assert(present(0, ptr@, 1));
            if 1 <= old(block)@.len() {
                lemma_inverse_bwt(old(block)@, nblock, ptr@, 0);
            }
        }
        return 0;
    }

    // Overshoot padding copy.
    let ghost text = block@.subrange(0, nblock as int);
    let mut i: usize = 0;
    while i < BZ_N_OVERSHOOT
        invariant
            2 <= nblock <= 64 * BITSET_WORDS,
            nblock + BZ_N_OVERSHOOT <= block@.len(),
            block@.len() == old(block)@.len(),
            i <= BZ_N_OVERSHOOT,
            block@.subrange(0, nblock as int) == text,
            forall|j: int| nblock <= j < nblock + i ==> #[trigger] repeats_at(block@, nblock as int, j),
            forall|j: int|
                nblock + BZ_N_OVERSHOOT <= j < block@.len() ==> #[trigger] block@[j] == old(block)@[j],
        decreases BZ_N_OVERSHOOT - i,
    {
        let ghost before = block@;
        block[nblock + i] = block[i];
        proof {
            assert(block@.subrange(0, nblock as int) =~= before.subrange(0, nblock as int));
            assert forall|j: int| nblock <= j < nblock + i + 1 implies #[trigger] repeats_at(
                block@,
                nblock as int,
                j,
            ) by {
                if j < nblock + i {
                    assert(repeats_at(before, nblock as int, j));
                }
            }
        }
        i += 1;
    }
    let ghost bk = block@;
    proof {
        assert(cyclic_block(bk, nblock));
        assert forall|j: int| 0 <= j < nblock implies #[trigger] bk[j] == old(block)@[j] by {
            assert(bk[j] == text[j]);
        }
    }

    // The type bitset.
    let words_needed = nblock / 64 + if nblock % 64 != 0 {
        1
    } else {
        0
    };
    let mut bitset: Vec<u64> = vec![0u64; words_needed];
    let is_all_equal = classify_cyclic_suffixes(block, nblock, bitset.as_mut_slice());
    let ghost bits = bitset@;

    if is_all_equal {
        let mut i: usize = 0;
        while i < nblock
            invariant
                2 <= nblock <= 64 * BITSET_WORDS,
                nblock <= ptr@.len(),
                ptr@.len() == old(ptr)@.len(),
                i <= nblock,
                forall|k: int| 0 <= k < i ==> #[trigger] ptr@[k] == k,
                forall|k: int| nblock <= k < ptr@.len() ==> #[trigger] ptr@[k] == old(ptr)@[k],
            decreases nblock - i,
        {
            ptr[i] = i as u32;
            i += 1;
        }
        proof {
            assert(all_same(old(block)@, nblock as int)) by {
                assert forall|j: int| 0 <= j < nblock implies #[trigger] old(block)@[j] == old(
                    block,
                )@[0] by {
                    assert(bk[j] == bk[0]);
                }
            }
            assert(ptr@[0] == 0);
            assert forall|q: int| 0 <= q < nblock implies #[trigger] present(q, ptr@, nblock as int) by {
                assert(ptr@[q] == q);
            }
            assert forall|x: int, y: int| 0 <= x < y < nblock implies key_le(
                old(block)@,
                nblock,
                0,
                #[trigger] ptr@[x],
                #[trigger] ptr@[y],
            ) by {
                lemma_same_rotations(old(block)@, nblock, ptr@[x], ptr@[y]);
            }
            lemma_inverse_bwt(old(block)@, nblock, ptr@, 0);
        }
        return 0;
    }
    proof {
        assert(!all_same(old(block)@, nblock as int)) by {
            if all_same(old(block)@, nblock as int) {
                assert forall|j: int| 0 <= j < nblock implies #[trigger] bk[j] == bk[0] by {
                    assert(old(block)@[j] == old(block)@[0]);
                }
            }
        }
    }

    // The B* positions, in increasing order, then sorted by their rotations.
    let num_bstar = collect_bstar(bitset.as_slice(), nblock, ptr);
    let ghost bl = bstar_upto(bits, nblock as int, nblock as int);
    proof {
        lemma_bstar_upto(bits, nblock as int, nblock as int);
        lemma_bstar_half(bits, nblock as int);
        assert(types_ok(bk, bits, nblock as int));
        lemma_bstar_count(bk, bits, nblock as int, nblock as int);
        lemma_bstar_count_same_text(bk, old(block)@, nblock as int, nblock as int);
        assert(2 * num_bstar <= quadrant@.len());
        assert forall|j: int| 0 <= j < num_bstar implies #[trigger] ptr@[j] == bl[j] by {
            assert(ptr@.subrange(0, num_bstar as int)[j] == ptr@[j]);
        }
    }
    let ghost before_sort = ptr@;
    if num_bstar > 0 {
        sort_bstar_buckets(ptr, block, quadrant, nblock, num_bstar);
    }
    let ghost sorted = ptr@;
    proof {
        assert forall|j: int| 0 <= j < num_bstar implies #[trigger] sorted[j] < nblock && is_bstar(
            bits,
            nblock as int,
            sorted[j] as int,
        ) by {
            if num_bstar > 0 {
                assert(occurs_in(sorted[j], before_sort, 0, num_bstar as int));
                let r = choose|r: int| 0 <= r < num_bstar && #[trigger] before_sort[r] == sorted[j];
                assert(before_sort[r] == bl[r]);
            }
        }
        assert(distinct_range(sorted, 0, num_bstar as int)) by {
            assert forall|a: int, b: int| 0 <= a < b < num_bstar implies #[trigger] sorted[a]
                != #[trigger] sorted[b] by {
                assert(before_sort[a] == bl[a] && before_sort[b] == bl[b]);
            }
        }
        assert(sorted_range(bk, nblock, 0, sorted, 0, num_bstar as int)) by {
        }
        assert forall|q: int| 0 <= q < nblock && is_bstar(bits, nblock as int, q) implies exists|r: int|
            0 <= r < num_bstar && #[trigger] sorted[r] as int == q by {
            assert(bl.contains(q as u32));
            let r0 = choose|r0: int| 0 <= r0 < bl.len() && bl[r0] == q as u32;
            assert(before_sort[r0] == bl[r0]);
            assert(occurs_in(before_sort[r0], sorted, 0, num_bstar as int));
            let r = choose|r: int| 0 <= r < num_bstar && #[trigger] sorted[r] == before_sort[r0];
            assert(sorted[r] as int == q);
        }
    }

    // Count the bytes, for the buckets of the first byte.
    let mut count: Vec<usize> = vec![0usize; 256];
    let mut i: usize = 0;
    while i < nblock
        invariant
            2 <= nblock <= 64 * BITSET_WORDS,
            bk == block@,
            nblock + BZ_N_OVERSHOOT <= bk.len(),
            count@.len() == 256,
            i <= nblock,
            forall|c: int| 0 <= c < 256 ==> #[trigger] count@[c] == count_byte(bk, c as u8, i as int),
        decreases nblock - i,
    {
        let b = block[i] as usize;
        proof {
            lemma_count_byte_bound(bk, b as u8, i as int);
        }
        count[b] = count[b] + 1;
        i += 1;
        proof {
            assert forall|c: int| 0 <= c < 256 implies #[trigger] count@[c] == count_byte(
                bk,
                c as u8,
                i as int,
            ) by {
                assert(count_byte(bk, c as u8, i as int) == count_byte(bk, c as u8, i - 1) + if bk[i
                    - 1] == c as u8 {
                    1nat
                } else {
                    0nat
                });
            }
        }
    }

    let mut bucket_start: Vec<usize> = vec![0usize; 256];
    let mut bucket_end: Vec<usize> = vec![0usize; 256];
    let mut total: usize = 0;
    let mut c: usize = 0;
    proof {
        lemma_bytes_below_all(bk, nblock as int);
    }
    while c < 256
        invariant
            2 <= nblock <= 64 * BITSET_WORDS,
            bk == block@,
            count@.len() == 256,
            bucket_start@.len() == 256,
            bucket_end@.len() == 256,
            forall|c2: int| 0 <= c2 < 256 ==> #[trigger] count@[c2] == count_byte(bk, c2 as u8, nblock as int),
            bytes_below(bk, nblock as int, 256) == nblock,
            c <= 256,
            total == bytes_below(bk, nblock as int, c as int),
            forall|c2: int|
                0 <= c2 < c ==> #[trigger] bucket_start@[c2] == bytes_below(bk, nblock as int, c2),
            forall|c2: int|
                0 <= c2 < c ==> #[trigger] bucket_end@[c2] == bytes_below(bk, nblock as int, c2 + 1),
        decreases 256 - c,
    {
        proof {
            lemma_bytes_below_mono(bk, nblock as int, c + 1, 256);
            assert(bytes_below(bk, nblock as int, c + 1) == bytes_below(bk, nblock as int, c as int)
                + count_byte(bk, c as u8, nblock as int));
        }
        bucket_start[c] = total;
        total = total + count[c];
        bucket_end[c] = total;
        c += 1;
    }
    proof {
        assert(buckets_ok(bk, nblock as int, bucket_start@, bucket_end@)) by {
            assert(bucket_start@[0] == 0);
            assert(bucket_end@[255] == bytes_below(bk, nblock as int, 256));
            assert forall|c2: int| 0 <= c2 < 256 implies #[trigger] bucket_end@[c2] == bucket_start@[c2]
                + count_byte(bk, c2 as u8, nblock as int) by {
                assert(bytes_below(bk, nblock as int, c2 + 1) == bytes_below(bk, nblock as int, c2)
                    + count_byte(bk, c2 as u8, nblock as int));
            }
            assert forall|c2: int| 0 <= c2 < 255 implies #[trigger] bucket_start@[c2 + 1]
                == bucket_end@[c2] by {}
        }
    }

    // Keep the sorted B* positions in `quadrant` while `ptr` is cleared.
    let mut i: usize = 0;
    while i < num_bstar
        invariant
            2 * num_bstar <= nblock,
            2 * num_bstar <= quadrant@.len(),
            quadrant@.len() == old(quadrant)@.len(),
            num_bstar <= ptr@.len(),
            ptr@ == sorted,
            i <= num_bstar,
            forall|j: int| 0 <= j < i ==> #[trigger] decoded(quadrant@, j) == sorted[j],
        decreases num_bstar - i,
    {
        let val = ptr[i];
        let ghost before = quadrant@;
        quadrant[i * 2] = (val & 0xFFFF) as u16;
        quadrant[i * 2 + 1] = (val >> 16) as u16;
        proof {
            lemma_split_join(val);
            assert forall|j: int| 0 <= j < i + 1 implies #[trigger] decoded(quadrant@, j) == sorted[j] by {
                if j < i {
                    assert(decoded(before, j) == sorted[j]);
                    assert(quadrant@[2 * j] == before[2 * j]);
                    assert(quadrant@[2 * j + 1] == before[2 * j + 1]);
                } else {
                    assert(quadrant@[2 * j] == (val & 0xFFFF) as u16);
                    assert(quadrant@[2 * j + 1] == (val >> 16) as u16);
                    assert(decoded(quadrant@, j) == (((val & 0xFFFFu32) as u16) as u32) | ((((val
                        >> 16u32) as u16) as u32) << 16u32));
                    assert(sorted[j] == val);
                }
            }
        }
        i += 1;
    }

    // Clear `ptr`.
    let mut x: usize = 0;
    let len = ptr.len();
    while x < len
        invariant
            len == ptr@.len(),
            ptr@.len() == old(ptr)@.len(),
            x <= len,
            forall|k: int| 0 <= k < x ==> #[trigger] ptr@[k] == u32::MAX,
        decreases len - x,
    {
        ptr[x] = u32::MAX;
        x += 1;
    }

    // Place the sorted B* positions at their buckets' ends.
    proof {
        assert forall|j: int| 0 <= j < num_bstar implies #[trigger] decoded(quadrant@, j) < nblock
            && is_bstar(bits, nblock as int, decoded(quadrant@, j) as int) by {
            assert(decoded(quadrant@, j) == sorted[j]);
        }
        assert forall|a: int, b: int| 0 <= a < b < num_bstar implies #[trigger] decoded(quadrant@, a)
            != #[trigger] decoded(quadrant@, b) by {
            assert(decoded(quadrant@, a) == sorted[a] && decoded(quadrant@, b) == sorted[b]);
        }
        assert forall|a: int, b: int| 0 <= a < b < num_bstar implies key_le(
            bk,
            nblock,
            0,
            #[trigger] decoded(quadrant@, a),
            #[trigger] decoded(quadrant@, b),
        ) by {
            assert(decoded(quadrant@, a) == sorted[a] && decoded(quadrant@, b) == sorted[b]);
        }
    }
    let tail = place_bstar(
        ptr,
        quadrant,
        block,
        bitset.as_slice(),
        nblock,
        num_bstar,
        &bucket_start,
        &bucket_end,
    );
    proof {
        assert forall|q: int| 0 <= q < nblock && is_bstar(bits, nblock as int, q) implies #[trigger] present(
            q,
            ptr@,
            nblock as int,
        ) by {
            let r = choose|r: int| 0 <= r < num_bstar && #[trigger] sorted[r] as int == q;
            assert(decoded(quadrant@, r) == sorted[r]);
        }
        assert(types_ok(bk, bits, nblock as int));
    }

    // Induce the L-type positions from left to right, then the S-type ones
    // from right to left.
    let head = induce_l(
        ptr,
        block,
        bitset.as_slice(),
        nblock,
        &bucket_start,
        &bucket_end,
        &tail,
    );
    proof {
        assert forall|c2: int| 0 <= c2 < 256 implies bucket_start@[c2] <= #[trigger] head@[c2]
            <= bucket_end@[c2] && l_filled(
            bk,
            bits,
            ptr@,
            c2,
            bucket_start@[c2] as int,
            head@[c2] as int,
        ) && no_l_slots(bits, ptr@, head@[c2] as int, bucket_end@[c2] as int) by {
            assert(phase1_bucket(
                bk,
                bits,
                nblock as int,
                ptr@,
                c2,
                bucket_start@[c2] as int,
                head@[c2] as int,
                tail@[c2] as int,
                bucket_end@[c2] as int,
            ));
        }
    }
    induce_s(ptr, block, bitset.as_slice(), nblock, &bucket_start, &bucket_end, &head);

    // Locate position 0.
    let mut i: usize = 0;
    while i < nblock && ptr[i] != 0
        invariant
            2 <= nblock <= 64 * BITSET_WORDS,
            nblock <= ptr@.len(),
            i <= nblock,
            forall|k: int| 0 <= k < i ==> #[trigger] ptr@[k] != 0,
        decreases nblock - i,
    {
        i += 1;
    }
    proof {
        assert(present(0, ptr@, nblock as int));
        assert forall|x: int, y: int| 0 <= x < y < nblock implies key_le(
            old(block)@,
            nblock,
            0,
            #[trigger] ptr@[x],
            #[trigger] ptr@[y],
        ) by {
            assert(key_le(bk, nblock, 0, ptr@[x], ptr@[y]));
            assert(bk.subrange(0, nblock as int) =~= old(block)@.subrange(0, nblock as int));
            lemma_key_same_text(bk, old(block)@, nblock, ptr@[x], 0);
            lemma_key_same_text(bk, old(block)@, nblock, ptr@[y], 0);
        }
        if i < nblock {
            lemma_inverse_bwt(old(block)@, nblock, ptr@, i as int);
        }
    }
    if i < nblock {
        i as i32
    } else {
        -1
    }
}

/// The compressor's state as block sorting sees it.
pub struct EState {
    /// The number of bytes in the block.
    pub nblock: i32,
    /// Where the rotation at position 0 ends up in the sorted order.
    pub orig_ptr: i32,
    /// The sorted positions.
    pub arr1: Vec<u32>,
    /// The block, with room for `BZ_N_OVERSHOOT` bytes past its end.
    pub block: Vec<u8>,
    /// Scratch space for the sort.
    pub quadrant: Vec<u16>,
}

/// Sorts the block of the compressor state: `arr1[0..nblock]` receives the
/// positions of the block in the order of their rotations, and `orig_ptr`
/// the index there of position 0.
pub fn block_sort(s: &mut EState)
    requires
        0 <= old(s).nblock <= 64 * BITSET_WORDS,
        old(s).nblock <= old(s).arr1@.len(),
        old(s).nblock >= 2 ==> old(s).nblock + BZ_N_OVERSHOOT <= old(s).block@.len(),
        old(s).nblock >= 2 ==> 2 * bstar_count(old(s).block@, old(s).nblock as int, old(s).nblock as int)
            <= old(s).quadrant@.len(),
    ensures
        final(s).nblock == old(s).nblock,
        final(s).arr1@.len() == old(s).arr1@.len(),
        final(s).block@.len() == old(s).block@.len(),
        final(s).quadrant@.len() == old(s).quadrant@.len(),
        final(s).block@.subrange(0, old(s).nblock as int) == old(s).block@.subrange(
            0,
            old(s).nblock as int,
        ),
        old(s).nblock == 0 ==> final(s).orig_ptr == 0,
        old(s).nblock == 0 ==> final(s).arr1@ == old(s).arr1@,
        old(s).nblock < 2 ==> final(s).block@ == old(s).block@,
        old(s).nblock < 2 || all_same(old(s).block@, old(s).nblock as int) ==> final(s).quadrant@ == old(
            s,
        ).quadrant@,
        old(s).nblock >= 2 ==> cyclic_block(final(s).block@, old(s).nblock as usize),
        old(s).nblock >= 2 ==> forall|i: int|
            old(s).nblock + BZ_N_OVERSHOOT <= i < old(s).block@.len() ==> #[trigger] final(s).block@[i]
                == old(s).block@[i],
        old(s).nblock >= 2 && all_same(old(s).block@, old(s).nblock as int) ==> forall|i: int|
            0 <= i < old(s).nblock ==> #[trigger] final(s).arr1@[i] == i,
        old(s).nblock >= 2 && !all_same(old(s).block@, old(s).nblock as int) ==> forall|x: int|
            old(s).nblock <= x < old(s).arr1@.len() ==> #[trigger] final(s).arr1@[x] == u32::MAX,
        old(s).nblock < 2 || all_same(old(s).block@, old(s).nblock as int) ==> forall|x: int|
            old(s).nblock <= x < old(s).arr1@.len() ==> #[trigger] final(s).arr1@[x] == old(s).arr1@[x],
        old(s).nblock >= 1 ==> 0 <= final(s).orig_ptr < old(s).nblock,
        old(s).nblock >= 1 ==> final(s).arr1@[final(s).orig_ptr as int] == 0,
        forall|x: int| 0 <= x < old(s).nblock ==> #[trigger] final(s).arr1@[x] < old(s).nblock,
        distinct_range(final(s).arr1@, 0, old(s).nblock as int),
        forall|p: int|
            0 <= p < old(s).nblock ==> #[trigger] present(p, final(s).arr1@, old(s).nblock as int),
        sorted_range(old(s).block@, old(s).nblock as usize, 0, final(s).arr1@, 0, old(s).nblock as int),
        1 <= old(s).nblock <= old(s).block@.len() ==> inverse_bwt(
            bwt_last(old(s).block@, old(s).nblock as usize, final(s).arr1@),
            final(s).orig_ptr as int,
        ) == old(s).block@.subrange(0, old(s).nblock as int),
{
    let nblock = s.nblock as usize;
    if nblock == 0 {
        s.orig_ptr = 0;
        return ;
    }
    s.orig_ptr = divsufsort_bwt(s.arr1.as_mut_slice(), s.block.as_mut_slice(), s.quadrant.as_mut_slice(), nblock);
    proof {
        assert(s.orig_ptr != -1);
    }
}

} // verus!
