//! Sorting the B* positions: a counting sort into the 65536 buckets of
//! their first two bytes, then each bucket sorted from its third byte on.

use vstd::prelude::*;
use crate::compare::rotation_less;
use crate::lex::{lemma_be_value_bound, lemma_be_value_order, pow256};
use crate::order::{
    all_below, distinct_range, key_le, lemma_key_lt_le, lemma_permuted_below,
    lemma_permuted_distinct, lemma_permuted_refl, lemma_permuted_trans, lemma_permuted_widen,
    lemma_swap_permuted, occurs_in, permuted_within, sorted_range, swapped,
};
use crate::pending::{has_prefix, lemma_sorted_deeper, lemma_word_order, word_at};
use crate::rotation::{cyclic_block, lemma_u16_at_rotation, repeats_at, rotation};
use crate::sorting::ssort_bstar_range;

verus! {

/// The number of two-byte buckets.
pub const BUCKETS2: usize = 65536;

/// The bucket of position `x`: the first two bytes of its rotation as a
/// big-endian word.
pub open spec fn bucket_of(block: Seq<u8>, n: usize, x: u32) -> nat {
    word_at(block, n, x, 0)
}

/// How many of `l[0..k]` lie in bucket `b`.
pub open spec fn count_in(block: Seq<u8>, n: usize, l: Seq<u32>, b: int, k: int) -> nat
    decreases k,
{
    if k <= 0 {
        0
    } else {
        count_in(block, n, l, b, k - 1) + if bucket_of(block, n, l[k - 1]) == b {
            1nat
        } else {
            0nat
        }
    }
}

/// How many of `l[0..k]` lie in the buckets below `b`.
pub open spec fn count_below(block: Seq<u8>, n: usize, l: Seq<u32>, b: int, k: int) -> nat
    decreases b,
{
    if b <= 0 {
        0
    } else {
        count_below(block, n, l, b - 1, k) + count_in(block, n, l, b - 1, k)
    }
}

/// Where bucket `b` starts once all of `l` is distributed.
pub open spec fn bucket_start(block: Seq<u8>, n: usize, l: Seq<u32>, b: int) -> nat {
    count_below(block, n, l, b, l.len() as int)
}

/// The entry that quadrant words `2p` and `2p + 1` encode, low half first.
pub open spec fn decoded(q: Seq<u16>, p: int) -> u32 {
    (q[2 * p] as u32) | ((q[2 * p + 1] as u32) << 16u32)
}

/// Splitting a 32-bit entry into two halves and joining them gives it back.
pub proof fn lemma_split_join(s: u32)
    ensures
        (((s & 0xFFFFu32) as u16) as u32) | ((((s >> 16u32) as u16) as u32) << 16u32) == s,
{
    assert((((s & 0xFFFFu32) as u16) as u32) | ((((s >> 16u32) as u16) as u32) << 16u32) == s)
        by (bit_vector);
}

/// A position's bucket is below `65536`.
pub proof fn lemma_bucket_bound(block: Seq<u8>, n: usize, x: u32)
    requires
        2 <= n,
    ensures
        bucket_of(block, n, x) < 65536,
{
    let w = rotation(block, n as int, x as int).subrange(0, 2);
    lemma_be_value_bound(w);
    reveal_with_fuel(pow256, 3);
}

/// The bucket of the text position `s`.
fn bucket_key(block: &[u8], n: usize, s: u32) -> (b: usize)
    requires
        cyclic_block(block@, n),
        2 <= n,
        s < n,
    ensures
        b == bucket_of(block@, n, s),
        b < 65536,
{
    let s_idx = s as usize;
    let c0 = block[s_idx] as usize;
    let s1 = if s_idx + 1 == n {
        0
    } else {
        s_idx + 1
    };
    let c1 = block[s1] as usize;
    proof {
        lemma_u16_at_rotation(block@, n, s_idx, 0);
        assert(repeats_at(block@, n as int, n as int));
        assert((c0 << 8usize) | c1 == c0 * 256 + c1) by (bit_vector)
            requires
                c0 < 256,
                c1 < 256,
        ;
    }
    (c0 << 8) | c1
}

/// One more entry adds one to the count of its own bucket.
pub proof fn lemma_count_below_step(block: Seq<u8>, n: usize, l: Seq<u32>, b: int, k: int)
    requires
        0 <= k,
        0 <= b,
    ensures
        count_below(block, n, l, b, k + 1) == count_below(block, n, l, b, k) + if bucket_of(
            block,
            n,
            l[k],
        ) < b {
            1nat
        } else {
            0nat
        },
    decreases b,
{
    if b > 0 {
        lemma_count_below_step(block, n, l, b - 1, k);
    }
}

/// No entries are counted before the first.
pub proof fn lemma_count_below_zero(block: Seq<u8>, n: usize, l: Seq<u32>, b: int)
    ensures
        count_below(block, n, l, b, 0) == 0,
    decreases b,
{
    if b > 0 {
        lemma_count_below_zero(block, n, l, b - 1);
    }
}

/// All of `l[0..k]` lies in some bucket.
pub proof fn lemma_count_below_all(block: Seq<u8>, n: usize, l: Seq<u32>, k: int)
    requires
        0 <= k <= l.len(),
        2 <= n,
    ensures
        count_below(block, n, l, 65536, k) == k,
    decreases k,
{
    if k > 0 {
        lemma_count_below_all(block, n, l, k - 1);
        lemma_count_below_step(block, n, l, 65536, k - 1);
        lemma_bucket_bound(block, n, l[k - 1]);
        assert(count_below(block, n, l, 65536, k - 1) == k - 1);
        assert(count_below(block, n, l, 65536, k - 1 + 1) == count_below(block, n, l, 65536, k - 1) + 1);
    } else {
        assert(count_below(block, n, l, 65536, 0) == 0) by {
            lemma_count_below_zero(block, n, l, 65536);
        }
    }
}

/// Bucket starts grow with the bucket.
pub proof fn lemma_bucket_start_mono(block: Seq<u8>, n: usize, l: Seq<u32>, a: int, b: int)
    requires
        0 <= a <= b,
    ensures
        bucket_start(block, n, l, a) <= bucket_start(block, n, l, b),
    decreases b - a,
{
    if a < b {
        lemma_bucket_start_mono(block, n, l, a, b - 1);
    }
}

/// A bucket holds no more than the entries counted.
pub proof fn lemma_count_in_bound(block: Seq<u8>, n: usize, l: Seq<u32>, b: int, k: int)
    requires
        0 <= k,
    ensures
        count_in(block, n, l, b, k) <= k,
    decreases k,
{
    if k > 0 {
        lemma_count_in_bound(block, n, l, b, k - 1);
    }
}

/// Counts grow with the prefix, strictly past an entry of the bucket.
pub proof fn lemma_count_in_mono(block: Seq<u8>, n: usize, l: Seq<u32>, b: int, k1: int, k2: int)
    requires
        0 <= k1 <= k2,
    ensures
        count_in(block, n, l, b, k1) <= count_in(block, n, l, b, k2),
        k1 < k2 && bucket_of(block, n, l[k1]) == b ==> count_in(block, n, l, b, k1) < count_in(
            block,
            n,
            l,
            b,
            k2,
        ),
    decreases k2 - k1,
{
    if k1 < k2 {
        lemma_count_in_mono(block, n, l, b, k1, k2 - 1);
        if k1 + 1 < k2 {
            lemma_count_in_mono(block, n, l, b, k1 + 1, k2 - 1);
        }
    }
}

/// Every position below the end of the last bucket lies in one bucket.
pub proof fn lemma_find_bucket(block: Seq<u8>, n: usize, l: Seq<u32>, p: int, bmax: int) -> (b: int)
    requires
        0 <= p < bucket_start(block, n, l, bmax),
        0 <= bmax,
    ensures
        0 <= b < bmax,
        bucket_start(block, n, l, b) <= p < bucket_start(block, n, l, b + 1),
    decreases bmax,
{
    if p < bucket_start(block, n, l, bmax - 1) {
        lemma_find_bucket(block, n, l, p, bmax - 1)
    } else {
        bmax - 1
    }
}

/// Positions in one bucket share their first two bytes.
pub proof fn lemma_same_bucket_prefix(block: Seq<u8>, n: usize, x: u32, y: u32)
    requires
        2 <= n,
        bucket_of(block, n, x) == bucket_of(block, n, y),
    ensures
        has_prefix(block, n, y, 0, 2, rotation(block, n as int, x as int).subrange(0, 2)),
{
    lemma_be_value_order(
        rotation(block, n as int, x as int).subrange(0, 2),
        rotation(block, n as int, y as int).subrange(0, 2),
    );
}

/// Sorts the B* positions `ptr[0..num_bstar]` by their rotations: counts
/// them into the buckets of their first two bytes, lays them out bucket by
/// bucket in `quadrant`, copies them back, and sorts each bucket from its
/// third byte on.
pub fn sort_bstar_buckets(
    ptr: &mut [u32],
    block: &[u8],
    quadrant: &mut [u16],
    nblock: usize,
    num_bstar: usize,
)
    requires
        cyclic_block(block@, nblock),
        2 <= nblock <= u32::MAX,
        num_bstar <= nblock,
        num_bstar <= old(ptr)@.len(),
        2 * num_bstar <= old(quadrant)@.len(),
        all_below(old(ptr)@, 0, num_bstar as int, nblock),
        distinct_range(old(ptr)@, 0, num_bstar as int),
    ensures
        final(ptr)@.len() == old(ptr)@.len(),
        final(quadrant)@.len() == old(quadrant)@.len(),
        sorted_range(block@, nblock, 0, final(ptr)@, 0, num_bstar as int),
        distinct_range(final(ptr)@, 0, num_bstar as int),
        forall|i: int|
            0 <= i < num_bstar ==> occurs_in(#[trigger] final(ptr)@[i], old(ptr)@, 0, num_bstar as int),
        forall|i: int|
            0 <= i < num_bstar ==> occurs_in(#[trigger] old(ptr)@[i], final(ptr)@, 0, num_bstar as int),
        forall|k: int| num_bstar <= k < old(ptr)@.len() ==> final(ptr)@[k] == old(ptr)@[k],
{
    let ghost n = nblock;
    let ghost l = old(ptr)@.subrange(0, num_bstar as int);
    let ghost m = num_bstar as int;
    let ghost bk = block@;

    // Count the entries of each bucket.
    let mut bstar_ftab: Vec<u32> = vec![0u32; 65536];
    let mut t: usize = 0;
    while t < num_bstar
        invariant
            cyclic_block(block@, nblock),
            2 <= nblock <= u32::MAX,
            num_bstar <= nblock,
            num_bstar <= ptr@.len(),
            ptr@ == old(ptr)@,
            l == ptr@.subrange(0, m),
            l.len() == m,
            n == nblock,
            bk == block@,
            m == num_bstar,
            all_below(ptr@, 0, m, nblock),
            t <= num_bstar,
            bstar_ftab@.len() == 65536,
            forall|b: int| 0 <= b < 65536 ==> #[trigger] bstar_ftab@[b] == count_in(bk, n, l, b, t as int),
        decreases num_bstar - t,
    {
        let s = ptr[t];
        let b = bucket_key(block, nblock, s);
        proof {
            assert(l[t as int] == s);
            lemma_count_in_bound(bk, n, l, b as int, t as int);
        }
        bstar_ftab[b] = bstar_ftab[b] + 1;
        t += 1;
        proof {
            assert forall|b2: int| 0 <= b2 < 65536 implies #[trigger] bstar_ftab@[b2] == count_in(
                bk,
                n,
                l,
                b2,
                t as int,
            ) by {
                assert(count_in(bk, n, l, b2, t as int) == count_in(bk, n, l, b2, t - 1) + if bucket_of(
                    bk,
                    n,
                    l[t - 1],
                ) == b2 {
                    1nat
                } else {
                    0nat
                });
            }
        }
    }

    // Turn the counts into bucket starts.
    let mut curr: u32 = 0;
    let mut b: usize = 0;
    proof {
        lemma_count_below_all(bk, n, l, m);
    }
    while b < 65536
        invariant
            bstar_ftab@.len() == 65536,
            l.len() == m,
            n == nblock,
            bk == block@,
            b <= 65536,
            m <= nblock <= u32::MAX,
            count_below(bk, n, l, 65536, m) == m,
            curr == bucket_start(bk, n, l, b as int),
            forall|b2: int| 0 <= b2 < b ==> #[trigger] bstar_ftab@[b2] == bucket_start(bk, n, l, b2),
            forall|b2: int| b <= b2 < 65536 ==> #[trigger] bstar_ftab@[b2] == count_in(bk, n, l, b2, m),
        decreases 65536 - b,
    {
        let tmp = bstar_ftab[b];
        bstar_ftab[b] = curr;
        proof {
            lemma_bucket_start_mono(bk, n, l, b + 1, 65536);
        }
        curr = curr + tmp;
        b += 1;
    }

    // Lay the entries out bucket by bucket in `quadrant`.
    let ghost mut owner: Seq<int> = Seq::new(m as nat, |p: int| -1int);
    let ghost mut place: Seq<int> = Seq::empty();
    let ghost q0 = quadrant@;
    let mut t: usize = 0;
    while t < num_bstar
        invariant
            cyclic_block(block@, nblock),
            2 <= nblock <= u32::MAX,
            num_bstar <= ptr@.len(),
            2 * num_bstar <= quadrant.len(),
            num_bstar <= nblock,
            quadrant@.len() == q0.len(),
            ptr@ == old(ptr)@,
            l == ptr@.subrange(0, m),
            l.len() == m,
            n == nblock,
            bk == block@,
            m == num_bstar,
            all_below(ptr@, 0, m, nblock),
            count_below(bk, n, l, 65536, m) == m,
            t <= num_bstar,
            bstar_ftab@.len() == 65536,
            forall|b: int|
                0 <= b < 65536 ==> #[trigger] bstar_ftab@[b] == bucket_start(bk, n, l, b) + count_in(
                    bk,
                    n,
                    l,
                    b,
                    t as int,
                ),
            owner.len() == m,
            place.len() == t,
            forall|p: int|
                0 <= p < m && #[trigger] owner[p] >= 0 ==> owner[p] < t && place[owner[p]] == p
                    && decoded(quadrant@, p) == l[owner[p]],
            forall|u: int|
                0 <= u < t ==> 0 <= #[trigger] place[u] < m && owner[place[u]] == u,
            forall|b: int, p: int|
                0 <= b < 65536 && bucket_start(bk, n, l, b) <= p < #[trigger] bstar_ftab@[b] ==> 0
                    <= #[trigger] owner[p] && bucket_of(bk, n, l[owner[p]]) == b,
            forall|p: int|
                0 <= p < m && #[trigger] owner[p] >= 0 ==> bucket_start(
                    bk,
                    n,
                    l,
                    bucket_of(bk, n, l[owner[p]]) as int,
                ) <= p < bstar_ftab@[bucket_of(bk, n, l[owner[p]]) as int],
        decreases num_bstar - t,
    {
        let s = ptr[t];
        let bucket = bucket_key(block, nblock, s);
        let pos = bstar_ftab[bucket] as usize;
        let ghost ftab_old = bstar_ftab@;
        let ghost owner_old = owner;
        proof {
            assert(l[t as int] == s);
            lemma_count_in_mono(bk, n, l, bucket as int, t as int, m);
            lemma_bucket_start_mono(bk, n, l, bucket + 1, 65536);
            assert(bucket_start(bk, n, l, bucket + 1) == bucket_start(bk, n, l, bucket as int)
                + count_in(bk, n, l, bucket as int, m));
            // The slot is free: a taken slot lies below its own bucket's fill.
            if owner[pos as int] >= 0 {
                let ob = bucket_of(bk, n, l[owner[pos as int]]) as int;
                lemma_bucket_bound(bk, n, l[owner[pos as int]]);
                if ob < bucket {
                    lemma_bucket_start_mono(bk, n, l, ob + 1, bucket as int);
                    lemma_count_in_mono(bk, n, l, ob, t as int, m);
                    assert(bucket_start(bk, n, l, ob + 1) == bucket_start(bk, n, l, ob) + count_in(
                        bk,
                        n,
                        l,
                        ob,
                        m,
                    ));
                } else if ob > bucket {
                    lemma_bucket_start_mono(bk, n, l, bucket + 1, ob);
                }
                assert(false);
            }
        }
        bstar_ftab[bucket] = bstar_ftab[bucket] + 1;
        let ghost old_q = quadrant@;
        quadrant[pos * 2] = (s & 0xFFFF) as u16;
        quadrant[pos * 2 + 1] = (s >> 16) as u16;
        proof {
            lemma_split_join(s);
            owner = owner.update(pos as int, t as int);
            place = place.push(pos as int);
            assert forall|p: int| 0 <= p < m && #[trigger] owner[p] >= 0 implies decoded(
                quadrant@,
                p,
            ) == l[owner[p]] by {
                if p != pos {
                    assert(quadrant@[2 * p] == old_q[2 * p]);
                    assert(quadrant@[2 * p + 1] == old_q[2 * p + 1]);
                }
            }
            assert forall|b2: int, p: int|
                0 <= b2 < 65536 && bucket_start(bk, n, l, b2) <= p < #[trigger] bstar_ftab@[b2]
                    implies 0 <= #[trigger] owner[p] && bucket_of(bk, n, l[owner[p]]) == b2 by {
                if b2 == bucket {
                    if p != pos {
                        assert(p < ftab_old[b2]);
                        assert(owner[p] == owner_old[p]);
                    }
                } else {
                    assert(bstar_ftab@[b2] == ftab_old[b2]);
                    lemma_count_in_mono(bk, n, l, b2, t as int, m);
                    if b2 < bucket {
                        lemma_bucket_start_mono(bk, n, l, b2 + 1, bucket as int);
                    } else {
                        lemma_bucket_start_mono(bk, n, l, bucket + 1, b2);
                    }
                    assert(bucket_start(bk, n, l, b2 + 1) == bucket_start(bk, n, l, b2) + count_in(
                        bk,
                        n,
                        l,
                        b2,
                        m,
                    ));
                    lemma_bucket_start_mono(bk, n, l, b2 + 1, 65536);
                    assert(p != pos);
                    assert(owner[p] == owner_old[p]);
                }
            }
            assert forall|p: int| 0 <= p < m && #[trigger] owner[p] >= 0 implies bucket_start(
                bk,
                n,
                l,
                bucket_of(bk, n, l[owner[p]]) as int,
            ) <= p < bstar_ftab@[bucket_of(bk, n, l[owner[p]]) as int] by {
                if p != pos {
                    assert(owner[p] == owner_old[p]);
                    lemma_bucket_bound(bk, n, l[owner[p]]);
                } else {
                    assert(l[owner[p]] == s);
                }
            }
        }
        t += 1;
    }

    // The laid-out entries: each slot below `m` holds one entry of `l`, in
    // the bucket of the slot.
    let ghost rq = quadrant@;
    proof {
        assert forall|p: int| 0 <= p < m implies #[trigger] owner[p] >= 0 && bucket_start(
            bk,
            n,
            l,
            bucket_of(bk, n, l[owner[p]]) as int,
        ) <= p < bucket_start(bk, n, l, bucket_of(bk, n, l[owner[p]]) + 1int) by {
            let b = lemma_find_bucket(bk, n, l, p, 65536);
            assert(bucket_start(bk, n, l, b + 1) == bucket_start(bk, n, l, b) + count_in(
                bk,
                n,
                l,
                b,
                m,
            ));
            assert(bstar_ftab@[b] == bucket_start(bk, n, l, b + 1));
        }
    }

    // Copy the entries back.
    let mut i: usize = 0;
    while i < num_bstar
        invariant
            2 * num_bstar <= quadrant.len(),
            num_bstar <= ptr@.len(),
            ptr@.len() == old(ptr)@.len(),
            quadrant@ == rq,
            i <= num_bstar,
            forall|p: int| 0 <= p < i ==> ptr@[p] == decoded(rq, p),
            forall|k: int| i <= k < ptr@.len() ==> ptr@[k] == old(ptr)@[k],
        decreases num_bstar - i,
    {
        let low = quadrant[i * 2] as u32;
        let high = quadrant[i * 2 + 1] as u32;
        ptr[i] = low | (high << 16);
        i += 1;
    }
    let ghost p0 = ptr@;
    proof {
        assert forall|p: int| 0 <= p < m implies #[trigger] p0[p] == l[owner[p]] && p0[p] < n
            && bucket_start(bk, n, l, bucket_of(bk, n, p0[p]) as int) <= p < bucket_start(
            bk,
            n,
            l,
            bucket_of(bk, n, p0[p]) + 1int,
        ) by {
            assert(owner[p] >= 0);
            assert(l[owner[p]] == old(ptr)@[owner[p]]);
        }
        assert forall|p1: int, p2: int| 0 <= p1 < p2 < m implies #[trigger] p0[p1] != #[trigger] p0[p2] by {
            assert(owner[p1] >= 0 && owner[p2] >= 0);
            if owner[p1] != owner[p2] {
                if owner[p1] < owner[p2] {
                    assert(old(ptr)@[owner[p1]] != old(ptr)@[owner[p2]]);
                } else {
                    assert(old(ptr)@[owner[p2]] != old(ptr)@[owner[p1]]);
                }
            }
        }
        lemma_permuted_refl(p0, 0, 0);
    }

    // Sort each bucket from its third byte on.
    let mut start: usize = 0;
    let mut b: usize = 0;
    while b < 65536
        invariant
            cyclic_block(block@, nblock),
            2 <= nblock <= u32::MAX,
            n == nblock,
            bk == block@,
            l.len() == m,
            m == num_bstar,
            num_bstar <= ptr@.len(),
            bstar_ftab@.len() == 65536,
            forall|b2: int| 0 <= b2 < 65536 ==> #[trigger] bstar_ftab@[b2] == bucket_start(bk, n, l, b2 + 1),
            count_below(bk, n, l, 65536, m) == m,
            b <= 65536,
            start == bucket_start(bk, n, l, b as int),
            p0.len() == ptr@.len(),
            forall|p: int|
                0 <= p < m ==> #[trigger] p0[p] < n && bucket_start(
                    bk,
                    n,
                    l,
                    bucket_of(bk, n, p0[p]) as int,
                ) <= p < bucket_start(bk, n, l, bucket_of(bk, n, p0[p]) + 1int),
            permuted_within(ptr@, p0, 0, start as int),
            sorted_range(block@, nblock, 0, ptr@, 0, start as int),
            forall|p: int| 0 <= p < start ==> bucket_of(bk, n, #[trigger] ptr@[p]) < b,
        decreases 65536 - b,
    {
        let end = bstar_ftab[b] as usize;
        proof {
            lemma_bucket_start_mono(bk, n, l, b as int, b + 1);
            lemma_bucket_start_mono(bk, n, l, b + 1, 65536);
            lemma_permuted_below(ptr@, p0, 0, start as int, nblock);
        }
        let ghost before = ptr@;
        if end > start {
            proof {
                lemma_permuted_widen(ptr@, p0, 0, start as int, 0, end as int);
                // The entries of this bucket share their first two bytes.
                assert forall|p: int| start <= p < end implies #[trigger] ptr@[p] < n && bucket_of(
                    bk,
                    n,
                    ptr@[p],
                ) == b by {
                    assert(ptr@[p] == p0[p]);
                    let bp = bucket_of(bk, n, p0[p]) as int;
                    lemma_bucket_bound(bk, n, p0[p]);
                    if bp < b {
                        lemma_bucket_start_mono(bk, n, l, bp + 1, b as int);
                    } else if bp > b {
                        lemma_bucket_start_mono(bk, n, l, b + 1, bp);
                    }
                }
            }
            let count = end - start;
            if count == 2 {
                let a = ptr[start];
                let c = ptr[start + 1];
                if rotation_less(block, nblock, c as usize, a as usize, 2) {
                    ptr[start] = c;
                    ptr[start + 1] = a;
                    proof {
                        assert(ptr@ =~= swapped(before, start as int, start + 1));
                        lemma_permuted_refl(before, start as int, end as int);
                        lemma_swap_permuted(before, before, start as int, end as int, start as int, start + 1);
                        lemma_key_lt_le(bk, n, 2, c, a);
                    }
                } else {
                    proof {
                        lemma_permuted_refl(before, start as int, end as int);
                    }
                }
            } else if count > 2 {
                ssort_bstar_range(ptr, start, end, block, nblock, 2);
            } else {
                proof {
                    lemma_permuted_refl(before, start as int, end as int);
                }
            }
            proof {
                let pref = rotation(bk, n as int, before[start as int] as int).subrange(0, 2);
                lemma_permuted_below(ptr@, before, start as int, end as int, nblock);
                assert forall|p: int| start <= p < end implies has_prefix(
                    bk,
                    n,
                    #[trigger] ptr@[p],
                    0,
                    2,
                    pref,
                ) && bucket_of(bk, n, ptr@[p]) == b by {
                    assert(occurs_in(ptr@[p], before, start as int, end as int));
                    let r = choose|r: int| start <= r < end && #[trigger] before[r] == ptr@[p];
                    lemma_same_bucket_prefix(bk, n, before[start as int], ptr@[p]);
                }
                lemma_sorted_deeper(bk, n, 0, 2, ptr@, start as int, end as int, pref);
                lemma_permuted_trans(ptr@, before, p0, start as int, end as int, 0, end as int);
                assert forall|i: int, j: int| 0 <= i < j < end implies key_le(
                    bk,
                    n,
                    0,
                    #[trigger] ptr@[i],
                    #[trigger] ptr@[j],
                ) by {
                    if i < start && j >= start {
                        assert(ptr@[i] == before[i]);
                        assert(rotation(bk, n as int, ptr@[i] as int).subrange(0, 0) =~= Seq::<
                            u8,
                        >::empty());
                        assert(rotation(bk, n as int, ptr@[j] as int).subrange(0, 0) =~= Seq::<
                            u8,
                        >::empty());
                        lemma_word_order(bk, n, 0, 0, ptr@[i], ptr@[j], Seq::<u8>::empty());
                    } else if j < start {
                        assert(ptr@[i] == before[i] && ptr@[j] == before[j]);
                    }
                }
                assert forall|p: int| 0 <= p < end implies bucket_of(bk, n, #[trigger] ptr@[p]) < b + 1 by {
                    if p < start {
                        assert(ptr@[p] == before[p]);
                    }
                }
            }
            start = end;
        }
        b += 1;
    }
    proof {
        lemma_count_below_all(bk, n, l, m);
        assert(start == m);
        lemma_permuted_distinct(ptr@, p0, 0, m);
        assert forall|i: int| 0 <= i < m implies occurs_in(#[trigger] ptr@[i], old(ptr)@, 0, m) by {
            assert(occurs_in(ptr@[i], p0, 0, m));
            let r = choose|r: int| 0 <= r < m && #[trigger] p0[r] == ptr@[i];
            assert(p0[r] == l[owner[r]]);
            assert(old(ptr)@[owner[r]] == ptr@[i]);
        }
        assert forall|i: int| 0 <= i < m implies occurs_in(#[trigger] old(ptr)@[i], ptr@, 0, m) by {
            let p = place[i];
            assert(owner[p] == i);
            assert(p0[p] == l[i]);
            assert(occurs_in(p0[p], ptr@, 0, m));
        }
    }
}

} // verus!
