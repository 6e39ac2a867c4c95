use std::cmp::Ordering;

use lib::bwt::{block_sort, divsufsort_bwt, EState};
use lib::compare::compare_cyclic_suffixes;
use lib::rotation::{u16_at, BZ_N_OVERSHOOT};
use lib::sorting::{insertion_sort, median_u16, ssort_bstar};
use lib::stype::{classify_cyclic_suffixes, is_s};

/// The text followed by `BZ_N_OVERSHOOT` bytes that continue it cyclically.
fn padded(text: &[u8]) -> Vec<u8> {
    (0..text.len() + BZ_N_OVERSHOOT).map(|i| text[i % text.len()]).collect()
}

/// The rotation of `text` that starts at `a`.
fn rotation(text: &[u8], a: usize) -> Vec<u8> {
    let n = text.len();
    (0..n).map(|k| text[(a + k) % n]).collect()
}

/// A deterministic pseudo-random text over an alphabet of `alphabet` bytes.
fn pseudo_random_text(len: usize, alphabet: u32, seed: u32) -> Vec<u8> {
    let mut x = seed;
    (0..len)
        .map(|_| {
            x = x.wrapping_mul(1_103_515_245).wrapping_add(12_345);
            (b'a' as u32 + (x >> 16) % alphabet) as u8
        })
        .collect()
}

/// Checks that `ptr[0..n]` holds every position of `text` once, in the
/// order of their rotations, and that `orig` is where position 0 stands.
fn check_sorted_rotations(text: &[u8], ptr: &[u32], orig: i32) {
    let n = text.len();
    let mut seen = vec![false; n];
    for &p in &ptr[..n] {
        assert!((p as usize) < n);
        assert!(!seen[p as usize]);
        seen[p as usize] = true;
    }
    for i in 1..n {
        assert!(rotation(text, ptr[i - 1] as usize) <= rotation(text, ptr[i] as usize));
    }
    assert_eq!(ptr[orig as usize], 0);
}

/// Runs `divsufsort_bwt` on `text` and returns the positions and the result.
fn run_bwt(text: &[u8]) -> (Vec<u32>, Vec<u8>, i32) {
    let n = text.len();
    let mut block = text.to_vec();
    block.extend(std::iter::repeat(0u8).take(BZ_N_OVERSHOOT));
    let mut ptr = vec![7u32; n + 3];
    let mut quadrant = vec![0u16; n + 2];
    let orig = divsufsort_bwt(&mut ptr, &mut block, &mut quadrant, n);
    (ptr, block, orig)
}

#[test]
fn compare_banana_rotations() {
    let block = padded(b"banana");
    assert_eq!(compare_cyclic_suffixes(&block, 6, 1, 3, 0), Ordering::Greater);
    assert_eq!(compare_cyclic_suffixes(&block, 6, 5, 1, 0), Ordering::Less);
    assert_eq!(compare_cyclic_suffixes(&block, 6, 2, 2, 0), Ordering::Equal);
    assert_eq!(compare_cyclic_suffixes(&block, 6, 1, 3, 1), Ordering::Greater);
    assert_eq!(compare_cyclic_suffixes(&block, 6, 1, 3, 3), Ordering::Greater);
    assert_eq!(compare_cyclic_suffixes(&block, 6, 1, 3, 4), Ordering::Less);
    assert_eq!(compare_cyclic_suffixes(&block, 6, 1, 3, 6), Ordering::Equal);
}

#[test]
fn compare_periodic_rotations_are_equal() {
    let block = padded(b"abab");
    assert_eq!(compare_cyclic_suffixes(&block, 4, 0, 2, 0), Ordering::Equal);
    assert_eq!(compare_cyclic_suffixes(&block, 4, 1, 3, 0), Ordering::Equal);
    assert_eq!(compare_cyclic_suffixes(&block, 4, 0, 1, 0), Ordering::Less);
}

#[test]
fn compare_matches_rotation_order_on_long_text() {
    let text = pseudo_random_text(97, 3, 7);
    let block = padded(&text);
    let n = text.len();
    for a in 0..n {
        for b in 0..n {
            for depth in [0usize, 1, 5, 8, 13, 96, 97] {
                let expected = rotation(&text, a)[depth..].cmp(&rotation(&text, b)[depth..]);
                assert_eq!(compare_cyclic_suffixes(&block, n, a, b, depth), expected);
            }
        }
    }
}

#[test]
fn insertion_sort_banana() {
    let block = padded(b"banana");
    let mut s = vec![0u32, 1, 2, 3, 4, 5];
    insertion_sort(&mut s, &block, 6, 0);
    assert_eq!(s, vec![5, 3, 1, 0, 4, 2]);
}

#[test]
fn insertion_sort_at_depth_ignores_leading_bytes() {
    // From byte 1 on: 0 -> "anana", 2 -> "anaba", 4 -> "abana".
    let block = padded(b"banana");
    let mut s = vec![0u32, 2, 4];
    insertion_sort(&mut s, &block, 6, 1);
    assert_eq!(s, vec![4, 2, 0]);
}

#[test]
fn median_of_three() {
    assert_eq!(median_u16(1, 2, 3), 2);
    assert_eq!(median_u16(3, 1, 2), 2);
    assert_eq!(median_u16(2, 3, 1), 2);
    assert_eq!(median_u16(5, 5, 1), 5);
    assert_eq!(median_u16(1, 9, 9), 9);
    assert_eq!(median_u16(7, 7, 7), 7);
    assert_eq!(median_u16(0, 65535, 100), 100);
}

#[test]
fn u16_at_reads_two_bytes_cyclically() {
    let block = padded(b"abc");
    assert_eq!(u16_at(&block, 3, 0), 0x6162);
    assert_eq!(u16_at(&block, 3, 2), 0x6361);
    assert_eq!(u16_at(&block, 3, 4), 0x6263);
}

#[test]
fn ssort_bstar_sorts_all_positions() {
    let text = pseudo_random_text(600, 2, 11);
    let block = padded(&text);
    let n = text.len();
    let mut s: Vec<u32> = (0..n as u32).rev().collect();
    ssort_bstar(&mut s, &block, n, 0);
    let mut seen = vec![false; n];
    for &p in &s {
        assert!(!seen[p as usize]);
        seen[p as usize] = true;
    }
    for i in 1..n {
        assert!(rotation(&text, s[i - 1] as usize) <= rotation(&text, s[i] as usize));
    }
}

#[test]
fn ssort_bstar_sorts_from_initial_depth() {
    let text = pseudo_random_text(300, 4, 3);
    let block = padded(&text);
    let n = text.len();
    // The positions whose rotations start with the two bytes of position 0.
    let s0: Vec<u32> = (0..n as u32)
        .filter(|&p| rotation(&text, p as usize)[..2] == rotation(&text, 0)[..2])
        .collect();
    let mut s = s0.clone();
    ssort_bstar(&mut s, &block, n, 2);
    let mut a = s.clone();
    a.sort();
    let mut b = s0.clone();
    b.sort();
    assert_eq!(a, b);
    for i in 1..s.len() {
        assert!(rotation(&text, s[i - 1] as usize)[2..] <= rotation(&text, s[i] as usize)[2..]);
    }
}

#[test]
fn classify_banana() {
    let block = padded(b"banana");
    let mut bits = vec![u64::MAX; 2];
    let all_equal = classify_cyclic_suffixes(&block, 6, &mut bits);
    assert!(!all_equal);
    assert_eq!(bits[0], 0b101010);
    assert_eq!(bits[1], u64::MAX);
}

#[test]
fn classify_all_equal() {
    let block = padded(b"aaaa");
    let mut bits = vec![u64::MAX; 1];
    assert!(classify_cyclic_suffixes(&block, 4, &mut bits));
    assert_eq!(bits[0], 0);
}

#[test]
fn classify_matches_rotation_comparison() {
    let text = pseudo_random_text(200, 3, 5);
    let block = padded(&text);
    let n = text.len();
    let mut bits = vec![0u64; 4];
    assert!(!classify_cyclic_suffixes(&block, n, &mut bits));
    for i in 0..n {
        let s_type = rotation(&text, i) < rotation(&text, (i + 1) % n);
        assert_eq!(is_s(&bits, i), s_type);
    }
}

#[test]
fn is_s_reads_bits() {
    let bits = vec![0b101010u64, 1u64 << 3];
    assert!(!is_s(&bits, 0));
    assert!(is_s(&bits, 1));
    assert!(is_s(&bits, 5));
    assert!(!is_s(&bits, 63));
    assert!(is_s(&bits, 67));
    assert!(!is_s(&bits, 64));
}

#[test]
fn bwt_of_banana() {
    let (ptr, block, orig) = run_bwt(b"banana");
    assert_eq!(&ptr[..6], &[5, 3, 1, 0, 4, 2]);
    assert_eq!(orig, 3);
    let last: Vec<u8> = ptr[..6].iter().map(|&p| b"banana"[(p as usize + 5) % 6]).collect();
    assert_eq!(last, b"nnbaaa".to_vec());
    // The block now continues the text cyclically past its end.
    assert_eq!(&block[6..12], b"banana");
    // The slots past the text are cleared.
    assert_eq!(&ptr[6..], &[u32::MAX, u32::MAX, u32::MAX]);
}

#[test]
fn bwt_of_empty_block() {
    let mut ptr = vec![9u32; 2];
    let mut block = vec![1u8; 3];
    let mut quadrant = vec![0u16; 2];
    assert_eq!(divsufsort_bwt(&mut ptr, &mut block, &mut quadrant, 0), 0);
    assert_eq!(ptr, vec![9, 9]);
    assert_eq!(block, vec![1, 1, 1]);
}

#[test]
fn bwt_of_single_byte() {
    let mut ptr = vec![9u32; 2];
    let mut block = vec![b'x'];
    let mut quadrant: Vec<u16> = Vec::new();
    assert_eq!(divsufsort_bwt(&mut ptr, &mut block, &mut quadrant, 1), 0);
    assert_eq!(ptr, vec![0, 9]);
}

#[test]
fn bwt_of_equal_bytes_is_identity() {
    let (ptr, _, orig) = run_bwt(b"zzzzzzz");
    assert_eq!(&ptr[..7], &[0, 1, 2, 3, 4, 5, 6]);
    assert_eq!(orig, 0);
    // Nothing past the text is touched.
    assert_eq!(&ptr[7..], &[7, 7, 7]);
}

#[test]
fn bwt_of_periodic_text() {
    let text = b"abcabcabc";
    let (ptr, _, orig) = run_bwt(text);
    check_sorted_rotations(text, &ptr, orig);
    let mut first: Vec<u32> = ptr[..3].to_vec();
    first.sort();
    assert_eq!(first, vec![0, 3, 6]);
}

#[test]
fn bwt_of_two_bytes() {
    let (ptr, _, orig) = run_bwt(b"ba");
    assert_eq!(&ptr[..2], &[1, 0]);
    assert_eq!(orig, 1);
}

#[test]
fn bwt_of_words() {
    for text in [&b"mississippi"[..], b"abracadabra", b"aaaaab", b"baaaaa", b"abababababc", b"zyxwvutsrq"] {
        let (ptr, _, orig) = run_bwt(text);
        check_sorted_rotations(text, &ptr, orig);
    }
}

#[test]
fn bwt_of_mississippi() {
    let (ptr, _, orig) = run_bwt(b"mississippi");
    assert_eq!(&ptr[..11], &[10, 7, 4, 1, 0, 9, 8, 6, 3, 5, 2]);
    assert_eq!(orig, 4);
}

#[test]
fn bwt_of_pseudo_random_texts() {
    for (len, alphabet, seed) in [(1000usize, 2u32, 1u32), (2048, 4, 2), (3001, 26, 3), (500, 1, 4), (777, 3, 5)] {
        let text = pseudo_random_text(len, alphabet, seed);
        let (ptr, _, orig) = run_bwt(&text);
        check_sorted_rotations(&text, &ptr, orig);
    }
}

#[test]
fn block_sort_sets_orig_ptr() {
    let mut block = b"banana".to_vec();
    block.extend(std::iter::repeat(0u8).take(BZ_N_OVERSHOOT));
    let mut s = EState { nblock: 6, orig_ptr: -7, arr1: vec![0u32; 6], block, quadrant: vec![0u16; 6] };
    block_sort(&mut s);
    assert_eq!(s.orig_ptr, 3);
    assert_eq!(s.arr1, vec![5, 3, 1, 0, 4, 2]);
    assert_eq!(&s.block[..6], b"banana");
}

#[test]
fn block_sort_of_empty_block() {
    let mut s = EState { nblock: 0, orig_ptr: -7, arr1: Vec::new(), block: Vec::new(), quadrant: Vec::new() };
    block_sort(&mut s);
    assert_eq!(s.orig_ptr, 0);
}

#[test]
fn block_sort_of_large_block() {
    let text = pseudo_random_text(20000, 5, 9);
    let mut block = text.clone();
    block.extend(std::iter::repeat(0u8).take(BZ_N_OVERSHOOT));
    let mut s = EState {
        nblock: text.len() as i32,
        orig_ptr: -1,
        arr1: vec![0u32; text.len()],
        block,
        quadrant: vec![0u16; text.len()],
    };
    block_sort(&mut s);
    let n = text.len();
    let mut seen = vec![false; n];
    for &p in &s.arr1 {
        assert!(!seen[p as usize]);
        seen[p as usize] = true;
    }
    for i in 1..n {
        let a = s.arr1[i - 1] as usize;
        let b = s.arr1[i] as usize;
        // Compare the rotations lazily to keep the test fast.
        let mut k = 0;
        while k < n && text[(a + k) % n] == text[(b + k) % n] {
            k += 1;
        }
        assert!(k == n || text[(a + k) % n] < text[(b + k) % n]);
    }
    assert_eq!(s.arr1[s.orig_ptr as usize], 0);
}

#[test]
fn compare_reversed_gives_reverse_answer() {
    let text = pseudo_random_text(50, 2, 21);
    let block = padded(&text);
    for a in 0..50 {
        for b in 0..50 {
            for depth in [0usize, 3, 9, 50] {
                let ab = compare_cyclic_suffixes(&block, 50, a, b, depth);
                let ba = compare_cyclic_suffixes(&block, 50, b, a, depth);
                assert_eq!(ab, ba.reverse());
            }
        }
    }
}

#[test]
fn compare_on_blocks_without_overshoot() {
    assert_eq!(compare_cyclic_suffixes(b"bab", 3, 0, 2, 0), Ordering::Less);
    assert_eq!(compare_cyclic_suffixes(b"abab", 4, 0, 2, 0), Ordering::Equal);
    let block = b"aaaaaaaaabaaaaaaaa";
    assert_eq!(compare_cyclic_suffixes(block, 10, 5, 0, 0), Ordering::Greater);
    assert_eq!(compare_cyclic_suffixes(block, 10, 5, 0, 5), Ordering::Less);
}

#[test]
fn compare_same_position_reads_nothing() {
    assert_eq!(compare_cyclic_suffixes(&[], 0, 3, 3, 9), Ordering::Equal);
}

#[test]
fn compare_skips_matched_prefix() {
    // Rotations 0 and 2 of "abcabd" agree on their first two bytes.
    let block = padded(b"abcabd");
    for d in 0..=2 {
        assert_eq!(compare_cyclic_suffixes(&block, 6, 0, 3, d), Ordering::Less);
    }
}

#[test]
fn insertion_sort_is_stable() {
    let block = b"abab";
    let mut s = vec![3u32, 1, 2, 0];
    insertion_sort(&mut s, block, 4, 0);
    assert_eq!(s, vec![2, 0, 3, 1]);
}

#[test]
fn insertion_sort_twice_changes_nothing() {
    let text = pseudo_random_text(40, 2, 13);
    let block = padded(&text);
    let mut s: Vec<u32> = (0..40u32).rev().collect();
    insertion_sort(&mut s, &block, 40, 3);
    let once = s.clone();
    insertion_sort(&mut s, &block, 40, 3);
    assert_eq!(s, once);
}

#[test]
fn ssort_agrees_with_insertion_sort_on_short_ranges() {
    let block = b"abcabc";
    let mut a = vec![5u32, 3, 0, 4, 1, 2, 3, 0, 5, 1];
    let mut b = a.clone();
    ssort_bstar(&mut a, block, 6, 0);
    insertion_sort(&mut b, block, 6, 0);
    assert_eq!(a, b);
    assert_eq!(a, vec![3, 0, 3, 0, 4, 1, 1, 5, 2, 5]);
}

#[test]
fn u16_at_needs_one_byte_past_the_text() {
    assert_eq!(u16_at(b"abca", 3, 2), 0x6361);
    assert_eq!(u16_at(b"abca", 3, 5), 0x6361);
}

#[test]
fn block_sort_of_empty_block_keeps_everything() {
    let mut s = EState { nblock: 0, orig_ptr: -7, arr1: vec![4, 5], block: vec![1, 2], quadrant: vec![3] };
    block_sort(&mut s);
    assert_eq!(s.orig_ptr, 0);
    assert_eq!(s.arr1, vec![4, 5]);
    assert_eq!(s.block, vec![1, 2]);
    assert_eq!(s.quadrant, vec![3]);
}

#[test]
fn compare_reads_only_seven_bytes_past_the_text() {
    // The bytes past the text need not repeat it for the call to be safe.
    let block = b"abcdefghXXXXXXX";
    let r = compare_cyclic_suffixes(block, 8, 0, 1, 0);
    assert!(r == Ordering::Less || r == Ordering::Greater || r == Ordering::Equal);
    assert_eq!(compare_cyclic_suffixes(block, 8, 4, 4, 2), Ordering::Equal);
    let short = b"dcba";
    assert_eq!(compare_cyclic_suffixes(short, 4, 3, 0, 0), Ordering::Less);
}

#[test]
fn bwt_of_equal_bytes_needs_no_scratch() {
    let mut block = b"qqqqq".to_vec();
    block.extend(std::iter::repeat(0u8).take(BZ_N_OVERSHOOT));
    let mut ptr = vec![9u32; 5];
    let mut quadrant: Vec<u16> = Vec::new();
    assert_eq!(divsufsort_bwt(&mut ptr, &mut block, &mut quadrant, 5), 0);
    assert_eq!(ptr, vec![0, 1, 2, 3, 4]);
    assert!(quadrant.is_empty());
}

#[test]
fn bwt_with_scratch_for_bstar_positions_only() {
    // "banana" has three B* positions (1, 3 and 5): six scratch slots do.
    let mut block = b"banana".to_vec();
    block.extend(std::iter::repeat(0u8).take(BZ_N_OVERSHOOT));
    let mut ptr = vec![0u32; 6];
    let mut quadrant = vec![0u16; 6];
    assert_eq!(divsufsort_bwt(&mut ptr, &mut block, &mut quadrant, 6), 3);
    assert_eq!(ptr, vec![5, 3, 1, 0, 4, 2]);
}

#[test]
fn ssort_agrees_with_insertion_sort_without_ties() {
    let text = pseudo_random_text(300, 26, 17);
    let block = padded(&text);
    let mut a: Vec<u32> = (0..300u32).filter(|p| p % 7 != 3).rev().collect();
    let mut b = a.clone();
    ssort_bstar(&mut a, &block, 300, 0);
    insertion_sort(&mut b, &block, 300, 0);
    assert_eq!(a, b);
}

#[test]
fn insertion_sort_rearranges_without_repeat_past_text() {
    let block = b"hgfedcbaZZZZZZZ";
    let mut s = vec![0u32, 5, 2, 7, 1];
    insertion_sort(&mut s, block, 8, 0);
    let mut sorted = s.clone();
    sorted.sort();
    assert_eq!(sorted, vec![0, 1, 2, 5, 7]);
}

/// Rebuilds a text from the last column of its sorted rotations and the
/// row of position 0, as a decoder does.
fn invert(last: &[u8], orig: usize) -> Vec<u8> {
    let n = last.len();
    let mut under = [0usize; 257];
    for &b in last {
        under[b as usize + 1] += 1;
    }
    for c in 0..256 {
        under[c + 1] += under[c];
    }
    let mut seen = [0usize; 256];
    let mut lf = vec![0usize; n];
    for k in 0..n {
        let c = last[k] as usize;
        lf[k] = under[c] + seen[c];
        seen[c] += 1;
    }
    let mut out = vec![0u8; n];
    let mut r = orig;
    for i in 0..n {
        out[n - 1 - i] = last[r];
        r = lf[r];
    }
    out
}

#[test]
fn block_sort_output_inverts_to_the_block() {
    for text in [
        b"banana".to_vec(),
        b"abcabcabc".to_vec(),
        b"x".to_vec(),
        b"zzzz".to_vec(),
        pseudo_random_text(4000, 3, 23),
    ] {
        let n = text.len();
        let mut block = text.clone();
        block.extend(std::iter::repeat(0u8).take(BZ_N_OVERSHOOT));
        let mut s = EState {
            nblock: n as i32,
            orig_ptr: -1,
            arr1: vec![0u32; n],
            block,
            quadrant: vec![0u16; n],
        };
        block_sort(&mut s);
        let last: Vec<u8> = s.arr1.iter().map(|&p| text[(p as usize + n - 1) % n]).collect();
        assert_eq!(invert(&last, s.orig_ptr as usize), text);
    }
}
