# Block sorting for a bzip2 compressor, verified

The library computes the Burrows-Wheeler transform of a block: it sorts the
cyclic rotations of the block's bytes by two-stage induced sorting and reports
where the rotation starting at position 0 ends up. Every function carries a
contract that Verus proves; the central one, on `divsufsort_bwt` and
`block_sort`, states that the position array receives every position of the
block exactly once, ordered by the rotations that start there, and that the
returned index holds position 0, so that a decoder rebuilds the block from
the result.

Layout of `src/`:

- `lex.rs`, `rotation.rs`, `order.rs`: byte-string order, rotations of the
  cyclic text and their keys, sortedness and permutations of position arrays.
- `compare.rs`: three-way comparison of two rotations, eight bytes at a time.
- `sorting.rs`, `pending.rs`: insertion sort and the multi-key ternary
  quicksort on 16-bit words, with the invariants of its stack of ranges.
- `stype.rs`, `bstar.rs`: S-type/L-type classification into a bitset and the
  collection of B* positions.
- `counting.rs`, `bucket.rs`: counting arguments and the two-byte bucket sort
  of the B* positions.
- `rotorder.rs`, `induce.rs`, `fill.rs`: the order facts induced sorting rests
  on, the two induction passes, and why they leave every position in place.
- `inverse.rs`: the decoder's mapping from row to row, and the proof that it
  rebuilds the block from the last column and the row of position 0.
- `bwt.rs`: `divsufsort_bwt` and `block_sort`.

The tests under `tests/` compare the results with rotations sorted directly.
