# wnaf_mul

Windowed scalar multiplication on the Bandersnatch curve, verified with Verus.

Two methods are provided:

- `wnaf::WnafContext`: the scalar is cut into signed windows of `w` bits
  (each window in `(-2^(w-1), 2^(w-1)]`, a carry moving into the next
  window); a table holds the first `2^(w-1)` multiples of the base for each
  window, and the product is the sum of one table entry, added or
  subtracted, per nonzero window.
- `gotti::WnafGottiContext`: the comb method; the scalar's 253 bits are read
  in `t` interleaved columns, each column in windows of `b` bits, and each
  window selects a precomputed sum of doubled bases; the sum is doubled
  between columns.

Layout:

- `src/scalar.rs`: scalars held by their Montgomery limbs, their canonical
  value (the stored value divided by `2^256` modulo the modulus), canonical
  limbs and bit length (through `ark-ff`), limb arithmetic.
- `src/point.rs`: points held by their extended twisted Edwards coordinates,
  and the group operations of `ark-ed-on-bls12-381-bandersnatch`.
- `src/digits.rs`: the signed radix-`2^w` expansion, its uniqueness, and the
  function that cuts it out of the limbs.
- `src/wnaf.rs`, `src/gotti.rs`: tables and multiplications.
- `app/lib.rs`: conversions from and to the arkworks types.

The group operations are outside code: their results are named, not
stated, and the contracts of the multiplications are exact over those
names. What is proved of the scalars (the windows stand for the scalar,
every bit is read once, the chunked comb columns decode to the scalar, the
table layout) holds without them.
