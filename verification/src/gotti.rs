//! Scalar multiplication by the comb method of Gotti: the scalar's bits are
//! read in `t` interleaved columns, each column in windows of `b` bits, and
//! each window selects one precomputed sum of doubled bases.

use crate::comb_laws::{
    apply_ops, comb_ops, comb_window_entry, lemma_gotti_sum_ops, lemma_gotti_table_subset_sums,
};
use crate::digits::{lemma_table_index, lemma_usize_shift, lemma_window_count, window_count};
use crate::point::{
    edwards_add, edwards_double, identity_point, point_add, point_double, point_zero, Point,
};
use crate::scalar::{
    bit_of, fr_is_zero, fr_modulus, lemma_fr_modulus_bound, lemma_limb_bit,
    lemma_scalar_value_montgomery, limbs_value, scalar_limbs, scalar_to_u64, scalar_value, Scalar,
};
use vstd::arithmetic::div_mod::*;
use vstd::arithmetic::mul::*;
use vstd::arithmetic::power2::*;
use vstd::bits::*;
use vstd::prelude::*;

verus! {

/// The value of the low `t` bits of `num` read in reverse order: bit `j`
/// of `num` lands at position `t - 1 - j`.
pub open spec fn reversed_bits(num: nat, t: nat) -> nat
    decreases t,
{
    if t == 0 {
        0
    } else {
        2 * reversed_bits(num, (t - 1) as nat) + (num / pow2((t - 1) as nat)) % 2
    }
}

/// Where `rearrange_table` puts entry `i`: the low `b` bits of `i as u32`
/// reversed, kept to 32 bits.
pub open spec fn rev_index(i: int, b: nat) -> nat {
    reversed_bits((i as u32) as nat, b) % 0x1_0000_0000
}

/// The last of the first `n` entries that `rearrange_table` puts at `j`, or
/// `-1` when none does.
pub open spec fn source_index(n: nat, b: nat, j: nat) -> int
    decreases n,
{
    if n == 0 {
        -1
    } else if rev_index(n - 1, b) == j {
        n - 1
    } else {
        source_index((n - 1) as nat, b, j)
    }
}

/// `b` is a clone of a clone of `a`.
pub open spec fn twice_cloned<G: Clone>(a: G, b: G) -> bool {
    exists|c: G| cloned(a, c) && cloned(c, b)
}

/// Every clone of a `G` equals the value it was cloned from, as for a `Copy` type.
pub open spec fn clone_is_copy<G: Clone>() -> bool {
    forall|a: G, c: G| #[trigger] cloned(a, c) ==> a == c
}

/// What `rearrange_table` makes of `tbl` when clones are copies: position
/// `j` holds the last entry moved to it, or entry 0 where none is.
pub open spec fn rearranged<G>(tbl: Seq<G>, b: nat) -> Seq<G> {
    Seq::new(
        tbl.len(),
        |j: int|
            if source_index(tbl.len(), b, j as nat) >= 0 {
                tbl[source_index(tbl.len(), b, j as nat)]
            } else {
                tbl[0]
            },
    )
}

/// Reversed bits stay below `2^t`.
pub proof fn lemma_reversed_bits_bound(num: nat, t: nat)
    ensures
        reversed_bits(num, t) < pow2(t),
    decreases t,
{
    if t == 0 {
        lemma2_to64();
    } else {
        lemma_reversed_bits_bound(num, (t - 1) as nat);
        lemma_pow2_unfold(t);
        lemma_pow2_pos((t - 1) as nat);
        lemma_mod_bound((num / pow2((t - 1) as nat)) as int, 2);
    }
}

/// The window table that `fill_window` makes of `tbl`: with no basis points
/// it is the neutral element throughout; otherwise its first half is the
/// table of the remaining basis points, entry `i` of its second half is entry
/// `i` of the first half plus the first basis point, and an odd last entry
/// keeps its value.
pub open spec fn filled(basis: Seq<Point>, tbl: Seq<Point>) -> Seq<Point>
    decreases basis.len(),
{
    if basis.len() == 0 {
        Seq::new(tbl.len(), |i: int| identity_point())
    } else {
        let h = tbl.len() / 2;
        let lo = filled(basis.drop_first(), tbl.take(h as int));
        lo + Seq::new(h, |i: int| edwards_add(lo[i], basis[0])) + tbl.skip((2 * h) as int)
    }
}

/// `filled` keeps the length of the table.
pub proof fn lemma_filled_len(basis: Seq<Point>, tbl: Seq<Point>)
    ensures
        filled(basis, tbl).len() == tbl.len(),
    decreases basis.len(),
{
    if basis.len() > 0 {
        lemma_filled_len(basis.drop_first(), tbl.take((tbl.len() / 2) as int));
    }
}

/// `p` doubled `n` times.
pub open spec fn doubled(p: Point, n: nat) -> Point
    decreases n,
{
    if n == 0 {
        p
    } else {
        edwards_double(doubled(p, (n - 1) as nat))
    }
}

/// Number of comb columns entries: the `k` in `0, t, 2t, ...` below 253.
pub open spec fn gotti_column_len(t: nat) -> nat {
    window_count(253, t)
}

/// Windows of `b` entries that cover a column.
pub open spec fn gotti_window_count(t: nat, b: nat) -> nat {
    window_count(gotti_column_len(t), b)
}

/// The basis of the comb: point `i` is `base` doubled `t i` times.
pub open spec fn gotti_basis(base: Point, t: nat) -> Seq<Point> {
    Seq::new(gotti_column_len(t), |i: int| doubled(base, t * (i as nat)))
}

/// The basis points of window `w`.
pub open spec fn gotti_window_basis(base: Point, t: nat, b: nat, w: nat) -> Seq<Point> {
    let end = if (w + 1) * b > gotti_column_len(t) {
        gotti_column_len(t)
    } else {
        (w + 1) * b
    };
    gotti_basis(base, t).subrange((w * b) as int, end as int)
}

/// The table of window `w` before its rearrangement.
pub open spec fn gotti_window_table(base: Point, t: nat, b: nat, w: nat) -> Seq<Point> {
    filled(gotti_window_basis(base, t, b, w), Seq::new(pow2(b), |i: int| identity_point()))
}

/// Entry `k` of the comb table: entry `k mod 2^b` of window `k / 2^b` after
/// the rearrangement.
pub open spec fn gotti_table_entry(base: Point, t: nat, b: nat, k: nat) -> Point {
    let ws = pow2(b);
    let tbl = gotti_window_table(base, t, b, k / ws);
    let s = source_index(ws, b, k % ws);
    if s >= 0 {
        tbl[s]
    } else {
        tbl[0]
    }
}

/// `Zero::is_zero` of the scalar: all its Montgomery limbs are zero.
pub open spec fn mont_is_zero(s: Scalar) -> bool {
    s.mont[0] == 0 && s.mont[1] == 0 && s.mont[2] == 0 && s.mont[3] == 0
}

/// Position of the scalar bit that column `t_i` reads at its entry `c`.
pub open spec fn gotti_pos(t: nat, t_i: nat, c: nat) -> int {
    c * t + t - t_i - 1
}

/// The bit at entry `c` of column `t_i`: bit `gotti_pos` of the scalar, or
/// zero for the zero scalar and for positions past the 253 bits of `Fr`.
pub open spec fn gotti_bit(s: Scalar, t: nat, t_i: nat, c: nat) -> nat {
    if gotti_pos(t, t_i, c) < 253 && !mont_is_zero(s) {
        bit_of(scalar_value(s), gotti_pos(t, t_i, c) as nat)
    } else {
        0
    }
}

/// The `n` bits of column `t_i` from entry `start` on, the first one lowest.
pub open spec fn gotti_window_bits(s: Scalar, t: nat, t_i: nat, start: nat, n: nat) -> nat
    decreases n,
{
    if n == 0 {
        0
    } else {
        gotti_window_bits(s, t, t_i, start, (n - 1) as nat) + gotti_bit(
            s,
            t,
            t_i,
            (start + n - 1) as nat,
        ) * pow2((n - 1) as nat)
    }
}

/// Number of entries of window `wi` of a column of `len` entries.
pub open spec fn window_len(len: nat, b: nat, wi: nat) -> nat {
    if (wi + 1) * b <= len {
        b
    } else {
        (len - wi * b) as nat
    }
}

/// The value of window `wi` of column `t_i`.
pub open spec fn gotti_window_value(s: Scalar, t: nat, b: nat, t_i: nat, wi: nat) -> nat {
    gotti_window_bits(s, t, t_i, wi * b, window_len(gotti_column_len(t), b, wi))
}

/// `acc` with the table entries of the first `n` windows of column `t_i`
/// added: entry `wi 2^b + v` for each window `wi` of nonzero value `v`.
pub open spec fn gotti_column_sum(
    table: Seq<Point>,
    s: Scalar,
    t: nat,
    b: nat,
    t_i: nat,
    acc: Point,
    n: nat,
) -> Point
    decreases n,
{
    if n == 0 {
        acc
    } else {
        let a = gotti_column_sum(table, s, t, b, t_i, acc, (n - 1) as nat);
        let v = gotti_window_value(s, t, b, t_i, (n - 1) as nat);
        if v > 0 {
            edwards_add(a, table[(n - 1) * pow2(b) + v])
        } else {
            a
        }
    }
}

/// The comb sum over the first `k` columns: each column after the first
/// starts from the double of the sum before it.
pub open spec fn gotti_sum(table: Seq<Point>, s: Scalar, t: nat, b: nat, k: nat) -> Point
    decreases k,
{
    if k == 0 {
        identity_point()
    } else {
        let prev = gotti_sum(table, s, t, b, (k - 1) as nat);
        let start = if k - 1 > 0 {
            edwards_double(prev)
        } else {
            prev
        };
        gotti_column_sum(table, s, t, b, (k - 1) as nat, start, gotti_window_count(t, b))
    }
}

/// Every window of nonzero value has its block of `2^b` entries in a table of `len` entries.
pub open spec fn gotti_fits(len: nat, s: Scalar, t: nat, b: nat) -> bool {
    forall|t_i: nat, wi: nat|
        t_i < t && wi < gotti_window_count(t, b) && #[trigger] gotti_window_value(s, t, b, t_i, wi)
            > 0 ==> (wi + 1) * pow2(b) <= len
}

/// The comb reads a limb for each bit it takes: that is for a nonzero scalar
/// with a limb above bit 192, or when there are no columns.
pub open spec fn gotti_reads_fit(s: Scalar, t: nat) -> bool {
    t == 0 || mont_is_zero(s) || scalar_limbs(s).len() == 4
}

/// Setting bit `p` of a value below `2^p` adds `2^p`.
proof fn lemma_set_bit(x: usize, bit: u64, p: usize)
    requires
        p < usize::BITS,
        x < pow2(p as nat),
        bit <= 1,
    ensures
        (x | ((bit as usize) << p)) == x + bit * pow2(p as nat),
        x + bit * pow2(p as nat) < pow2((p + 1) as nat),
{
    vstd::layout::unsigned_int_max_values();
    lemma_usize_pow2_no_overflow(p as nat);
    lemma_usize_shl_is_mul(1usize, p);
    lemma_pow2_unfold((p + 1) as nat);
    lemma_pow2_pos(p as nat);
    assert(bit * pow2(p as nat) <= pow2(p as nat)) by (nonlinear_arith)
        requires
            bit <= 1,
    ;
    assert(x < (1usize << p));
    assert(x | ((bit as usize) << p) == x + ((bit as usize) << p)) by (bit_vector)
        requires
            p < usize::BITS,
            x < (1usize << p),
            bit <= 1,
    ;
    lemma_usize_shl_is_mul(bit as usize, p);
}

/// The column entries are the `k` in `0, t, 2t, ...` below 253: entry `c` is
/// one of them exactly when `c < gotti_column_len(t)`, and the first entry
/// past them is `gotti_column_len(t)`.
pub(crate) proof fn lemma_column_len(t: nat, c: nat)
    requires
        t >= 1,
    ensures
        c * t < 253 ==> c < gotti_column_len(t),
        (253 <= c * t < 253 + t) ==> c == gotti_column_len(t),
{
    let n = gotti_column_len(t);
    lemma_fundamental_div_mod((253 + t - 1) as int, t as int);
    lemma_mod_bound((253 + t - 1) as int, t as int);
    assert(n * t >= 253) by (nonlinear_arith)
        requires
            (253 + t - 1) == t * n + (253 + t - 1) % (t as int),
            (253 + t - 1) % (t as int) < t,
    ;
    if c * t < 253 {
        assert(c < n) by (nonlinear_arith)
            requires
                c * t < 253,
                n * t >= 253,
                t >= 1,
        ;
    }
    if 253 <= c * t < 253 + t {
        lemma_fundamental_div_mod_converse((253 + t - 1) as int, t as int, c as int, (253 + t - 1 - c * t) as int);
    }
}

/// The value of bits, the first one lowest.
pub open spec fn pack_bits(bits: Seq<nat>) -> nat
    decreases bits.len(),
{
    if bits.len() == 0 {
        0
    } else {
        pack_bits(bits.drop_last()) + bits.last() * pow2((bits.len() - 1) as nat)
    }
}

/// The bits of column `t_i` below position 253, or none for the zero scalar.
pub open spec fn gotti_column(s: Scalar, t: nat, t_i: nat) -> Seq<nat> {
    if mont_is_zero(s) {
        Seq::empty()
    } else {
        Seq::new((253 + t_i) / t, |c: int| bit_of(scalar_value(s), gotti_pos(t, t_i, c as nat) as nat))
    }
}

/// The bits cut into chunks of `b`, the last one possibly shorter, each chunk packed.
pub open spec fn packed_chunks(bits: Seq<nat>, b: nat) -> Seq<nat> {
    Seq::new(
        window_count(bits.len(), b),
        |q: int|
            pack_bits(
                bits.subrange(
                    q * b,
                    if (q + 1) * b <= bits.len() {
                        (q + 1) * b
                    } else {
                        bits.len() as int
                    },
                ),
            ),
    )
}

/// Entry `c` of a column is below position 253 exactly when `c < (253 + t_i) / t`.
pub(crate) proof fn lemma_column_bits(t: nat, t_i: nat, c: nat)
    requires
        t_i < t,
    ensures
        gotti_pos(t, t_i, c) < 253 <==> c < (253 + t_i) / t,
        (253 + t_i) / t <= gotti_column_len(t),
{
    let x = (253 + t_i) as int;
    lemma_fundamental_div_mod(x, t as int);
    lemma_mod_bound(x, t as int);
    let q = x / (t as int);
    let r = x % (t as int);
    let p = gotti_pos(t, t_i, c);
    assert(p == (c + 1) * t - x + 252) by (nonlinear_arith)
        requires
            p == c * t + t - t_i - 1,
            x == 253 + t_i,
    ;
    if c < q {
        assert(p < 253) by (nonlinear_arith)
            requires
                c + 1 <= q,
                x == t * q + r,
                0 <= r,
                p == (c + 1) * t - x + 252,
                t >= 1,
        ;
    } else {
        assert(p >= 253) by (nonlinear_arith)
            requires
                c >= q,
                x == t * q + r,
                r < t,
                p == (c + 1) * t - x + 252,
                t >= 1,
        ;
    }
    lemma_div_is_ordered(x, (253 + t - 1) as int, t as int);
}

/// A column has between 1 and 253 entries.
pub(crate) proof fn lemma_column_len_bound(t: nat)
    requires
        t >= 1,
    ensures
        1 <= gotti_column_len(t) <= 253,
{
    lemma_div_is_ordered(t as int, (253 + t - 1) as int, t as int);
    lemma_div_by_self(t as int);
    assert(253 + t - 1 <= 253 * t) by (nonlinear_arith)
        requires
            t >= 1,
    ;
    lemma_div_is_ordered((253 + t - 1) as int, (253 * t) as int, t as int);
    lemma_div_multiples_vanish(253, t as int);
    assert(t * 253 == 253 * t) by (nonlinear_arith);
}

/// Setting bit `p < 16` of a `u16` below `2^p` adds `2^p`.
proof fn lemma_set_bit_u16(x: u16, bit: u8, p: usize)
    requires
        p < 16,
        x < pow2(p as nat),
        bit <= 1,
    ensures
        (x | ((bit as u16) << p)) == x + bit * pow2(p as nat),
        x + bit * pow2(p as nat) < pow2((p + 1) as nat),
{
    lemma_u16_pow2_no_overflow(p as nat);
    lemma_u16_shl_is_mul(1u16, p as u16);
    lemma_pow2_unfold((p + 1) as nat);
    lemma_pow2_pos(p as nat);
    assert(bit * pow2(p as nat) <= pow2(p as nat)) by (nonlinear_arith)
        requires
            bit <= 1,
    ;
    assert(x < (1u16 << (p as u16)));
    let pp = p as u16;
    assert(x | ((bit as u16) << pp) == x + ((bit as u16) << pp)) by (bit_vector)
        requires
            pp < 16,
            x < (1u16 << pp),
            bit <= 1,
    ;
    lemma_u16_shl_is_mul(bit as u16, pp);
}

/// Appending bit `c` below `a` shifts the bits of `a` up by one.
pub(crate) proof fn lemma_bit_of_shifted(a: nat, c: nat, j: nat)
    requires
        c <= 1,
    ensures
        j == 0 ==> bit_of(2 * a + c, j) == c,
        j > 0 ==> bit_of(2 * a + c, j) == bit_of(a, (j - 1) as nat),
        bit_of(a, j + 1) == bit_of(a / 2, j),
{
    lemma2_to64();
    lemma_pow2_pos(j);
    lemma_pow2_adds(1, j);
    lemma_div_denominator(a as int, 2, pow2(j) as int);
    if j == 0 {
        lemma_fundamental_div_mod_converse((2 * a + c) as int, 2, a as int, c as int);
    } else {
        let k = (j - 1) as nat;
        lemma_pow2_adds(1, k);
        lemma_pow2_pos(k);
        lemma_fundamental_div_mod_converse((2 * a + c) as int, 2, a as int, c as int);
        lemma_div_denominator((2 * a + c) as int, 2, pow2(k) as int);
        assert(1 + k == j);
    }
}

/// Bit `j` of the reversal of the low `t` bits of `x` is bit `t - 1 - j` of `x`.
pub(crate) proof fn lemma_reversed_bits_bit(x: nat, t: nat, j: nat)
    requires
        j < t,
    ensures
        bit_of(reversed_bits(x, t), j) == bit_of(x, (t - 1 - j) as nat),
    decreases t,
{
    let a = reversed_bits(x, (t - 1) as nat);
    let c = bit_of(x, (t - 1) as nat);
    lemma_pow2_pos((t - 1) as nat);
    lemma_mod_bound((x / pow2((t - 1) as nat)) as int, 2);
    lemma_bit_of_shifted(a, c, j);
    if j > 0 {
        lemma_reversed_bits_bit(x, (t - 1) as nat, (j - 1) as nat);
    }
}

/// Reading the bits of `x` reversed from a number whose low `t` bits are
/// those of `x` in reverse order gives `x mod 2^t`.
proof fn lemma_reversed_bits_of_reversal(x: nat, y: nat, t: nat)
    requires
        forall|j: nat| j < t ==> #[trigger] bit_of(y, j) == bit_of(x, (t - 1 - j) as nat),
    ensures
        reversed_bits(y, t) == x % pow2(t),
    decreases t,
{
    if t == 0 {
        lemma2_to64();
    } else {
        let k = (t - 1) as nat;
        assert forall|j: nat| j < k implies #[trigger] bit_of(y, j) == bit_of(x / 2, (k - 1 - j) as nat) by {
            assert(bit_of(y, j) == bit_of(x, (t - 1 - j) as nat));
            lemma_bit_of_shifted(x, 0, (k - 1 - j) as nat);
            assert((k - 1 - j) + 1 == t - 1 - j);
        }
        lemma_reversed_bits_of_reversal(x / 2, y, k);
        assert(bit_of(y, k) == bit_of(x, 0));
        lemma2_to64();
        lemma_pow2_unfold(t);
        lemma_pow2_pos(k);
        lemma_mod_breakdown(x as int, 2, pow2(k) as int);
    }
}

/// Reversing the low `t` bits twice gives back the low `t` bits: the
/// reversal is a permutation of `[0, 2^t)` that undoes itself.
pub proof fn lemma_reversed_bits_involution(x: nat, t: nat)
    ensures
        reversed_bits(reversed_bits(x, t), t) == x % pow2(t),
{
    let y = reversed_bits(x, t);
    assert forall|j: nat| j < t implies #[trigger] bit_of(y, j) == bit_of(x, (t - 1 - j) as nat) by {
        lemma_reversed_bits_bit(x, t, j);
    }
    lemma_reversed_bits_of_reversal(x, y, t);
}

/// With `2^b` entries and `b <= 32`, `rearrange_table` puts at position `j`
/// the entry at the reversal of `j`: the rearrangement is the bit-reversal
/// permutation.
pub proof fn lemma_rearrange_is_bit_reversal(b: nat, j: nat)
    requires
        b <= 32,
        j < pow2(b),
    ensures
        source_index(pow2(b), b, j) == reversed_bits(j, b),
{
    let n = pow2(b);
    let r = reversed_bits(j, b);
    lemma2_to64();
    lemma2_to64_rest();
    if b < 32 {
        lemma_pow2_strictly_increases(b, 32);
    }
    lemma_reversed_bits_bound(j, b);
    // every index below 2^b fits a u32, so its reversal is reversed_bits itself
    assert forall|i: nat| i < n implies #[trigger] rev_index(i as int, b) == reversed_bits(i, b) by {
        assert((i as u32) as nat == i);
        lemma_reversed_bits_bound(i, b);
        lemma_small_mod(reversed_bits(i, b), 0x1_0000_0000);
    }
    lemma_reversed_bits_involution(j, b);
    lemma_small_mod(j, n);
    assert(rev_index(r as int, b) == j);
    // no other index reaches j
    assert forall|i: nat| i < n && rev_index(i as int, b) == j implies i == r by {
        lemma_reversed_bits_involution(i, b);
        lemma_small_mod(i, n);
    }
    lemma_source_index_unique(n, b, j, r);
}

/// Rearranging a table of `2^b` entries twice gives it back, when clones
/// are copies and `b <= 32`: the bit reversal undoes itself.
pub proof fn lemma_rearrange_twice<G>(tbl: Seq<G>, b: nat)
    requires
        b <= 32,
        tbl.len() == pow2(b),
    ensures
        rearranged(rearranged(tbl, b), b) == tbl,
{
    let n = tbl.len();
    let once = rearranged(tbl, b);
    let twice = rearranged(once, b);
    assert forall|j: int| 0 <= j < n implies #[trigger] twice[j] == tbl[j] by {
        lemma_rearrange_is_bit_reversal(b, j as nat);
        let r = reversed_bits(j as nat, b);
        lemma_reversed_bits_bound(j as nat, b);
        lemma_rearrange_is_bit_reversal(b, r);
        lemma_reversed_bits_involution(j as nat, b);
        lemma_small_mod(j as nat, pow2(b));
        assert(once[r as int] == tbl[reversed_bits(r, b) as int]);
    }
    assert(twice =~= tbl);
}

/// With windows of at most 32 bits, entry `k` of the comb table is the entry
/// at the bit reversal of `k mod 2^b` in the table of window `k / 2^b`.
pub proof fn lemma_gotti_table_entry_reversed(base: Point, t: nat, b: nat, k: nat)
    requires
        b <= 32,
    ensures
        gotti_table_entry(base, t, b, k) == gotti_window_table(base, t, b, k / pow2(b))[reversed_bits(
            k % pow2(b),
            b,
        ) as int],
{
    lemma_pow2_pos(b);
    lemma_mod_bound(k as int, pow2(b) as int);
    lemma_rearrange_is_bit_reversal(b, k % pow2(b));
}

/// The last index below `n` that reaches `j` is `r` when `r` is the only one.
proof fn lemma_source_index_unique(n: nat, b: nat, j: nat, r: nat)
    requires
        r < n,
        rev_index(r as int, b) == j,
        forall|i: nat| i < n && rev_index(i as int, b) == j ==> i == r,
    ensures
        source_index(n, b, j) == r,
    decreases n,
{
    if n - 1 != r {
        assert(rev_index((n - 1) as int, b) != j) by {
            if rev_index((n - 1) as int, b) == j {
                assert(((n - 1) as nat) < n);
            }
        }
        lemma_source_index_unique((n - 1) as nat, b, j, r);
    }
}

/// Every bit of a 253-bit scalar is read by exactly one entry of one comb
/// column: position `p` by entry `p / t` of column `t - 1 - p mod t`, and the
/// entries of column `t_i` below `(253 + t_i) / t` read positions below 253.
pub proof fn lemma_comb_reads_each_bit_once(t: nat, p: nat, t_i: nat, c: nat)
    requires
        t >= 1,
    ensures
        p < 253 ==> {
            let ti = (t - 1 - p % t) as nat;
            &&& ti < t
            &&& p / t < (253 + ti) / t
            &&& gotti_pos(t, ti, p / t) == p
        },
        (t_i < t && c < (253 + t_i) / t && gotti_pos(t, t_i, c) == p) ==> {
            &&& p < 253
            &&& t_i == t - 1 - p % t
            &&& c == p / t
        },
{
    lemma_fundamental_div_mod(p as int, t as int);
    lemma_mod_bound(p as int, t as int);
    if p < 253 {
        let ti = (t - 1 - p % t) as nat;
        lemma_column_bits(t, ti, p / t);
        assert(gotti_pos(t, ti, p / t) == (p / t) * t + p % t);
        assert(t * (p / t) == (p / t) * t) by (nonlinear_arith);
    }
    if t_i < t && c < (253 + t_i) / t && gotti_pos(t, t_i, c) == p {
        lemma_column_bits(t, t_i, c);
        assert(p == c * t + (t - 1 - t_i));
        lemma_fundamental_div_mod_converse(p as int, t as int, c as int, (t - 1 - t_i) as int);
    }
}

/// `f(0) + ... + f(n - 1)`.
pub open spec fn sum_to(f: spec_fn(int) -> int, n: nat) -> int
    decreases n,
{
    if n == 0 {
        0
    } else {
        sum_to(f, (n - 1) as nat) + f(n - 1)
    }
}

/// Sums of functions that agree below `n` agree.
pub(crate) proof fn lemma_sum_ext(f: spec_fn(int) -> int, g: spec_fn(int) -> int, n: nat)
    requires
        forall|i: int| 0 <= i < n ==> #[trigger] f(i) == g(i),
    ensures
        sum_to(f, n) == sum_to(g, n),
    decreases n,
{
    if n > 0 {
        lemma_sum_ext(f, g, (n - 1) as nat);
    }
}

/// A sum over `a + b` terms splits after the first `a`; `g` is `f` shifted by `a`.
pub(crate) proof fn lemma_sum_split(f: spec_fn(int) -> int, g: spec_fn(int) -> int, a: nat, b: nat)
    requires
        forall|r: int| 0 <= r < b ==> #[trigger] g(r) == f(a + r),
    ensures
        sum_to(f, a + b) == sum_to(f, a) + sum_to(g, b),
    decreases b,
{
    if b > 0 {
        lemma_sum_split(f, g, a, (b - 1) as nat);
        assert((a + b - 1) as nat == a + (b - 1) as nat);
        assert(g(b - 1) == f(a + (b - 1)));
    }
}

/// The sum of a termwise sum `fg` of `f` and `g` is the sum of their sums.
pub(crate) proof fn lemma_sum_add(f: spec_fn(int) -> int, g: spec_fn(int) -> int, fg: spec_fn(int) -> int, n: nat)
    requires
        forall|i: int| 0 <= i < n ==> #[trigger] fg(i) == f(i) + g(i),
    ensures
        sum_to(fg, n) == sum_to(f, n) + sum_to(g, n),
    decreases n,
{
    if n > 0 {
        lemma_sum_add(f, g, fg, (n - 1) as nat);
        assert(fg(n - 1) == f(n - 1) + g(n - 1));
    }
}

/// A constant factor `k` comes out of a sum; `kf` is `f` times `k`.
pub(crate) proof fn lemma_sum_scale(f: spec_fn(int) -> int, kf: spec_fn(int) -> int, k: int, n: nat)
    requires
        forall|i: int| 0 <= i < n ==> #[trigger] kf(i) == k * f(i),
    ensures
        sum_to(kf, n) == k * sum_to(f, n),
    decreases n,
{
    if n > 0 {
        lemma_sum_scale(f, kf, k, (n - 1) as nat);
        assert(kf(n - 1) == k * f(n - 1));
        assert(k * sum_to(f, (n - 1) as nat) + k * f(n - 1) == k * (sum_to(f, (n - 1) as nat) + f(
            n - 1,
        ))) by (nonlinear_arith);
    }
}

/// Summing in reverse order gives the same sum; `g` is `f` reversed.
proof fn lemma_sum_reverse(f: spec_fn(int) -> int, g: spec_fn(int) -> int, n: nat)
    requires
        forall|i: int| 0 <= i < n ==> #[trigger] g(i) == f(n - 1 - i),
    ensures
        sum_to(g, n) == sum_to(f, n),
    decreases n,
{
    if n > 0 {
        let k = (n - 1) as nat;
        let g1 = |r: int| g(1 + r);
        lemma_sum_split(g, g1, 1, k);
        assert(1 + k == n);
        assert forall|i: int| 0 <= i < k implies #[trigger] g1(i) == f(k - 1 - i) by {
            assert(g(1 + i) == f(n - 1 - (1 + i)));
        }
        lemma_sum_reverse(f, g1, k);
        assert(sum_to(g, 0) == 0);
        assert(g(0) == f(n - 1));
    }
}

/// Row `i` of a double sum: `h(i, 0) + ... + h(i, m - 1)`.
pub open spec fn row_sum(h: spec_fn(int, int) -> int, i: int, m: nat) -> int {
    sum_to(|j: int| h(i, j), m)
}

/// Column `j` of a double sum: `h(0, j) + ... + h(n - 1, j)`.
pub open spec fn column_sum(h: spec_fn(int, int) -> int, j: int, n: nat) -> int {
    sum_to(|i: int| h(i, j), n)
}

/// The order of a double sum can be swapped.
proof fn lemma_sum_swap(h: spec_fn(int, int) -> int, n: nat, m: nat)
    ensures
        sum_to(|i: int| row_sum(h, i, m), n) == sum_to(|j: int| column_sum(h, j, n), m),
    decreases n,
{
    if n == 0 {
        let zero_cols = |j: int| column_sum(h, j, 0);
        assert forall|j: int| 0 <= j < m implies #[trigger] zero_cols(j) == 0 * zero_cols(j) by {}
        lemma_sum_scale(zero_cols, zero_cols, 0, m);
        assert(zero_cols =~= (|j: int| column_sum(h, j, n)));
    } else {
        let k = (n - 1) as nat;
        lemma_sum_swap(h, k, m);
        let prev = |j: int| column_sum(h, j, k);
        let last = |j: int| h(k as int, j);
        let cols = |j: int| column_sum(h, j, n);
        assert forall|j: int| 0 <= j < m implies #[trigger] cols(j) == prev(j) + last(j) by {
            assert(column_sum(h, j, n) == sum_to(|i: int| h(i, j), k) + h(k as int, j));
        }
        lemma_sum_add(prev, last, cols, m);
        assert(row_sum(h, k as int, m) == sum_to(last, m)) by {
            lemma_sum_ext(|j: int| h(k as int, j), last, m);
        }
        let rows = |i: int| row_sum(h, i, m);
        assert(sum_to(rows, n) == sum_to(rows, k) + rows(k as int));
        assert(sum_to(rows, k) == sum_to(prev, m));
        assert(sum_to(cols, m) == sum_to(prev, m) + sum_to(last, m));
        assert(rows =~= (|i: int| row_sum(h, i, m)));
        assert(cols =~= (|j: int| column_sum(h, j, n)));
    }
}

/// The bits of `v` below `n`, each at its weight, sum to `v mod 2^n`.
proof fn lemma_sum_bits(v: nat, n: nat)
    ensures
        sum_to(|p: int| (bit_of(v, p as nat) * pow2(p as nat)) as int, n) == v % pow2(n),
    decreases n,
{
    if n == 0 {
        lemma2_to64();
    } else {
        let k = (n - 1) as nat;
        lemma_sum_bits(v, k);
        lemma_pow2_pos(k);
        lemma_pow2_unfold(n);
        lemma_mod_breakdown(v as int, pow2(k) as int, 2);
        assert(pow2(k) * 2 == pow2(n));
        assert(pow2(k) * ((v / pow2(k)) % 2) == bit_of(v, k) * pow2(k)) by (nonlinear_arith);
    }
}

/// Rows of `t` consecutive terms make up the first `n t` terms.
pub(crate) proof fn lemma_sum_rows(f: spec_fn(int) -> int, t: nat, n: nat)
    ensures
        sum_to(|c: int| sum_to(|r: int| f(c * t + r), t), n) == sum_to(f, n * t),
    decreases n,
{
    if n == 0 {
        assert(n * t == 0) by (nonlinear_arith)
            requires
                n == 0,
        ;
    } else {
        let k = (n - 1) as nat;
        lemma_sum_rows(f, t, k);
        assert(k * t + t == n * t) by (nonlinear_arith)
            requires
                k == n - 1,
        ;
        let row = |r: int| f(k * t + r);
        lemma_sum_split(f, row, k * t, t);
        let rows = |c: int| sum_to(|r: int| f(c * t + r), t);
        assert(rows(k as int) == sum_to(row, t)) by {
            lemma_sum_ext(|r: int| f(k as int * t + r), row, t);
        }
        assert(sum_to(rows, n) == sum_to(rows, k) + rows(k as int));
        assert(sum_to(rows, k) == sum_to(f, k * t));
        assert(sum_to(f, n * t) == sum_to(f, k * t) + sum_to(row, t));
        assert(rows =~= (|c: int| sum_to(|r: int| f(c * t + r), t)));
    }
}

/// A bit at a position `p` of a number below `2^p` is zero.
pub(crate) proof fn lemma_high_bit_zero(v: nat, p: nat)
    requires
        v < pow2(p),
    ensures
        bit_of(v, p) == 0,
{
    lemma_pow2_pos(p);
    lemma_basic_div(v as int, pow2(p) as int);
}

/// The bits that column `t_i` reads, entry `c` weighted by `2^(c t)`.
pub open spec fn comb_column(s: Scalar, t: nat, t_i: nat) -> int {
    sum_to(
        |c: int| (gotti_bit(s, t, t_i, c as nat) * pow2((c * t) as nat)) as int,
        gotti_column_len(t),
    )
}

/// The columns of the comb, column `t_i` weighted by `2^(t - 1 - t_i)`.
pub open spec fn comb_value(s: Scalar, t: nat) -> int {
    sum_to(|t_i: int| pow2((t - 1 - t_i) as nat) * comb_column(s, t, t_i as nat), t)
}

/// The comb reads the whole scalar and nothing else: for a nonzero scalar
/// below `2^253`, its columns, weighted as the doublings between them and
/// the doubled basis points weigh them, sum to the scalar.
pub proof fn lemma_comb_value(s: Scalar, t: nat)
    requires
        t >= 1,
        scalar_value(s) < pow2(253),
        !mont_is_zero(s),
    ensures
        comb_value(s, t) == scalar_value(s),
{
    let v = scalar_value(s);
    let cl = gotti_column_len(t);
    let bit = |p: int| (bit_of(v, p as nat) * pow2(p as nat)) as int;
    let h = |t_i: int, c: int| bit(c * t + (t - 1 - t_i));
    // each weighted column is the row of h for that column
    let weighted = |t_i: int| pow2((t - 1 - t_i) as nat) * comb_column(s, t, t_i as nat);
    let by_rows = |t_i: int| row_sum(h, t_i, cl);
    assert forall|t_i: int| 0 <= t_i < t implies #[trigger] weighted(t_i) == by_rows(t_i) by {
        let w = pow2((t - 1 - t_i) as nat) as int;
        let col = |c: int| (gotti_bit(s, t, t_i as nat, c as nat) * pow2((c * t) as nat)) as int;
        let row = |c: int| h(t_i, c);
        assert forall|c: int| 0 <= c < cl implies #[trigger] row(c) == w * col(c) by {
            let p = c * t + (t - 1 - t_i);
            assert(c * t >= 0) by (nonlinear_arith)
                requires
                    c >= 0,
            ;
            lemma_pow2_adds((c * t) as nat, (t - 1 - t_i) as nat);
            assert(gotti_pos(t, t_i as nat, c as nat) == p);
            if p >= 253 {
                if p > 253 {
                    lemma_pow2_strictly_increases(253, p as nat);
                }
                lemma_high_bit_zero(v, p as nat);
            }
            let g = gotti_bit(s, t, t_i as nat, c as nat);
            assert(w * (g * pow2((c * t) as nat)) == g * (pow2((c * t) as nat) * w)) by (nonlinear_arith);
        }
        lemma_sum_scale(col, row, w, cl);
        assert(comb_column(s, t, t_i as nat) == sum_to(col, cl));
        lemma_sum_ext(row, |j: int| h(t_i, j), cl);
    }
    lemma_sum_ext(weighted, by_rows, t);
    // swap the two sums: column c of h is row c of the bits, reversed
    lemma_sum_swap(h, t, cl);
    let by_columns = |c: int| column_sum(h, c, t);
    let rows = |c: int| sum_to(|r: int| bit(c * t + r), t);
    assert forall|c: int| 0 <= c < cl implies #[trigger] by_columns(c) == rows(c) by {
        let f = |r: int| bit(c * t + r);
        let g = |i: int| h(i, c);
        assert forall|i: int| 0 <= i < t implies #[trigger] g(i) == f(t - 1 - i) by {}
        lemma_sum_reverse(f, g, t);
        lemma_sum_ext(|i: int| h(i, c), g, t);
        lemma_sum_ext(|r: int| bit(c * t + r), f, t);
    }
    lemma_sum_ext(by_columns, rows, cl);
    // the rows make up the bits below cl t
    lemma_sum_rows(bit, t, cl);
    lemma_sum_bits(v, cl * t);
    lemma_column_len_bound(t);
    assert(cl * t >= 253) by {
        lemma_fundamental_div_mod((253 + t - 1) as int, t as int);
        lemma_mod_bound((253 + t - 1) as int, t as int);
        assert(cl * t >= 253) by (nonlinear_arith)
            requires
                (253 + t - 1) == t * cl + (253 + t - 1) % (t as int),
                (253 + t - 1) % (t as int) < t,
        ;
    }
    if cl * t > 253 {
        lemma_pow2_strictly_increases(253, cl * t);
    }
    lemma_small_mod(v, pow2(cl * t));
    assert(comb_value(s, t) == sum_to(weighted, t));
}

/// Bit `c mod b` of chunk `c / b`, or zero past the last chunk: entry `c`
/// of a column as the chunks of `gotti_window` hold it.
pub open spec fn chunk_bit(chunks: Seq<nat>, b: nat, c: nat) -> nat {
    if c / b < chunks.len() {
        bit_of(chunks[(c / b) as int], c % b)
    } else {
        0
    }
}

/// A column read back from its chunks, entry `c` weighted by `2^(c t)`.
pub open spec fn decoded_column(chunks: Seq<nat>, t: nat, b: nat) -> int {
    sum_to(|c: int| (chunk_bit(chunks, b, c as nat) * pow2((c * t) as nat)) as int, gotti_column_len(t))
}

/// The scalar read back from the chunked columns, column `t_i` weighted by
/// `2^(t - 1 - t_i)`.
pub open spec fn comb_decode(columns: Seq<Seq<nat>>, t: nat, b: nat) -> int {
    sum_to(|t_i: int| pow2((t - 1 - t_i) as nat) * decoded_column(columns[t_i], t, b), t)
}

/// A sum of zero terms is zero.
pub(crate) proof fn lemma_sum_zero(f: spec_fn(int) -> int, n: nat)
    requires
        forall|i: int| 0 <= i < n ==> #[trigger] f(i) == 0,
    ensures
        sum_to(f, n) == 0,
    decreases n,
{
    if n > 0 {
        lemma_sum_zero(f, (n - 1) as nat);
    }
}

/// Adding a multiple of `2^k` leaves the bits below `k` as they are.
pub(crate) proof fn lemma_bit_of_add_high(x: nat, m: nat, j: nat, k: nat)
    requires
        j < k,
    ensures
        bit_of(x + m * pow2(k), j) == bit_of(x, j),
{
    let e = (k - j) as nat;
    lemma_pow2_adds(j, e);
    lemma_pow2_pos(j);
    lemma_pow2_unfold(e);
    let y = m * pow2(e);
    assert(m * pow2(k) == y * pow2(j)) by (nonlinear_arith)
        requires
            pow2(k) == pow2(j) * pow2(e),
            y == m * pow2(e),
    ;
    lemma_hoist_over_denominator(x as int, y as int, pow2(j));
    assert(y == 2 * (m * pow2((e - 1) as nat))) by (nonlinear_arith)
        requires
            y == m * pow2(e),
            pow2(e) == 2 * pow2((e - 1) as nat),
    ;
    lemma_mod_multiples_vanish((m * pow2((e - 1) as nat)) as int, (x / pow2(j)) as int, 2);
}

/// A bit `m` set at `k` above a value below `2^k` is bit `k`.
pub(crate) proof fn lemma_bit_of_top(x: nat, m: nat, k: nat)
    requires
        x < pow2(k),
        m <= 1,
    ensures
        bit_of(x + m * pow2(k), k) == m,
{
    lemma_pow2_pos(k);
    lemma_fundamental_div_mod_converse((x + m * pow2(k)) as int, pow2(k) as int, m as int, x as int);
    lemma_small_mod(m, 2);
}

/// Packed bits (each 0 or 1) stay below `2^len`, and bit `j` of the packed
/// value is bit `j` of the sequence, or zero past its end.
proof fn lemma_pack_bits(bits: Seq<nat>, j: nat)
    requires
        forall|i: int| 0 <= i < bits.len() ==> #[trigger] bits[i] <= 1,
    ensures
        pack_bits(bits) < pow2(bits.len()),
        j < bits.len() ==> bit_of(pack_bits(bits), j) == bits[j as int],
        j >= bits.len() ==> bit_of(pack_bits(bits), j) == 0,
    decreases bits.len(),
{
    let n = bits.len();
    if n == 0 {
        lemma2_to64();
        lemma_pow2_pos(j);
        lemma_small_mod(0, 2);
        assert(0nat / pow2(j) == 0);
    } else {
        let init = bits.drop_last();
        let k = (n - 1) as nat;
        lemma_pack_bits(init, j);
        let x = pack_bits(init);
        let m = bits.last();
        lemma_pow2_unfold(n);
        assert(x + m * pow2(k) < pow2(n)) by (nonlinear_arith)
            requires
                x < pow2(k),
                m <= 1,
                pow2(n) == 2 * pow2(k),
        ;
        if j < k {
            lemma_bit_of_add_high(x, m, j, k);
            assert(init[j as int] == bits[j as int]);
        } else if j == k {
            lemma_bit_of_top(x, m, k);
        } else {
            if j > n {
                lemma_pow2_strictly_increases(n, j);
            }
            lemma_high_bit_zero(pack_bits(bits), j);
        }
    }
}

/// Entry `c` of a column read back from its chunks is the bit that the comb
/// reads there.
proof fn lemma_chunk_bit(s: Scalar, t: nat, b: nat, t_i: nat, c: nat)
    requires
        t_i < t,
        b >= 1,
    ensures
        chunk_bit(packed_chunks(gotti_column(s, t, t_i), b), b, c) == gotti_bit(s, t, t_i, c),
{
    let bits = gotti_column(s, t, t_i);
    let chunks = packed_chunks(bits, b);
    let l = bits.len();
    let q = c / b;
    let j = c % b;
    lemma_fundamental_div_mod(c as int, b as int);
    lemma_mod_bound(c as int, b as int);
    let lq = l / b;
    let lr = l % b;
    lemma_fundamental_div_mod(l as int, b as int);
    lemma_mod_bound(l as int, b as int);
    assert(lq * b + lr == l) by (nonlinear_arith)
        requires
            l == b * lq + lr,
    ;
    lemma_window_count(lq, lr, b, l);
    lemma_column_bits(t, t_i, c);
    assert forall|i: int| 0 <= i < bits.len() implies #[trigger] bits[i] <= 1 by {
        let pw = pow2(gotti_pos(t, t_i, i as nat) as nat);
        lemma_pow2_pos(gotti_pos(t, t_i, i as nat) as nat);
        lemma_mod_bound((scalar_value(s) / pw) as int, 2);
    }
    if mont_is_zero(s) {
        assert(chunks.len() == 0) by {
            assert(l == 0);
            lemma_window_count(0, 0, b, 0);
        }
    } else if c < l {
        assert(q < chunks.len()) by {
            if q > lq {
                assert(c >= (lq + 1) * b) by (nonlinear_arith)
                    requires
                        c == b * q + j,
                        q >= lq + 1,
                        j >= 0,
                ;
                assert((lq + 1) * b > l) by (nonlinear_arith)
                    requires
                        lq * b + lr == l,
                        lr < b,
                ;
            }
            if q == lq {
                assert(j < lr) by (nonlinear_arith)
                    requires
                        c == b * q + j,
                        q == lq,
                        lq * b + lr == l,
                        c < l,
                ;
            }
        }
        let end: int = if (q + 1) * b <= l { ((q + 1) * b) as int } else { l as int };
        let sub = bits.subrange((q * b) as int, end);
        assert(q * b + j == c) by (nonlinear_arith)
            requires
                c == b * q + j,
        ;
        assert(c < end) by (nonlinear_arith)
            requires
                q * b + j == c,
                j < b,
                c < l,
                end == if (q + 1) * b <= l { ((q + 1) * b) as int } else { l as int },
        ;
        assert(chunks[q as int] == pack_bits(sub));
        assert forall|i: int| 0 <= i < sub.len() implies #[trigger] sub[i] <= 1 by {
            assert(sub[i] == bits[q * b + i]);
        }
        lemma_pack_bits(sub, j);
        assert(sub[j as int] == bits[c as int]);
    } else {
        if q < chunks.len() {
            assert(q == lq && lr > 0) by {
                if q < lq {
                    assert(c < l) by (nonlinear_arith)
                        requires
                            c == b * q + j,
                            j < b,
                            q + 1 <= lq,
                            lq * b + lr == l,
                            lr >= 0,
                    ;
                }
            }
            assert((q + 1) * b > l) by (nonlinear_arith)
                requires
                    q == lq,
                    lq * b + lr == l,
                    lr < b,
            ;
            let sub = bits.subrange((q * b) as int, l as int);
            assert(q * b <= l) by (nonlinear_arith)
                requires
                    q == lq,
                    lq * b + lr == l,
                    lr >= 0,
            ;
            assert(chunks[q as int] == pack_bits(sub));
            assert(j >= sub.len()) by (nonlinear_arith)
                requires
                    c == b * q + j,
                    c >= l,
                    sub.len() == l - q * b,
            ;
            assert forall|i: int| 0 <= i < sub.len() implies #[trigger] sub[i] <= 1 by {
                assert(sub[i] == bits[q * b + i]);
            }
            lemma_pack_bits(sub, j);
        }
    }
}

/// The chunked comb columns give the scalar back: read entry by entry from
/// the chunks of `b` bits, weighted as the comb weighs them, they sum to
/// the scalar.
pub proof fn lemma_comb_decode(s: Scalar, t: nat, b: nat)
    requires
        t >= 1,
        b >= 1,
        s.wf(),
    ensures
        comb_decode(
            Seq::new(t, |t_i: int| packed_chunks(gotti_column(s, t, t_i as nat), b)),
            t,
            b,
        ) == scalar_value(s),
{
    let cols = Seq::new(t, |t_i: int| packed_chunks(gotti_column(s, t, t_i as nat), b));
    lemma_scalar_value_montgomery(s);
    lemma_fr_modulus_bound();
    let weighted = |t_i: int| pow2((t - 1 - t_i) as nat) * comb_column(s, t, t_i as nat);
    let decoded = |t_i: int| pow2((t - 1 - t_i) as nat) * decoded_column(cols[t_i], t, b);
    assert forall|t_i: int| 0 <= t_i < t implies #[trigger] decoded(t_i) == weighted(t_i) by {
        let f = |c: int| (chunk_bit(cols[t_i], b, c as nat) * pow2((c * t) as nat)) as int;
        let g = |c: int| (gotti_bit(s, t, t_i as nat, c as nat) * pow2((c * t) as nat)) as int;
        assert forall|c: int| 0 <= c < gotti_column_len(t) implies #[trigger] f(c) == g(c) by {
            lemma_chunk_bit(s, t, b, t_i as nat, c as nat);
        }
        lemma_sum_ext(f, g, gotti_column_len(t));
    }
    lemma_sum_ext(decoded, weighted, t);
    if mont_is_zero(s) {
        assert forall|t_i: int| 0 <= t_i < t implies #[trigger] weighted(t_i) == 0 by {
            let g = |c: int| (gotti_bit(s, t, t_i as nat, c as nat) * pow2((c * t) as nat)) as int;
            assert forall|c: int| 0 <= c < gotti_column_len(t) implies #[trigger] g(c) == 0 by {}
            lemma_sum_zero(g, gotti_column_len(t));
            assert(comb_column(s, t, t_i as nat) == 0);
        }
        lemma_sum_zero(weighted, t);
    } else {
        lemma_comb_value(s, t);
    }
    assert(comb_value(s, t) == sum_to(weighted, t));
    assert(comb_decode(cols, t, b) == sum_to(decoded, t));
}

/// A helper type that contains all the context required for the comb
/// multiplication: `t` columns, read in windows of `b` bits.
pub struct WnafGottiContext {
    pub t: usize,
    pub b: usize,
}

impl WnafGottiContext {
    /// The window size lies where the constructor admits it.
    pub open spec fn wf(&self) -> bool {
        2 <= self.b < 64
    }

    /// Constructs a new context with `t` columns and windows of `b` bits,
    /// which must satisfy `2 <= b < 64`.
    pub fn new(t: usize, b: usize) -> (r: Self)
        requires
            2 <= b < 64,
        ensures
            r.t == t,
            r.b == b,
            r.wf(),
    {
        Self { t, b }
    }

    /// The low `t` bits of `num` in reverse order.
    pub fn reverse_bits(&self, num: u32, t: usize) -> (r: u32)
        ensures
            r == reversed_bits(num as nat, t as nat) % 0x1_0000_0000,
    {
        let ghost num0 = num as nat;
        let mut num = num;
        let mut reversed: u32 = 0;
        let mut k: usize = 0;
        proof {
            lemma2_to64();
        }
        while k < t
            invariant
                k <= t,
                reversed == reversed_bits(num0, k as nat) % 0x1_0000_0000,
                num == num0 / pow2(k as nat),
            decreases t - k,
        {
            let ghost s = reversed_bits(num0, k as nat);
            let ghost r0 = reversed;
            let ghost n0 = num;
            reversed <<= 1;
            reversed |= num & 1;
            num >>= 1;
            proof {
                assert(reversed as int == (2 * (r0 as int) + (n0 % 2) as int) % 0x1_0000_0000) by (
                bit_vector)
                    requires
                        reversed == ((r0 << 1u32) | (n0 & 1u32)),
                ;
                assert(num == n0 / 2) by (bit_vector)
                    requires
                        num == n0 >> 1u32,
                ;
                let m = 0x1_0000_0000int;
                lemma_mul_mod_noop_right(2, s as int, m);
                lemma_add_mod_noop(2 * (s as int % m), (n0 % 2) as int, m);
                lemma_add_mod_noop(2 * (s as int), (n0 % 2) as int, m);
                lemma_mod_twice((n0 % 2) as int, m);
                lemma_small_mod((n0 % 2) as nat, m as nat);
                lemma_pow2_pos(k as nat);
                lemma_pow2_adds(k as nat, 1);
                lemma2_to64();
                lemma_div_denominator(num0 as int, pow2(k as nat) as int, 2);
            }
            k += 1;
        }
        reversed
    }

    /// The table with entry `i` moved to `rev_index(i, b)`, each entry a clone;
    /// a position that no entry reaches holds a clone of a clone of entry 0.
    pub fn rearrange_table<G: Clone>(&self, table: &[G]) -> (r: Vec<G>)
        requires
            table.len() >= 1,
            forall|i: int| 0 <= i < table.len() ==> #[trigger] rev_index(i, self.b as nat) < table.len(),
        ensures
            r.len() == table.len(),
            forall|j: int|
                0 <= j < table.len() ==> {
                    let s = source_index(table.len() as nat, self.b as nat, j as nat);
                    &&& s >= 0 ==> cloned(table@[s], #[trigger] r@[j])
                    &&& s < 0 ==> twice_cloned(table@[0], r@[j])
                },
            clone_is_copy::<G>() ==> r@ == rearranged(table@, self.b as nat),
    {
        let first = table[0].clone();
        let mut table1 = vec![first; table.len()];
        let ghost b = self.b as nat;
        let ghost n = table.len();
        proof {
            assert forall|j: int| 0 <= j < n implies twice_cloned(table@[0], #[trigger] table1@[j]) by {
                assert(cloned(table@[0], first) && cloned(first, table1@[j]));
            }
        }
        let mut i: usize = 0;
        while i < table.len()
            invariant
                b == self.b,
                n == table.len(),
                table1.len() == n,
                i <= n,
                forall|k: int| 0 <= k < n ==> #[trigger] rev_index(k, b) < n,
                forall|j: int|
                    0 <= j < n ==> {
                        let s = source_index(i as nat, b, j as nat);
                        &&& s >= 0 ==> cloned(table@[s], #[trigger] table1@[j])
                        &&& s < 0 ==> twice_cloned(table@[0], table1@[j])
                    },
            decreases n - i,
        {
            assert(rev_index(i as int, b) < n);
            let reversed_index = self.reverse_bits(i as u32, self.b) as usize;
            let entry = table[i].clone();
            table1[reversed_index] = entry;
            i += 1;
        }
        proof {
            if clone_is_copy::<G>() {
                let rr = rearranged(table@, b);
                assert forall|j: int| 0 <= j < n implies #[trigger] table1@[j] == rr[j] by {
                    let s = source_index(n as nat, b, j as nat);
                    if s >= 0 {
                        assert(cloned(table@[s], table1@[j]));
                    } else {
                        assert(twice_cloned(table@[0], table1@[j]));
                        let c = choose|c: G| cloned(table@[0], c) && cloned(c, table1@[j]);
                        assert(cloned(table@[0], c));
                        assert(cloned(c, table1@[j]));
                    }
                }
                assert(table1@ =~= rr);
            }
        }
        table1
    }

    /// Writes over the first `len` entries of `table` the window table of the
    /// basis points `basis[start..end]`.
    fn fill_window(&self, basis: &[Point], start: usize, end: usize, table: &mut Vec<Point>, len: usize)
        requires
            start <= end <= basis.len(),
            len <= old(table).len(),
        ensures
            final(table).len() == old(table).len(),
            final(table)@.take(len as int) == filled(
                basis@.subrange(start as int, end as int),
                old(table)@.take(len as int),
            ),
            final(table)@.skip(len as int) == old(table)@.skip(len as int),
        decreases end - start,
    {
        let ghost bs = basis@.subrange(start as int, end as int);
        let ghost old_t = table@;
        if start == end {
            let mut i: usize = 0;
            while i < len
                invariant
                    len <= table.len(),
                    table.len() == old_t.len(),
                    i <= len,
                    forall|k: int| 0 <= k < i ==> #[trigger] table@[k] == identity_point(),
                    forall|k: int| len <= k < table.len() ==> #[trigger] table@[k] == old_t[k],
                decreases len - i,
            {
                table[i] = point_zero();
                i += 1;
            }
            proof {
                assert(bs.len() == 0);
                assert(table@.take(len as int) =~= filled(bs, old_t.take(len as int)));
                assert(table@.skip(len as int) =~= old_t.skip(len as int));
            }
            return;
        }
        let l = len;
        let h = l / 2;
        self.fill_window(basis, start + 1, end, table, h);
        let ghost mid = table@;
        let ghost lo = filled(basis@.subrange(start + 1, end as int), old_t.take(h as int));
        proof {
            lemma_filled_len(basis@.subrange(start + 1, end as int), old_t.take(h as int));
            assert(old(table)@.take(h as int) =~= old_t.take(h as int));
            assert forall|k: int| 0 <= k < h implies #[trigger] mid[k] == lo[k] by {
                assert(mid.take(h as int)[k] == mid[k]);
            }
            assert forall|k: int| h <= k < mid.len() implies #[trigger] mid[k] == old_t[k] by {
                assert(mid.skip(h as int)[k - h] == old_t.skip(h as int)[k - h]);
            }
        }
        let mut i: usize = 0;
        while i < h
            invariant
                h == l / 2,
                l <= table.len(),
                table.len() == old_t.len(),
                lo.len() == h,
                start < end <= basis.len(),
                i <= h,
                forall|k: int| 0 <= k < h ==> #[trigger] table@[k] == lo[k],
                forall|k: int| 0 <= k < i ==> #[trigger] table@[h + k] == edwards_add(lo[k], basis@[start as int]),
                forall|k: int| h + i <= k < table.len() ==> #[trigger] table@[k] == old_t[k],
            decreases h - i,
        {
            let e = point_add(&table[i], &basis[start]);
            table[h + i] = e;
            i += 1;
        }
        proof {
            let bs1 = basis@.subrange(start + 1, end as int);
            assert(bs.drop_first() =~= bs1);
            assert(bs[0] == basis@[start as int]);
            assert(old_t.take(l as int).take(h as int) =~= old_t.take(h as int));
            let f = filled(bs, old_t.take(l as int));
            assert(f == lo + Seq::new(h as nat, |k: int| edwards_add(lo[k], bs[0])) + old_t.take(
                l as int,
            ).skip((2 * h) as int));
            lemma_filled_len(bs, old_t.take(l as int));
            assert forall|k: int| 0 <= k < l implies #[trigger] table@.take(l as int)[k] == f[k] by {
                if k < h {
                    assert(table@[k] == lo[k]);
                } else if k < 2 * h {
                    assert(table@[h + (k - h)] == edwards_add(lo[k - h], basis@[start as int]));
                } else {
                    assert(table@[k] == old_t[k]);
                }
            }
            assert(table@.take(l as int) =~= f);
            assert(table@.skip(l as int) =~= old_t.skip(l as int));
        }
    }

    /// The comb table for `base`: for each window of `b` columns, the sums of
    /// every subset of its basis points (the basis point `i` being `base`
    /// doubled `t i` times), laid out by `fill_window` and moved by
    /// `rearrange_table`.
    pub fn table(&self, base: Point) -> (r: Vec<Point>)
        requires
            self.wf(),
            1 <= self.t <= usize::MAX - 253,
            gotti_window_count(self.t as nat, self.b as nat) * pow2(self.b as nat) <= usize::MAX,
        ensures
            r.len() == gotti_window_count(self.t as nat, self.b as nat) * pow2(self.b as nat),
            forall|k: int|
                0 <= k < r.len() ==> #[trigger] r@[k] == gotti_table_entry(
                    base,
                    self.t as nat,
                    self.b as nat,
                    k as nat,
                ),
            self.b <= 32 ==> forall|wi: nat, v: nat|
                wi < gotti_window_count(self.t as nat, self.b as nat) && v < pow2(self.b as nat)
                    ==> r@[(wi * pow2(self.b as nat) + v) as int] == #[trigger] comb_window_entry(
                    base,
                    self.t as nat,
                    self.b as nat,
                    wi,
                    v,
                ),
    {
        let ghost t = self.t as nat;
        let ghost b = self.b as nat;
        let ghost ws = pow2(b);
        let ghost nw = gotti_window_count(t, b);
        let ghost basis = gotti_basis(base, t);
        proof {
            lemma_pow2_pos(b);
            lemma_div_is_ordered(t as int, (253 + t - 1) as int, t as int);
            lemma_div_by_self(t as int);
            assert(gotti_column_len(t) >= 1);
            assert(253 + t - 1 <= 253 * t) by (nonlinear_arith)
                requires
                    t >= 1,
            ;
            lemma_div_is_ordered((253 + t - 1) as int, (253 * t) as int, t as int);
            lemma_div_multiples_vanish(253, t as int);
            assert(t * 253 == 253 * t) by (nonlinear_arith);
            assert(gotti_column_len(t) <= 253);
            lemma_div_is_ordered(b as int, (gotti_column_len(t) + b - 1) as int, b as int);
            lemma_div_by_self(b as int);
            assert(ws <= nw * ws) by (nonlinear_arith)
                requires
                    nw >= 1,
            ;
            lemma_usize_shift(b);
        }
        let fr_bits: usize = 253;
        let window_size: usize = 1 << self.b;
        let points_per_column = (fr_bits + self.t - 1) / self.t;
        let window_count = (points_per_column + self.b - 1) / self.b;
        let mut table_basis: Vec<Point> = Vec::with_capacity(points_per_column);
        let mut dbl = base.clone();
        table_basis.push(base);
        let mut i: usize = 1;
        proof {
            assert(t * 0 == 0);
        }
        while i < points_per_column
            invariant
                t == self.t,
                points_per_column == gotti_column_len(t),
                1 <= i <= points_per_column,
                table_basis.len() == i,
                dbl == doubled(base, t * ((i - 1) as nat)),
                forall|k: int| 0 <= k < i ==> #[trigger] table_basis@[k] == doubled(base, t * (k as nat)),
            decreases points_per_column - i,
        {
            let mut j: usize = 0;
            while j < self.t
                invariant
                    t == self.t,
                    j <= t,
                    dbl == doubled(base, t * ((i - 1) as nat) + (j as nat)),
                decreases t - j,
            {
                dbl = point_double(&dbl);
                j += 1;
            }
            proof {
                assert(t * ((i - 1) as nat) + t == t * (i as nat)) by (nonlinear_arith)
                    requires
                        i >= 1,
                ;
            }
            table_basis.push(dbl.clone());
            i += 1;
        }
        proof {
            assert(table_basis@ =~= basis);
        }
        let mut nn_table = vec![point_zero(); window_count * window_size];
        let mut w: usize = 0;
        while w < window_count
            invariant
                t == self.t,
                b == self.b,
                2 <= b < 64,
                window_size == ws,
                ws == pow2(b),
                ws >= 1,
                window_count == nw,
                nw == gotti_window_count(t, b),
                points_per_column == gotti_column_len(t),
                points_per_column <= 253,
                nw * ws <= usize::MAX,
                table_basis@ == basis,
                basis == gotti_basis(base, t),
                w <= nw,
                nn_table.len() == nw * ws,
                forall|k: int|
                    0 <= k < w * ws ==> #[trigger] nn_table@[k] == gotti_table_entry(base, t, b, k as nat),
            decreases nw - w,
        {
            proof {
                lemma_fundamental_div_mod((points_per_column + b - 1) as int, b as int);
                lemma_mod_bound((points_per_column + b - 1) as int, b as int);
                assert(nw == (points_per_column + b - 1) / (b as int));
                assert(nw * b == b * nw) by (nonlinear_arith);
                assert(w * b < points_per_column) by (nonlinear_arith)
                    requires
                        w < nw,
                        nw * b <= points_per_column + b - 1,
                        b >= 1,
                ;
                assert((w + 1) * b <= 253 * 64) by (nonlinear_arith)
                    requires
                        w * b < points_per_column,
                        points_per_column <= 253,
                        b < 64,
                ;
            }
            proof {
                assert((w + 1) * b == w * b + b) by (nonlinear_arith);
            }
            let start = w * self.b;
            let mut end = (w + 1) * self.b;
            if end > table_basis.len() {
                end = table_basis.len();
            }
            let mut table = vec![point_zero(); window_size];
            let ghost zeros = table@;
            proof {
                assert(zeros =~= Seq::new(ws, |k: int| identity_point()));
                assert(zeros.take(ws as int) =~= zeros);
            }
            let tb = table_basis.as_slice();
            assert(tb@ == table_basis@);
            self.fill_window(tb, start, end, &mut table, window_size);
            let ghost wt = gotti_window_table(base, t, b, w as nat);
            proof {
                assert(table_basis@.subrange(start as int, end as int) =~= gotti_window_basis(
                    base,
                    t,
                    b,
                    w as nat,
                ));
                assert(table@.take(ws as int) =~= table@);
                assert(table@ == filled(tb@.subrange(start as int, end as int), zeros.take(ws as int)));
                assert(tb@.subrange(start as int, end as int) == gotti_window_basis(base, t, b, w as nat));
                assert(zeros.take(ws as int) =~= Seq::new(pow2(b), |k: int| identity_point()));
                assert(table@ == wt);
                assert(table.len() == ws);
                assert forall|k: int| 0 <= k < table.len() implies #[trigger] rev_index(k, b) < table.len() by {
                    lemma_reversed_bits_bound((k as u32) as nat, b);
                    lemma_mod_decreases(reversed_bits((k as u32) as nat, b), 0x1_0000_0000);
                }
            }
            let ts = table.as_slice();
            assert(ts@ == table@);
            let new_table = self.rearrange_table(ts);
            let mut j: usize = 0;
            while j < new_table.len()
                invariant
                    b == self.b,
                    window_size == ws,
                    ws == pow2(b),
                    ws >= 1,
                    new_table.len() == ws,
                    w < nw,
                    nn_table.len() == nw * ws,
                    wt == gotti_window_table(base, t, b, w as nat),
                    wt.len() == ws,
                    forall|jj: int|
                        0 <= jj < ws ==> {
                            let s = source_index(ws, b, jj as nat);
                            &&& s >= 0 ==> cloned(wt[s], #[trigger] new_table@[jj])
                            &&& s < 0 ==> twice_cloned(wt[0], new_table@[jj])
                        },
                    j <= ws,
                    forall|k: int|
                        0 <= k < w * ws + j ==> #[trigger] nn_table@[k] == gotti_table_entry(base, t, b, k as nat),
                decreases ws - j,
            {
                proof {
                    assert(w * ws + j < nw * ws) by (nonlinear_arith)
                        requires
                            w < nw,
                            j < ws,
                    ;
                    lemma_table_index(w as nat, j as nat, ws);
                    let s = source_index(ws, b, j as nat);
                    if s < 0 {
                        let c = choose|c: Point| cloned(wt[0], c) && cloned(c, new_table@[j as int]);
                        assert(c == wt[0]);
                        assert(new_table@[j as int] == wt[0]);
                    } else {
                        assert(new_table@[j as int] == wt[s]);
                    }
                    let kk = (w * ws + j) as nat;
                    assert(kk / ws == w);
                    assert(kk % ws == j);
                    assert(gotti_window_table(base, t, b, kk / ws) == wt);
                    assert(new_table@[j as int] == gotti_table_entry(base, t, b, kk));
                }
                let ghost before = nn_table@;
                let idx = w * window_size + j;
                nn_table[idx] = new_table[j];
                proof {
                    assert forall|k: int| 0 <= k < w * ws + j + 1 implies #[trigger] nn_table@[k]
                        == gotti_table_entry(base, t, b, k as nat) by {
                        if k < idx {
                            assert(nn_table@[k] == before[k]);
                        }
                    }
                }
                j += 1;
            }
            w += 1;
            proof {
                assert((w - 1) * ws + ws == w * ws) by (nonlinear_arith)
                    requires
                        w >= 1,
                ;
            }
        }
        proof {
            assert(nw * ws == window_count * window_size);
            if b <= 32 {
                assert forall|wi: nat, v: nat| wi < nw && v < ws implies nn_table@[(wi * ws + v) as int]
                    == #[trigger] comb_window_entry(base, t, b, wi, v) by {
                    assert(wi * ws + v < nw * ws) by (nonlinear_arith)
                        requires
                            wi < nw,
                            v < ws,
                    ;
                    lemma_gotti_table_subset_sums(base, t, b, wi, v);
                }
            }
        }
        nn_table
    }

    /// Canonical limbs of `scalar`, without the zero limbs above its top bit.
    fn scalar_to_u64(scalar: &Scalar) -> (r: Vec<u64>)
        requires
            scalar.wf(),
        ensures
            r@ == scalar_limbs(*scalar),
            limbs_value(r@) == scalar_value(*scalar),
            scalar_value(*scalar) < fr_modulus(),
            r.len() <= 4,
    {
        scalar_to_u64(scalar)
    }

    /// The multiple of the table's base by the scalar: `None` when the table
    /// holds fewer than `2^(b-1)` entries; otherwise the comb sum: for each
    /// column in turn, the sum so far doubled (from the second column on),
    /// then for each window of the column of nonzero value `v` the table
    /// entry `v` of the window's block added.
    pub fn mul_with_table(&self, base_pre_table: &[Point], mon_scalar: &Scalar) -> (r: Option<Point>)
        requires
            self.wf(),
            self.b < usize::BITS,
            mon_scalar.wf(),
            pow2((self.b - 1) as nat) <= base_pre_table.len() ==> {
                &&& gotti_reads_fit(*mon_scalar, self.t as nat)
                &&& (gotti_window_count(self.t as nat, self.b as nat) * pow2(self.b as nat)
                    <= base_pre_table.len() || gotti_fits(
                    base_pre_table.len() as nat,
                    *mon_scalar,
                    self.t as nat,
                    self.b as nat,
                ))
            },
        ensures
            pow2((self.b - 1) as nat) > base_pre_table.len() ==> r.is_none(),
            pow2((self.b - 1) as nat) <= base_pre_table.len() ==> r == Some(
                gotti_sum(
                    base_pre_table@,
                    *mon_scalar,
                    self.t as nat,
                    self.b as nat,
                    self.t as nat,
                ),
            ),
            pow2((self.b - 1) as nat) <= base_pre_table.len() ==> r == Some(
                apply_ops(
                    base_pre_table@,
                    comb_ops(*mon_scalar, self.t as nat, self.b as nat, self.t as nat),
                    identity_point(),
                ),
            ),
    {
        let ghost t = self.t as nat;
        let ghost b = self.b as nat;
        let ghost ws = pow2(b);
        let ghost cl = gotti_column_len(t);
        let ghost nw = gotti_window_count(t, b);
        let ghost tbl = base_pre_table@;
        let ghost len = base_pre_table.len() as nat;
        let ghost s = *mon_scalar;
        proof {
            vstd::layout::unsigned_int_max_values();
            lemma_pow2_strictly_increases(b, usize::BITS as nat);
            lemma_pow2_strictly_increases((b - 1) as nat, b);
            lemma_usize_shift(b);
            lemma_usize_shift((b - 1) as nat);
        }
        if 1 << (self.b - 1) > base_pre_table.len() {
            return None;
        }
        proof {
            if nw * ws <= len {
                assert forall|t_i: nat, wi: nat|
                    t_i < t && wi < nw && #[trigger] gotti_window_value(s, t, b, t_i, wi) > 0 implies (wi + 1) * ws <= len by {
                    assert((wi + 1) * ws <= nw * ws) by (nonlinear_arith)
                        requires
                            wi < nw,
                    ;
                }
            }
        }
        let window_size: usize = 1 << self.b;
        let mut accum = point_zero();
        let fr_bits: usize = 253;
        let scalar_u64 = Self::scalar_to_u64(mon_scalar);
        let mut t_i: usize = 0;
        while t_i < self.t
            invariant
                t == self.t,
                b == self.b,
                2 <= b < 64,
                b < usize::BITS,
                ws == pow2(b),
                window_size == ws,
                cl == gotti_column_len(t),
                nw == gotti_window_count(t, b),
                tbl == base_pre_table@,
                len == base_pre_table.len(),
                s == *mon_scalar,
                fr_bits == 253,
                gotti_reads_fit(s, t),
                gotti_fits(len, s, t, b),
                scalar_u64@ == scalar_limbs(s),
                limbs_value(scalar_u64@) == scalar_value(s),
                t_i <= t,
                accum == gotti_sum(tbl, s, t, b, t_i as nat),
            decreases t - t_i,
        {
            if t_i > 0 {
                accum = point_double(&accum);
            }
            let ghost start_acc = accum;
            let mut curr_window: usize = 0;
            let mut window_scalar: usize = 0;
            let mut window_bit_pos: usize = 0;
            let mut k: usize = 0;
            let ghost mut c: nat = 0;
            proof {
                lemma2_to64();
                assert(0 * t == 0);
                assert(0 * b == 0);
                lemma_column_len(t, 0);
            }
            while k < fr_bits
                invariant
                    t == self.t,
                    t >= 1,
                    t_i < t,
                    b == self.b,
                    2 <= b < 64,
                    b < usize::BITS,
                    ws == pow2(b),
                    window_size == ws,
                    cl == gotti_column_len(t),
                    nw == gotti_window_count(t, b),
                    tbl == base_pre_table@,
                    len == base_pre_table.len(),
                    s == *mon_scalar,
                    fr_bits == 253,
                    gotti_reads_fit(s, t),
                    gotti_fits(len, s, t, b),
                    scalar_u64@ == scalar_limbs(s),
                    limbs_value(scalar_u64@) == scalar_value(s),
                    k == c * t,
                    k < 253 + t,
                    k < 253 ==> c < cl,
                    c == curr_window * b + window_bit_pos,
                    window_bit_pos < b,
                    c <= cl,
                    window_scalar == gotti_window_bits(s, t, t_i as nat, (curr_window as nat) * b, window_bit_pos as nat),
                    window_scalar < pow2(window_bit_pos as nat),
                    accum == gotti_column_sum(tbl, s, t, b, t_i as nat, start_acc, curr_window as nat),
                decreases 253 + t - k,
            {
                let ghost ws0 = window_scalar;
                let ghost wbp0 = window_bit_pos;
                proof {
                    if c >= 1 {
                        assert(c * t >= t) by (nonlinear_arith)
                            requires
                                c >= 1,
                        ;
                    } else {
                        assert(c * t == 0) by (nonlinear_arith)
                            requires
                                c == 0,
                        ;
                    }
                }
                let scalar_bit_pos = k + self.t - t_i - 1;
                proof {
                    assert(scalar_bit_pos == gotti_pos(t, t_i as nat, c));
                }
                let mut bit_read: u64 = 0;
                if scalar_bit_pos < fr_bits && !fr_is_zero(mon_scalar) {
                    proof {
                        assert(scalar_bit_pos >> 6usize == scalar_bit_pos / 64) by (bit_vector);
                        assert(scalar_bit_pos & 63usize == scalar_bit_pos % 64) by (bit_vector);
                    }
                    let limb = scalar_u64[scalar_bit_pos >> 6];
                    let bit = (limb >> (scalar_bit_pos & 63)) & 1;
                    proof {
                        lemma_limb_bit(scalar_u64@, scalar_bit_pos as nat);
                        assert(bit == gotti_bit(s, t, t_i as nat, c));
                        assert(bit <= 1) by (bit_vector)
                            requires
                                bit == (limb >> ((scalar_bit_pos & 63usize) as u64)) & 1u64,
                        ;
                        lemma_set_bit(window_scalar, bit, window_bit_pos);
                    }
                    window_scalar |= (bit as usize) << window_bit_pos;
                    bit_read = bit;
                }
                proof {
                    assert(bit_read == gotti_bit(s, t, t_i as nat, c));
                    lemma_set_bit(ws0, bit_read, wbp0);
                    assert(window_scalar == ws0 + bit_read * pow2(wbp0 as nat));
                }
                window_bit_pos += 1;
                if window_bit_pos == self.b {
                    proof {
                        assert(c + 1 == (curr_window + 1) * b) by (nonlinear_arith)
                            requires
                                c == curr_window * b + wbp0,
                                wbp0 + 1 == b,
                        ;
                        lemma_div_is_ordered(((curr_window + 1) * b) as int, (cl + b - 1) as int, b as int);
                        lemma_div_multiples_vanish((curr_window + 1) as int, b as int);
                        assert(b * (curr_window + 1) == (curr_window + 1) * b) by (nonlinear_arith);
                        assert(curr_window < nw);
                        assert(window_scalar == gotti_window_value(s, t, b, t_i as nat, curr_window as nat));
                        if window_scalar > 0 {
                            assert((curr_window + 1) * ws <= len);
                            assert(curr_window * ws + window_scalar < (curr_window + 1) * ws) by (nonlinear_arith)
                                requires
                                    window_scalar < ws,
                            ;
                        }
                    }
                    if window_scalar > 0 {
                        let window_start = curr_window * window_size;
                        accum = point_add(&accum, &base_pre_table[window_start + window_scalar]);
                    }
                    curr_window += 1;
                    window_scalar = 0;
                    window_bit_pos = 0;
                    proof {
                        lemma2_to64();
                    }
                }
                k += self.t;
                proof {
                    c = c + 1;
                    assert(k == c * t) by (nonlinear_arith)
                        requires
                            k == (c - 1) * t + t,
                    ;
                    lemma_column_len(t, c);
                }
            }
            proof {
                lemma_column_len(t, c);
                assert(c == cl);
                lemma_window_count(curr_window as nat, window_bit_pos as nat, b, cl);
                assert((curr_window + 1) * b > cl) by (nonlinear_arith)
                    requires
                        cl == curr_window * b + window_bit_pos,
                        window_bit_pos < b,
                ;
                assert(window_scalar == gotti_window_value(s, t, b, t_i as nat, curr_window as nat));
                if window_scalar > 0 {
                    if window_bit_pos == 0 {
                        lemma2_to64();
                    }
                    assert((curr_window + 1) * ws <= len);
                    lemma_pow2_strictly_increases(window_bit_pos as nat, b);
                    assert(curr_window * ws + window_scalar < (curr_window + 1) * ws) by (nonlinear_arith)
                        requires
                            window_scalar < ws,
                    ;
                }
            }
            let ghost cw = curr_window as nat;
            let ghost before = accum;
            if window_scalar > 0 {
                let window_start = curr_window * window_size;
                accum = point_add(&accum, &base_pre_table[window_start + window_scalar]);
            }
            proof {
                if window_bit_pos == 0 {
                    assert(nw == cw);
                } else {
                    assert(nw == cw + 1);
                    assert(gotti_column_sum(tbl, s, t, b, t_i as nat, start_acc, cw + 1) == accum);
                }
                assert(accum == gotti_column_sum(tbl, s, t, b, t_i as nat, start_acc, nw));
            }
            t_i += 1;
        }
        proof {
            lemma_gotti_sum_ops(tbl, s, t, b, t);
        }
        Some(accum)
    }

    /// The multiple of `g` by `scalar`: the comb sum of `mul_with_table`
    /// over the comb table of `g`.
    pub fn mul(&self, g: Point, scalar: &Scalar) -> (r: Point)
        requires
            self.wf(),
            1 <= self.t <= usize::MAX - 253,
            gotti_window_count(self.t as nat, self.b as nat) * pow2(self.b as nat) <= usize::MAX,
            scalar.wf(),
            gotti_reads_fit(*scalar, self.t as nat),
        ensures
            r == gotti_sum(
                Seq::new(
                    gotti_window_count(self.t as nat, self.b as nat) * pow2(self.b as nat),
                    |k: int| gotti_table_entry(g, self.t as nat, self.b as nat, k as nat),
                ),
                *scalar,
                self.t as nat,
                self.b as nat,
                self.t as nat,
            ),
            r == apply_ops(
                Seq::new(
                    gotti_window_count(self.t as nat, self.b as nat) * pow2(self.b as nat),
                    |k: int| gotti_table_entry(g, self.t as nat, self.b as nat, k as nat),
                ),
                comb_ops(*scalar, self.t as nat, self.b as nat, self.t as nat),
                identity_point(),
            ),
    {
        let ghost t = self.t as nat;
        let ghost b = self.b as nat;
        let ghost ws = pow2(b);
        let ghost nw = gotti_window_count(t, b);
        let table = self.table(g);
        proof {
            lemma_pow2_pos(b);
            lemma_div_is_ordered(t as int, (253 + t - 1) as int, t as int);
            lemma_div_by_self(t as int);
            lemma_div_is_ordered(b as int, (gotti_column_len(t) + b - 1) as int, b as int);
            lemma_div_by_self(b as int);
            assert(ws <= nw * ws) by (nonlinear_arith)
                requires
                    nw >= 1,
            ;
            lemma_usize_shift(b);
            lemma_pow2_strictly_increases((b - 1) as nat, b);
            assert(table@ =~= Seq::new(nw * ws, |k: int| gotti_table_entry(g, t, b, k as nat)));
        }
        let ts = table.as_slice();
        assert(ts@ == table@);
        self.mul_with_table(ts, scalar).unwrap()
    }

    /// `mul` where the comb can read every bit it takes: `None` for a
    /// nonzero scalar below `2^192`.
    pub fn checked_mul(&self, g: Point, scalar: &Scalar) -> (r: Option<Point>)
        requires
            self.wf(),
            1 <= self.t <= usize::MAX - 253,
            gotti_window_count(self.t as nat, self.b as nat) * pow2(self.b as nat) <= usize::MAX,
            scalar.wf(),
        ensures
            r.is_some() <==> gotti_reads_fit(*scalar, self.t as nat),
            r.is_some() ==> r == Some(
                gotti_sum(
                    Seq::new(
                        gotti_window_count(self.t as nat, self.b as nat) * pow2(self.b as nat),
                        |k: int| gotti_table_entry(g, self.t as nat, self.b as nat, k as nat),
                    ),
                    *scalar,
                    self.t as nat,
                    self.b as nat,
                    self.t as nat,
                ),
            ),
    {
        if !fr_is_zero(scalar) && Self::scalar_to_u64(scalar).len() != 4 {
            return None;
        }
        Some(self.mul(g, scalar))
    }

    /// `mul_with_table` where the comb can read every bit it takes and the
    /// table holds every window block: `None` when the table holds fewer
    /// than `2^(b-1)` entries, for a nonzero scalar below `2^192`, and when
    /// there are columns and the table holds fewer than
    /// `gotti_window_count(t, b) 2^b` entries.
    pub fn checked_mul_with_table(&self, base_pre_table: &[Point], mon_scalar: &Scalar) -> (r: Option<Point>)
        requires
            self.wf(),
            self.b < usize::BITS,
            mon_scalar.wf(),
        ensures
            r.is_some() <==> {
                &&& pow2((self.b - 1) as nat) <= base_pre_table.len()
                &&& gotti_reads_fit(*mon_scalar, self.t as nat)
                &&& (self.t == 0 || gotti_window_count(self.t as nat, self.b as nat) * pow2(
                    self.b as nat,
                ) <= base_pre_table.len())
            },
            r.is_some() ==> r == Some(
                gotti_sum(
                    base_pre_table@,
                    *mon_scalar,
                    self.t as nat,
                    self.b as nat,
                    self.t as nat,
                ),
            ),
    {
        let ghost t = self.t as nat;
        let ghost b = self.b as nat;
        proof {
            vstd::layout::unsigned_int_max_values();
            lemma_pow2_strictly_increases(b, usize::BITS as nat);
            lemma_pow2_strictly_increases((b - 1) as nat, b);
            lemma_usize_shift(b);
            lemma_usize_shift((b - 1) as nat);
        }
        if 1 << (self.b - 1) > base_pre_table.len() {
            return None;
        }
        if self.t > 0 && !fr_is_zero(mon_scalar) && Self::scalar_to_u64(mon_scalar).len() != 4 {
            return None;
        }
        if self.t > 0 {
            let column_len = 252 / self.t + 1;
            let window_count = (column_len + self.b - 1) / self.b;
            proof {
                lemma_div_plus_one(252, t as int);
                assert(column_len == gotti_column_len(t));
            }
            match window_count.checked_mul(1 << self.b) {
                Some(size) => {
                    if size > base_pre_table.len() {
                        return None;
                    }
                },
                None => {
                    return None;
                },
            }
        }
        self.mul_with_table(base_pre_table, mon_scalar)
    }

    /// The comb columns of the scalar, each cut into windows of `b` bits:
    /// entry `t_i` holds the bits of column `t_i` below position 253 (none
    /// for the zero scalar) in chunks of `b`, each chunk packed with its
    /// first bit lowest.
    pub fn gotti_window(&self, scalar: &Scalar) -> (r: Vec<Vec<u16>>)
        requires
            self.wf(),
            scalar.wf(),
            gotti_reads_fit(*scalar, self.t as nat),
            self.b <= 16 || mont_is_zero(*scalar) || self.t == 0 || gotti_column_len(self.t as nat)
                <= 16,
        ensures
            r.len() == self.t,
            forall|t_i: int|
                0 <= t_i < self.t ==> (#[trigger] r@[t_i])@.map_values(|v: u16| v as nat)
                    == packed_chunks(gotti_column(*scalar, self.t as nat, t_i as nat), self.b as nat),
            self.t >= 1 ==> comb_decode(
                Seq::new(self.t as nat, |t_i: int| r@[t_i]@.map_values(|v: u16| v as nat)),
                self.t as nat,
                self.b as nat,
            ) == scalar_value(*scalar),
    {
        let ghost t = self.t as nat;
        let ghost b = self.b as nat;
        let ghost s = *scalar;
        let fr_bits: usize = 253;
        let scalar_u64_4_ = Self::scalar_to_u64(scalar);
        let mut naf_vec: Vec<Vec<u8>> = Vec::new();
        let mut t_i: usize = 0;
        while t_i < self.t
            invariant
                t == self.t,
                s == *scalar,
                fr_bits == 253,
                gotti_reads_fit(s, t),
                scalar_u64_4_@ == scalar_limbs(s),
                limbs_value(scalar_u64_4_@) == scalar_value(s),
                t_i <= t,
                naf_vec.len() == t_i,
                forall|j: int| 0 <= j < t_i ==> (#[trigger] naf_vec@[j])@.map_values(|v: u8| v as nat) == gotti_column(s, t, j as nat),
            decreases t - t_i,
        {
            let mut column: Vec<u8> = Vec::new();
            let mut k: usize = 0;
            let ghost mut c: nat = 0;
            proof {
                lemma_column_len(t, 0);
                assert(0 * t == 0);
            }
            while k < fr_bits
                invariant
                    t == self.t,
                    t >= 1,
                    t_i < t,
                    s == *scalar,
                    fr_bits == 253,
                    gotti_reads_fit(s, t),
                    scalar_u64_4_@ == scalar_limbs(s),
                    limbs_value(scalar_u64_4_@) == scalar_value(s),
                    k == c * t,
                    k < 253 + t,
                    k < 253 ==> c < gotti_column_len(t),
                    mont_is_zero(s) ==> column.len() == 0,
                    !mont_is_zero(s) ==> column.len() == if c < (253 + (t_i as nat)) / t { c } else { (253 + (t_i as nat)) / t },
                    forall|j: int| 0 <= j < column.len() ==> (#[trigger] column@[j]) as nat == bit_of(scalar_value(s), gotti_pos(t, t_i as nat, j as nat) as nat),
                decreases 253 + t - k,
            {
                proof {
                    if c >= 1 {
                        assert(c * t >= t) by (nonlinear_arith)
                            requires
                                c >= 1,
                        ;
                    } else {
                        assert(c * t == 0) by (nonlinear_arith)
                            requires
                                c == 0,
                        ;
                    }
                    lemma_column_bits(t, t_i as nat, c);
                }
                let scalar_bit_pos = k + self.t - t_i - 1;
                proof {
                    assert(scalar_bit_pos == gotti_pos(t, t_i as nat, c));
                }
                if scalar_bit_pos < fr_bits && !fr_is_zero(scalar) {
                    proof {
                        assert(scalar_bit_pos >> 6usize == scalar_bit_pos / 64) by (bit_vector);
                        assert(scalar_bit_pos & 63usize == scalar_bit_pos % 64) by (bit_vector);
                    }
                    let limb = scalar_u64_4_[scalar_bit_pos >> 6];
                    proof {
                        assert((limb >> ((scalar_bit_pos & 63usize) as u64)) & 1u64 <= 1) by (bit_vector);
                    }
                    let bit = ((limb >> (scalar_bit_pos & 63)) & 1) as u8;
                    proof {
                        lemma_limb_bit(scalar_u64_4_@, scalar_bit_pos as nat);
                    }
                    column.push(bit);
                }
                k += self.t;
                proof {
                    c = c + 1;
                    assert(k == c * t) by (nonlinear_arith)
                        requires
                            k == (c - 1) * t + t,
                    ;
                    lemma_column_len(t, c);
                }
            }
            proof {
                lemma_column_len(t, c);
                lemma_column_bits(t, t_i as nat, c);
                assert(column@.map_values(|v: u8| v as nat) =~= gotti_column(s, t, t_i as nat));
            }
            naf_vec.push(column);
            t_i += 1;
        }
        let mut new_naf_vec: Vec<Vec<u16>> = Vec::with_capacity(self.t);
        let mut q: usize = 0;
        while q < naf_vec.len()
            invariant
                t == self.t,
                b == self.b,
                2 <= b < 64,
                s == *scalar,
                naf_vec.len() == t,
                b <= 16 || mont_is_zero(s) || t == 0 || gotti_column_len(t) <= 16,
                forall|j: int| 0 <= j < t ==> (#[trigger] naf_vec@[j])@.map_values(|v: u8| v as nat) == gotti_column(s, t, j as nat),
                q <= t,
                new_naf_vec.len() == q,
                forall|j: int| 0 <= j < q ==> (#[trigger] new_naf_vec@[j])@.map_values(|v: u16| v as nat) == packed_chunks(gotti_column(s, t, j as nat), b),
            decreases t - q,
        {
            let vec = &naf_vec[q];
            let ghost bits = gotti_column(s, t, q as nat);
            proof {
                assert(vec@.map_values(|v: u8| v as nat) == bits);
                lemma_column_len_bound(t);
                lemma_column_bits(t, q as nat, 0);
                if mont_is_zero(s) {
                    assert(bits.len() == 0);
                } else {
                    assert(bits.len() == (253 + q as nat) / t);
                }
                assert(vec.len() <= 253);
                assert(vec.len() <= 16 || b <= 16) by {
                    if !mont_is_zero(s) && b > 16 {
                        lemma_column_bits(t, q as nat, 0);
                    }
                }
            }
            let mut new_vec: Vec<u16> = Vec::with_capacity((vec.len() + self.b - 1) / self.b);
            let mut combined: u16 = 0;
            let mut bit_pos: usize = 0;
            let mut i: usize = 0;
            proof {
                lemma2_to64();
                assert(0 * b == 0);
                assert(bits.subrange(0, 0) =~= Seq::<nat>::empty());
            }
            while i < vec.len()
                invariant
                    b == self.b,
                    2 <= b < 64,
                    vec.len() <= 16 || b <= 16,
                    vec@.map_values(|v: u8| v as nat) == bits,
                    bits == gotti_column(s, t, q as nat),
                    t >= 1,
                    i <= vec.len(),
                    bit_pos < b,
                    i == new_vec.len() * b + bit_pos,
                    combined == pack_bits(bits.subrange((new_vec.len() * b) as int, i as int)),
                    combined < pow2(bit_pos as nat),
                    forall|j: int| 0 <= j < new_vec.len() ==> (#[trigger] new_vec@[j]) as nat == pack_bits(bits.subrange(j * b, (j + 1) * b)),
                decreases vec.len() - i,
            {
                let bit = vec[i];
                let ghost c0 = combined;
                let ghost seg = bits.subrange((new_vec.len() * b) as int, i as int);
                proof {
                    assert(!mont_is_zero(s)) by {
                        if mont_is_zero(s) {
                            assert(bits.len() == 0);
                        }
                    }
                    assert(bits[i as int] == bit as nat);
                    assert(bit <= 1) by {
                        assert(bits == Seq::new((253 + q as nat) / t, |c: int| bit_of(scalar_value(s), gotti_pos(t, q as nat, c as nat) as nat)));
                        assert(i < bits.len());
                        assert(bits[i as int] == bit_of(scalar_value(s), gotti_pos(t, q as nat, i as nat) as nat));
                        lemma_mod_bound((scalar_value(s) / pow2(gotti_pos(t, q as nat, i as nat) as nat)) as int, 2);
                    }
                    assert(bit_pos < 16);
                    lemma_set_bit_u16(combined, bit, bit_pos);
                }
                combined |= (bit as u16) << bit_pos;
                bit_pos += 1;
                proof {
                    let seg1 = bits.subrange((new_vec.len() * b) as int, i + 1);
                    assert(seg1.drop_last() =~= seg);
                    assert(seg1.len() == bit_pos);
                }
                if bit_pos == self.b {
                    proof {
                        assert((new_vec.len() + 1) * b == new_vec.len() * b + b) by (nonlinear_arith);
                    }
                    new_vec.push(combined);
                    combined = 0;
                    bit_pos = 0;
                    proof {
                        assert(bits.subrange((new_vec.len() * b) as int, i + 1) =~= Seq::<nat>::empty());
                        lemma2_to64();
                    }
                }
                i += 1;
            }
            let ghost full = new_vec.len();
            if bit_pos > 0 {
                new_vec.push(combined);
            }
            proof {
                lemma_window_count(full as nat, bit_pos as nat, b, bits.len());
                assert(new_vec@.map_values(|v: u16| v as nat) =~= packed_chunks(bits, b)) by {
                    assert forall|j: int| 0 <= j < new_vec.len() implies new_vec@[j] as nat == packed_chunks(bits, b)[j] by {
                        if j < full {
                            assert((j + 1) * b <= full * b) by (nonlinear_arith)
                                requires
                                    j + 1 <= full,
                            ;
                        } else {
                            assert((j + 1) * b > bits.len()) by (nonlinear_arith)
                                requires
                                    j == full,
                                    bits.len() == full * b + bit_pos,
                                    bit_pos < b,
                            ;
                        }
                    }
                }
            }
            new_naf_vec.push(new_vec);
            q += 1;
        }
        proof {
            if t >= 1 {
                lemma_comb_decode(s, t, b);
                assert(Seq::new(t, |t_i: int| new_naf_vec@[t_i]@.map_values(|v: u16| v as nat))
                    =~= Seq::new(t, |t_i: int| packed_chunks(gotti_column(s, t, t_i as nat), b)));
            }
        }
        new_naf_vec
    }

    /// `gotti_window` where the comb can read every bit it takes and every
    /// chunk fits in 16 bits: `None` for a nonzero scalar below `2^192` when
    /// there are columns, and for a nonzero scalar when chunks of more than
    /// 16 bits are asked for and a column holds more than 16 bits.
    pub fn checked_gotti_window(&self, scalar: &Scalar) -> (r: Option<Vec<Vec<u16>>>)
        requires
            self.wf(),
            scalar.wf(),
        ensures
            r.is_some() <==> {
                &&& gotti_reads_fit(*scalar, self.t as nat)
                &&& (self.b <= 16 || mont_is_zero(*scalar) || self.t == 0 || gotti_column_len(
                    self.t as nat,
                ) <= 16)
            },
            r matches Some(v) ==> {
                &&& v.len() == self.t
                &&& forall|t_i: int|
                    0 <= t_i < self.t ==> (#[trigger] v@[t_i])@.map_values(|x: u16| x as nat)
                        == packed_chunks(gotti_column(*scalar, self.t as nat, t_i as nat), self.b as nat)
                &&& self.t >= 1 ==> comb_decode(
                    Seq::new(self.t as nat, |t_i: int| v@[t_i]@.map_values(|x: u16| x as nat)),
                    self.t as nat,
                    self.b as nat,
                ) == scalar_value(*scalar)
            },
    {
        if self.t == 0 || fr_is_zero(scalar) {
            return Some(self.gotti_window(scalar));
        }
        if Self::scalar_to_u64(scalar).len() != 4 {
            return None;
        }
        if self.b > 16 && 252 / self.t + 1 > 16 {
            proof {
                lemma_div_plus_one(252, self.t as int);
            }
            return None;
        }
        proof {
            lemma_div_plus_one(252, self.t as int);
        }
        Some(self.gotti_window(scalar))
    }
}

} // verus!
