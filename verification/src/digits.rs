//! Signed radix-2^w expansions of scalars: the windows that the wNAF style
//! multiplication adds from its table, and the function that cuts them out
//! of the scalar's limbs.

use crate::scalar::limbs_value;
use vstd::arithmetic::div_mod::*;
use vstd::arithmetic::mul::*;
use vstd::arithmetic::power2::*;
use vstd::bits::*;
use vstd::prelude::*;

verus! {

/// `x mods 2^w`: the representative of `x` modulo `2^w` in `(-2^(w-1), 2^(w-1)]`.
pub open spec fn signed_digit(x: int, w: nat) -> int {
    let r = x % (pow2(w) as int);
    if r > pow2((w - 1) as nat) {
        r - pow2(w)
    } else {
        r
    }
}

/// The signed radix-`2^w` expansion of `x` in `m` windows, least significant
/// first, each window in `(-2^(w-1), 2^(w-1)]`; what is left above the top
/// window follows as one more entry when it is not zero.
pub open spec fn signed_window_digits(x: int, w: nat, m: nat) -> Seq<int>
    decreases m,
{
    if m == 0 {
        if x == 0 {
            Seq::empty()
        } else {
            seq![x]
        }
    } else {
        let d = signed_digit(x, w);
        seq![d] + signed_window_digits((x - d) / (pow2(w) as int), w, (m - 1) as nat)
    }
}

/// Number of `w`-bit windows that cover `bits` bits.
pub open spec fn window_count(bits: nat, w: nat) -> nat {
    (((bits + w) - 1) as nat) / w
}

/// The integer that radix-`2^w` digits stand for, least significant first.
pub open spec fn recon(d: Seq<int>, w: nat) -> int
    decreases d.len(),
{
    if d.len() == 0 {
        0
    } else {
        d[0] + pow2(w) * recon(d.drop_first(), w)
    }
}

/// The `i`-th unsigned `w`-bit window of `x`.
pub open spec fn unsigned_window(x: nat, w: nat, i: nat) -> nat {
    (x / pow2(w * i)) % pow2(w)
}

/// Machine integers read as mathematical ones.
pub open spec fn as_ints(s: Seq<i64>) -> Seq<int> {
    s.map_values(|v: i64| v as int)
}

/// Appending a digit adds it at the next power of `2^w`.
pub proof fn lemma_recon_push(d: Seq<int>, e: int, w: nat)
    ensures
        recon(d.push(e), w) == recon(d, w) + e * pow2(w * d.len()),
    decreases d.len(),
{
    if d.len() == 0 {
        assert(d.push(e).drop_first() =~= Seq::<int>::empty());
        lemma2_to64();
        assert(w * 0 == 0) by (nonlinear_arith);
        assert(pow2(w) * 0 == 0) by (nonlinear_arith);
        assert(recon(Seq::<int>::empty(), w) == 0);
        assert(recon(d.push(e), w) == e + pow2(w) * recon(d.push(e).drop_first(), w));
        assert(e * 1 == e);
    } else {
        assert(d.push(e).drop_first() =~= d.drop_first().push(e));
        lemma_recon_push(d.drop_first(), e, w);
        let k = (d.len() - 1) as nat;
        lemma_pow2_adds(w, w * k);
        assert(w + w * k == w * d.len()) by (nonlinear_arith)
            requires
                k == d.len() - 1,
        ;
        let p = pow2(w);
        let q = pow2(w * k);
        let r = recon(d.drop_first(), w);
        assert(p * (r + e * q) == p * r + e * (p * q)) by (nonlinear_arith);
        assert(recon(d.push(e), w) == d[0] + p * recon(d.push(e).drop_first(), w));
        assert(recon(d.drop_first().push(e), w) == r + e * q);
    }
}

/// Changing one digit moves the value by the change times its weight.
pub proof fn lemma_recon_update(d: Seq<int>, i: int, e: int, w: nat)
    requires
        0 <= i < d.len(),
    ensures
        recon(d.update(i, e), w) == recon(d, w) + (e - d[i]) * pow2(w * (i as nat)),
    decreases d.len(),
{
    if i == 0 {
        assert(d.update(i, e).drop_first() =~= d.drop_first());
        lemma2_to64();
        assert(w * 0 == 0) by (nonlinear_arith);
        assert(recon(d.update(i, e), w) == e + pow2(w) * recon(d.drop_first(), w));
        assert((e - d[i]) * 1 == e - d[i]);
    } else {
        assert(d.update(i, e).drop_first() =~= d.drop_first().update(i - 1, e));
        lemma_recon_update(d.drop_first(), i - 1, e, w);
        let k = (i - 1) as nat;
        lemma_pow2_adds(w, w * k);
        assert(w + w * k == w * (i as nat)) by (nonlinear_arith)
            requires
                k == i - 1,
        ;
        let p = pow2(w);
        let q = pow2(w * k);
        let r = recon(d.drop_first(), w);
        let c = e - d[i];
        assert(p * (r + c * q) == p * r + c * (p * q)) by (nonlinear_arith);
        assert(d.update(i, e)[0] == d[0]);
        assert(recon(d.update(i, e), w) == d[0] + p * recon(d.update(i, e).drop_first(), w));
        assert(d.drop_first()[i - 1] == d[i]);
    }
}

/// A digit in `(-2^(w-1), 2^(w-1)]` congruent to `x` is `x mods 2^w`.
pub proof fn lemma_signed_digit_unique(x: int, d: int, q: int, w: nat)
    requires
        w >= 1,
        -pow2((w - 1) as nat) < d <= pow2((w - 1) as nat),
        x == d + pow2(w) * q,
    ensures
        signed_digit(x, w) == d,
        (x - d) / (pow2(w) as int) == q,
{
    let p = pow2(w) as int;
    let h = pow2((w - 1) as nat) as int;
    lemma_pow2_unfold(w);
    lemma_pow2_pos((w - 1) as nat);
    if d >= 0 {
        assert(x == q * p + d) by (nonlinear_arith)
            requires
                x == d + p * q,
        ;
        lemma_fundamental_div_mod_converse(x, p, q, d);
    } else {
        assert(x == (q - 1) * p + (d + p)) by (nonlinear_arith)
            requires
                x == d + p * q,
        ;
        lemma_fundamental_div_mod_converse(x, p, q - 1, d + p);
    }
    assert(x - d == q * p) by (nonlinear_arith)
        requires
            x == d + p * q,
    ;
    lemma_div_multiples_vanish(q, p);
}

/// Signed digits that stand for `x`, in range in the first `m` windows and with
/// at most a `1` above them, are the signed expansion of `x`.
pub proof fn lemma_signed_digits_unique(d: Seq<int>, x: int, w: nat, m: nat)
    requires
        w >= 1,
        d.len() == m || (d.len() == m + 1 && d[m as int] == 1),
        forall|i: int|
            0 <= i < m ==> -pow2((w - 1) as nat) < #[trigger] d[i] <= pow2((w - 1) as nat),
        recon(d, w) == x,
    ensures
        d == signed_window_digits(x, w, m),
    decreases m,
{
    if m == 0 {
        if d.len() == 0 {
            assert(d =~= Seq::<int>::empty());
        } else {
            assert(d.drop_first() =~= Seq::<int>::empty());
            assert(pow2(w) * 0 == 0) by (nonlinear_arith);
            assert(recon(d.drop_first(), w) == 0);
            assert(x == 1);
            assert(d =~= seq![1int]);
        }
    } else {
        let rest = d.drop_first();
        lemma_signed_digit_unique(x, d[0], recon(rest, w), w);
        assert forall|i: int| 0 <= i < m - 1 implies -pow2((w - 1) as nat) < #[trigger] rest[i]
            <= pow2((w - 1) as nat) by {
            assert(rest[i] == d[i + 1]);
        }
        lemma_signed_digits_unique(rest, recon(rest, w), w, (m - 1) as nat);
        assert(d =~= seq![d[0]] + rest);
    }
}

/// Unsigned digits below `2^w` that stand for `x` are its unsigned windows.
pub proof fn lemma_unsigned_digits_unique(d: Seq<int>, x: nat, w: nat, i: nat)
    requires
        forall|j: int| 0 <= j < d.len() ==> 0 <= #[trigger] d[j] < pow2(w),
        recon(d, w) == x,
        i < d.len(),
    ensures
        d[i as int] == unsigned_window(x, w, i),
    decreases i,
{
    let p = pow2(w) as int;
    let rest = d.drop_first();
    lemma_pow2_pos(w);
    assert(0 <= recon(rest, w)) by {
        lemma_recon_nonneg(rest, w);
    }
    assert(x == recon(rest, w) * p + d[0]) by (nonlinear_arith)
        requires
            x == d[0] + p * recon(rest, w),
    ;
    lemma_fundamental_div_mod_converse(x as int, p, recon(rest, w), d[0]);
    if i == 0 {
        lemma2_to64();
        assert(w * 0 == 0) by (nonlinear_arith);
    } else {
        assert forall|j: int| 0 <= j < rest.len() implies 0 <= #[trigger] rest[j] < pow2(w) by {
            assert(rest[j] == d[j + 1]);
        }
        lemma_unsigned_digits_unique(rest, (x as int / p) as nat, w, (i - 1) as nat);
        let k = (i - 1) as nat;
        lemma_pow2_adds(w, w * k);
        assert(w + w * k == w * i) by (nonlinear_arith)
            requires
                k == i - 1,
        ;
        lemma_pow2_pos(w * k);
        lemma_div_denominator(x as int, p, pow2(w * k) as int);
    }
}

/// Digits in `[0, 2^w)` stand for a natural number.
pub proof fn lemma_recon_nonneg(d: Seq<int>, w: nat)
    requires
        forall|j: int| 0 <= j < d.len() ==> 0 <= #[trigger] d[j],
    ensures
        0 <= recon(d, w),
    decreases d.len(),
{
    if d.len() > 0 {
        let rest = d.drop_first();
        assert forall|j: int| 0 <= j < rest.len() implies 0 <= #[trigger] rest[j] by {
            assert(rest[j] == d[j + 1]);
        }
        lemma_recon_nonneg(rest, w);
        lemma_pow2_pos(w);
        lemma_mul_nonnegative(pow2(w) as int, recon(rest, w));
    }
}


/// `x mods 2^w` lies in `(-2^(w-1), 2^(w-1)]` and differs from `x` by a multiple of `2^w`.
pub proof fn lemma_signed_digit_props(x: int, w: nat)
    requires
        w >= 1,
    ensures
        -pow2((w - 1) as nat) < signed_digit(x, w) <= pow2((w - 1) as nat),
        x == signed_digit(x, w) + pow2(w) * ((x - signed_digit(x, w)) / (pow2(w) as int)),
{
    let p = pow2(w) as int;
    lemma_pow2_unfold(w);
    lemma_pow2_pos((w - 1) as nat);
    lemma_fundamental_div_mod(x, p);
    lemma_mod_bound(x, p);
    let r = x % p;
    let q = x / p;
    let d = signed_digit(x, w);
    if r > pow2((w - 1) as nat) {
        assert(x - d == (q + 1) * p) by (nonlinear_arith)
            requires
                x == p * q + r,
                d == r - p,
        ;
        lemma_div_multiples_vanish(q + 1, p);
        assert(p * (q + 1) == (q + 1) * p) by (nonlinear_arith);
    } else {
        assert(x - d == q * p) by (nonlinear_arith)
            requires
                x == p * q + r,
                d == r,
        ;
        lemma_div_multiples_vanish(q, p);
        assert(p * q == q * p) by (nonlinear_arith);
    }
}

/// The signed expansion of `0 <= x <= 2^(w m)`: its windows lie in
/// `(-2^(w-1), 2^(w-1)]`, at most a `1` stands above them, and nothing does
/// when `2 x <= 2^(w m)`.
pub proof fn lemma_signed_digits_shape(x: int, w: nat, m: nat)
    requires
        w >= 1,
        0 <= x <= pow2(w * m),
    ensures
        signed_window_digits(x, w, m).len() == m || (signed_window_digits(x, w, m).len() == m + 1
            && signed_window_digits(x, w, m)[m as int] == 1),
        forall|i: int|
            0 <= i < m ==> -pow2((w - 1) as nat) < #[trigger] signed_window_digits(x, w, m)[i]
                <= pow2((w - 1) as nat),
        2 * x <= pow2(w * m) ==> signed_window_digits(x, w, m).len() == m,
    decreases m,
{
    let d = signed_window_digits(x, w, m);
    if m == 0 {
        assert(w * 0 == 0) by (nonlinear_arith);
        lemma2_to64();
    } else {
        let p = pow2(w) as int;
        let th = pow2((w - 1) as nat) as int;
        let k = (m - 1) as nat;
        let pk = pow2(w * k) as int;
        lemma_pow2_unfold(w);
        lemma_pow2_adds(w * k, w);
        assert(w * k + w == w * m) by (nonlinear_arith)
            requires
                k == m - 1,
        ;
        lemma_signed_digit_props(x, w);
        let d0 = signed_digit(x, w);
        let q = (x - d0) / p;
        assert(0 <= q <= pk) by {
            assert(p * q > -p);
            if q < 0 {
                assert(p * q <= -p) by (nonlinear_arith)
                    requires
                        q < 0,
                        p > 0,
                ;
            }
            assert(p * q < p * (pk + 1)) by (nonlinear_arith)
                requires
                    x == d0 + p * q,
                    x <= pk * p,
                    d0 > -th,
                    p == 2 * th,
                    th > 0,
            ;
            assert(q < pk + 1) by (nonlinear_arith)
                requires
                    p * q < p * (pk + 1),
                    p > 0,
            ;
        }
        if 2 * x <= pow2(w * m) {
            assert(2 * q <= pk) by {
                assert(p * (2 * q) < p * (pk + 1)) by (nonlinear_arith)
                    requires
                        x == d0 + p * q,
                        2 * x <= pk * p,
                        d0 > -th,
                        p == 2 * th,
                        th > 0,
                ;
                assert(2 * q < pk + 1) by (nonlinear_arith)
                    requires
                        p * (2 * q) < p * (pk + 1),
                        p > 0,
                ;
            }
        }
        lemma_signed_digits_shape(q, w, k);
        let rest = signed_window_digits(q, w, k);
        assert(d == seq![d0] + rest);
        assert forall|i: int| 0 <= i < m implies -th < #[trigger] d[i] <= th by {
            if i > 0 {
                assert(d[i] == rest[i - 1]);
            }
        }
        if d.len() == m + 1 {
            assert(d[m as int] == rest[k as int]);
        }
    }
}

/// The signed expansion of a natural number has no entry at or below `-2^(w-1)`.
pub proof fn lemma_signed_digits_lower(x: int, w: nat, m: nat)
    requires
        w >= 1,
        0 <= x,
    ensures
        forall|i: int|
            0 <= i < signed_window_digits(x, w, m).len() ==> -pow2((w - 1) as nat)
                < #[trigger] signed_window_digits(x, w, m)[i],
    decreases m,
{
    lemma_pow2_pos((w - 1) as nat);
    if m > 0 {
        let p = pow2(w) as int;
        lemma_pow2_unfold(w);
        lemma_signed_digit_props(x, w);
        let d0 = signed_digit(x, w);
        let q = (x - d0) / p;
        assert(q >= 0) by {
            if q < 0 {
                assert(p * q <= -p) by (nonlinear_arith)
                    requires
                        q < 0,
                        p > 0,
                ;
            }
        }
        lemma_signed_digits_lower(q, w, (m - 1) as nat);
        let d = signed_window_digits(x, w, m);
        let rest = signed_window_digits(q, w, (m - 1) as nat);
        assert(d == seq![d0] + rest);
        assert forall|i: int| 0 <= i < d.len() implies -pow2((w - 1) as nat) < #[trigger] d[i] by {
            if i > 0 {
                assert(d[i] == rest[i - 1]);
            }
        }
    }
}

/// `1 << e` in `usize` when `2^e` fits.
pub proof fn lemma_usize_shift(e: nat)
    requires
        pow2(e) <= usize::MAX,
    ensures
        e < usize::BITS,
        (1usize << e) == pow2(e),
{
    vstd::layout::unsigned_int_max_values();
    if e >= usize::BITS {
        if e > usize::BITS {
            lemma_pow2_strictly_increases(usize::BITS as nat, e);
        }
    }
    lemma_usize_pow2_no_overflow(e);
    lemma_usize_shl_is_mul(1usize, e as usize);
}

/// `k = i th + j` with `j < th` splits into window `i` and entry `j`.
pub proof fn lemma_table_index(i: nat, j: nat, th: nat)
    requires
        j < th,
    ensures
        (i * th + j) / th == i,
        (i * th + j) % th == j,
{
    lemma_fundamental_div_mod_converse((i * th + j) as int, th as int, i as int, j as int);
}

/// The signed expansion stands for the number it expands: the digits,
/// each weighted by its power of `2^w`, sum to `x`.
pub proof fn lemma_signed_window_digits_recon(x: int, w: nat, m: nat)
    requires
        w >= 1,
    ensures
        recon(signed_window_digits(x, w, m), w) == x,
    decreases m,
{
    let d = signed_window_digits(x, w, m);
    if m == 0 {
        if x != 0 {
            assert(d.drop_first() =~= Seq::<int>::empty());
            assert(pow2(w) * 0 == 0) by (nonlinear_arith);
            assert(recon(d.drop_first(), w) == 0);
        }
    } else {
        lemma_signed_digit_props(x, w);
        let d0 = signed_digit(x, w);
        let q = (x - d0) / (pow2(w) as int);
        lemma_signed_window_digits_recon(q, w, (m - 1) as nat);
        assert(d.drop_first() =~= signed_window_digits(q, w, (m - 1) as nat));
    }
}

/// `1 << w` is `2^w` and `(1 << w) - 1` masks the low `w` bits.
proof fn lemma_mask(w: u64)
    requires
        w < 64,
    ensures
        (1u64 << w) as nat == pow2(w as nat),
        (((1u64 << w) - 1) as u64) as nat == pow2(w as nat) - 1,
        ((1u64 << w) - 1) as u64 == low_bits_mask(w as nat) as u64,
        pow2(w as nat) <= 0x8000_0000_0000_0000,
{
    lemma_u64_pow2_no_overflow(w as nat);
    lemma_u64_shl_is_mul(1u64, w);
    lemma2_to64_rest();
    if w < 63 {
        lemma_pow2_strictly_increases(w as nat, 63);
    }
}

/// Cutting the low `w` bits off a buffer.
proof fn lemma_split_window(buffer: u64, w: u64)
    requires
        0 < w < 64,
    ensures
        (buffer & (((1u64 << w) - 1) as u64)) as nat == buffer as nat % pow2(w as nat),
        (buffer >> w) as nat == buffer as nat / pow2(w as nat),
        buffer as nat == buffer as nat % pow2(w as nat) + pow2(w as nat) * (buffer as nat / pow2(
            w as nat,
        )),
{
    lemma_mask(w);
    lemma_u64_low_bits_mask_is_mod(buffer, w as nat);
    lemma_u64_shr_is_div(buffer, w);
    lemma_pow2_pos(w as nat);
    lemma_fundamental_div_mod(buffer as int, pow2(w as nat) as int);
}

/// Completing a window of `b` buffered bits with the low `w - b` bits of the next limb.
proof fn lemma_merge_window(buffer: u64, value: u64, b: u64, w: u64, hi: u64)
    requires
        0 < b < w < 64,
        buffer < pow2(b as nat),
        hi == value >> ((w - b) as u64),
    ensures
        value as nat == value as nat % pow2((w - b) as nat) + pow2((w - b) as nat) * hi,
        (buffer | ((value << b) & (((1u64 << w) - 1) as u64))) as nat == buffer + (value as nat % pow2(
            (w - b) as nat,
        )) * pow2(b as nat),
        (buffer | ((value << b) & (((1u64 << w) - 1) as u64))) < pow2(w as nat),
        hi < pow2((64 - (w - b)) as nat),
{
    lemma_mask(w);
    lemma_mask(b);
    lemma_mask((w - b) as u64);
    assert(buffer < (1u64 << b));
    let lo = value & (((1u64 << ((w - b) as u64)) - 1) as u64);
    assert(buffer | ((value << b) & (((1u64 << w) - 1) as u64)) == buffer + (lo << b)) by (bit_vector)
        requires
            0 < b < w < 64,
            buffer < (1u64 << b),
            lo == value & (((1u64 << ((w - b) as u64)) - 1) as u64),
    ;
    assert(buffer | ((value << b) & (((1u64 << w) - 1) as u64)) < (1u64 << w)) by (bit_vector)
        requires
            0 < b < w < 64,
            buffer < (1u64 << b),
    ;
    lemma_split_window(value, (w - b) as u64);
    let wb = (w - b) as nat;
    lemma_pow2_adds(wb, b as nat);
    assert(lo < pow2(wb)) by {
        lemma_pow2_pos(wb);
        lemma_mod_bound(value as int, pow2(wb) as int);
    }
    assert(lo * pow2(b as nat) < pow2(wb) * pow2(b as nat)) by {
        lemma_pow2_pos(b as nat);
        lemma_mul_strict_inequality(lo as int, pow2(wb) as int, pow2(b as nat) as int);
    }
    assert(wb + b == w);
    lemma_u64_shl_is_mul(lo, b);
    lemma_u64_shr_is_div(value, (w - b) as u64);
    let hi_bits = (64 - (w - b)) as nat;
    lemma_pow2_adds(hi_bits, wb);
    lemma2_to64_rest();
    assert(hi_bits + wb == 64);
    lemma_pow2_pos(wb);
    lemma_div_by_multiple_is_strongly_ordered(value as int, pow2(64) as int, pow2(hi_bits) as int, pow2(wb) as int);
    assert(pow2(hi_bits) * pow2(wb) == pow2(64));
    lemma_div_multiples_vanish(pow2(hi_bits) as int, pow2(wb) as int);
}

/// The bookkeeping identity of a completed window.
proof fn lemma_merge_algebra(r: int, buf: int, lo: int, hi: int, value: int, pl: int, pb: int, pwb: int, vk: int)
    requires
        r + buf * pl == vk,
        value == lo + pwb * hi,
    ensures
        (r + (buf + lo * pb) * pl) + hi * (pl * (pwb * pb)) == vk + value * (pb * pl),
{
    assert((buf + lo * pb) * pl == buf * pl + lo * (pb * pl)) by (nonlinear_arith);
    assert(hi * (pl * (pwb * pb)) == (pwb * hi) * (pb * pl)) by (nonlinear_arith);
    assert((lo + pwb * hi) * (pb * pl) == lo * (pb * pl) + (pwb * hi) * (pb * pl)) by (nonlinear_arith);
}

/// The bookkeeping identity of a window cut off the buffer.
proof fn lemma_split_algebra(r: int, buf: int, lo: int, hi: int, pl: int, pw: int, v: int)
    requires
        r + buf * pl == v,
        buf == lo + pw * hi,
    ensures
        (r + lo * pl) + hi * (pl * pw) == v,
{
    assert((r + lo * pl) + hi * (pl * pw) == r + (lo + pw * hi) * pl) by (nonlinear_arith);
}

/// Signed radix-`2^w` windows of the little-endian limbs `source`: the
/// windows are cut out least significant first, then each one above
/// `2^(w-1)` is moved down by `2^w` and carries one into the next window,
/// or into a new last window.
pub fn limbs_to_wnaf_data(source: &Vec<u64>, w: usize) -> (result: Vec<i64>)
    requires
        2 <= w < 64,
        w <= 62 || forall|i: nat|
            i < window_count((64 * source.len()) as nat, w as nat) ==> unsigned_window(
                limbs_value(source@),
                w as nat,
                i,
            ) <= pow2((w - 1) as nat),
    ensures
        as_ints(result@) == signed_window_digits(
            limbs_value(source@) as int,
            w as nat,
            window_count((64 * source.len()) as nat, w as nat),
        ),
{
    let w64 = w as u64;
    let ghost wn = w as nat;
    let ghost v = limbs_value(source@);
    proof {
        lemma_mask(w64);
        lemma_pow2_pos(wn);
    }
    let mut result: Vec<i64> = Vec::new();
    let mut bit_buffer: u64 = 0;
    let mut bits_in_buffer: u64 = 0;
    let mut k: usize = 0;
    proof {
        assert(source@.take(0) =~= Seq::<u64>::empty());
        lemma2_to64();
        assert(as_ints(result@) =~= Seq::<int>::empty());
        assert(0 * wn == 0);
    }
    while k < source.len()
        invariant
            2 <= w64 < 64,
            w64 == w,
            wn == w,
            v == limbs_value(source@),
            pow2(wn) <= 0x8000_0000_0000_0000,
            0 < pow2(wn),
            (1u64 << w64) as nat == pow2(wn),
            k <= source.len(),
            bits_in_buffer < w64,
            result.len() * wn + bits_in_buffer == 64 * k,
            bit_buffer < pow2(bits_in_buffer as nat),
            forall|j: int| 0 <= j < result.len() ==> 0 <= #[trigger] result@[j] < pow2(wn),
            recon(as_ints(result@), wn) + bit_buffer * pow2(wn * (result.len() as nat)) == limbs_value(
                source@.take(k as int),
            ),
        decreases source.len() - k,
    {
        let value = source[k];
        let ghost vk = limbs_value(source@.take(k as int));
        let ghost vk1 = limbs_value(source@.take(k + 1));
        proof {
            assert(source@.take(k + 1).drop_last() =~= source@.take(k as int));
            assert(vk1 == vk + value as nat * pow2(64 * k as nat));
        }
        if bits_in_buffer != 0 {
            let ghost buf = bit_buffer;
            let ghost b = bits_in_buffer;
            let ghost l: nat = result.len() as nat;
            let ghost r0 = as_ints(result@);
            let ghost hi = value >> (w64 - b);
            proof {
                lemma_merge_window(buf, value, b, w64, hi);
            }
            bit_buffer |= (value << bits_in_buffer) & ((1u64 << w64) - 1);
            result.push(bit_buffer as i64);
            bit_buffer = value >> (w64 - bits_in_buffer);
            bits_in_buffer = 64 - (w64 - bits_in_buffer);
            proof {
                let wb = (w64 - b) as nat;
                let lo = value as nat % pow2(wb);
                let digit = buf + lo * pow2(b as nat);
                assert(as_ints(result@) =~= r0.push(digit));
                lemma_recon_push(r0, digit, wn);
                assert(r0.len() == l);
                lemma_pow2_adds(wn * l, wn);
                lemma_pow2_adds(wb, b as nat);
                lemma_pow2_adds(b as nat, wn * l);
                assert(wn * (l + 1) == wn * l + wn) by (nonlinear_arith);
                assert(b + wn * l == 64 * k) by (nonlinear_arith)
                    requires
                        l * wn + b == 64 * k,
                ;
                assert(bit_buffer == hi);
                assert(value as nat == lo + pow2(wb) * bit_buffer);
                lemma_merge_algebra(
                    recon(r0, wn),
                    buf as int,
                    lo as int,
                    bit_buffer as int,
                    value as int,
                    pow2(wn * l) as int,
                    pow2(b as nat) as int,
                    pow2(wb) as int,
                    vk as int,
                );
                assert(result.len() * wn + bits_in_buffer == 64 * (k + 1)) by (nonlinear_arith)
                    requires
                        l * wn + b == 64 * k,
                        result.len() == l + 1,
                        bits_in_buffer == 64 - (wn - b),
                ;
                assert forall|j: int| 0 <= j < result.len() implies 0 <= #[trigger] result@[j] < pow2(wn) by {
                    if j < l {
                        assert(result@[j] == r0[j]);
                    }
                }
            }
        } else {
            proof {
                lemma2_to64();
                lemma2_to64_rest();
                assert(bit_buffer == 0);
                assert(result.len() * wn == 64 * k);
            }
            bit_buffer = value;
            bits_in_buffer = 64;
        }
        while bits_in_buffer >= w64
            invariant
                2 <= w64 < 64,
                w64 == w,
                wn == w,
                pow2(wn) <= 0x8000_0000_0000_0000,
                0 < pow2(wn),
                (1u64 << w64) as nat == pow2(wn),
                k < source.len(),
                bits_in_buffer <= 64,
                result.len() * wn + bits_in_buffer == 64 * (k + 1),
                bit_buffer < pow2(bits_in_buffer as nat),
                forall|j: int| 0 <= j < result.len() ==> 0 <= #[trigger] result@[j] < pow2(wn),
                recon(as_ints(result@), wn) + bit_buffer * pow2(wn * (result.len() as nat)) == vk1,
            decreases bits_in_buffer,
        {
            let ghost buf = bit_buffer;
            let ghost b = bits_in_buffer;
            let ghost l: nat = result.len() as nat;
            let ghost r0 = as_ints(result@);
            proof {
                lemma_split_window(buf, w64);
            }
            result.push((bit_buffer & ((1u64 << w64) - 1)) as i64);
            bit_buffer >>= w64;
            bits_in_buffer -= w64;
            proof {
                let lo = buf as nat % pow2(wn);
                assert(lo < pow2(wn)) by {
                    lemma_mod_bound(buf as int, pow2(wn) as int);
                }
                assert(as_ints(result@) =~= r0.push(lo as int));
                lemma_recon_push(r0, lo as int, wn);
                lemma_pow2_adds(wn * l, wn);
                assert(wn * (l + 1) == wn * l + wn) by (nonlinear_arith);
                lemma_split_algebra(
                    recon(r0, wn),
                    buf as int,
                    lo as int,
                    bit_buffer as int,
                    pow2(wn * l) as int,
                    pow2(wn) as int,
                    vk1 as int,
                );
                assert(result.len() * wn + bits_in_buffer == 64 * (k + 1)) by (nonlinear_arith)
                    requires
                        l * wn + b == 64 * (k + 1),
                        result.len() == l + 1,
                        bits_in_buffer == b - wn,
                ;
                lemma_pow2_adds(bits_in_buffer as nat, wn);
                lemma_div_by_multiple_is_strongly_ordered(buf as int, pow2(b as nat) as int, pow2(bits_in_buffer as nat) as int, pow2(wn) as int);
                lemma_div_multiples_vanish(pow2(bits_in_buffer as nat) as int, pow2(wn) as int);
                assert forall|j: int| 0 <= j < result.len() implies 0 <= #[trigger] result@[j] < pow2(wn) by {
                    if j < l {
                        assert(result@[j] == r0[j]);
                    }
                }
            }
        }
        k += 1;
    }
    if bits_in_buffer > 0 {
        let ghost r0 = as_ints(result@);
        proof {
            lemma_pow2_strictly_increases(bits_in_buffer as nat, wn);
        }
        result.push(bit_buffer as i64);
        proof {
            assert(as_ints(result@) =~= r0.push(bit_buffer as int));
            lemma_recon_push(r0, bit_buffer as int, wn);
        }
    } else {
        proof {
            lemma2_to64();
            assert(bit_buffer == 0);
            assert(bit_buffer * pow2(wn * (result.len() as nat)) == 0) by (nonlinear_arith)
                requires
                    bit_buffer == 0,
            ;
        }
    }
    let ghost raw = as_ints(result@);
    proof {
        if wn < 63 {
            lemma_pow2_strictly_increases(wn, 63);
            lemma2_to64_rest();
        }
        assert(source@.take(source.len() as int) =~= source@);
        lemma_window_count(
            (result.len() - (if bits_in_buffer > 0 { 1int } else { 0int })) as nat,
            bits_in_buffer as nat,
            wn,
            (64 * source.len()) as nat,
        );
        assert forall|j: int| 0 <= j < raw.len() implies 0 <= #[trigger] raw[j] < pow2(wn) by {
            assert(raw[j] == result@[j] as int);
        }
        if wn == 63 {
            assert forall|j: int| 0 <= j < raw.len() implies #[trigger] raw[j] <= pow2((wn - 1) as nat) by {
                lemma_unsigned_digits_unique(raw, v, wn, j as nat);
            }
        }
        lemma_mask((w64 - 1) as u64);
        lemma_pow2_unfold(wn);
    }
    let threshold: i64 = (1u64 << (w64 - 1)) as i64;
    let len0 = result.len();
    let mut i: usize = 0;
    while i < len0
        invariant
            2 <= w64 < 64,
            w64 == w,
            wn == w,
            pow2(wn) <= 0x8000_0000_0000_0000,
            pow2(wn) == 2 * pow2((wn - 1) as nat),
            (1u64 << w64) as nat == pow2(wn),
            wn < 63 ==> pow2(wn) <= 0x4000_0000_0000_0000,
            threshold == pow2((wn - 1) as nat),
            len0 == raw.len(),
            i <= len0,
            result.len() == len0 || (i == len0 && result.len() == len0 + 1 && result@[len0 as int]
                == 1),
            recon(as_ints(result@), wn) == v,
            forall|j: int| 0 <= j < raw.len() ==> 0 <= #[trigger] raw[j] < pow2(wn),
            wn == 63 ==> forall|j: int| 0 <= j < raw.len() ==> #[trigger] raw[j] <= pow2((wn - 1) as nat),
            forall|j: int|
                0 <= j < i ==> -pow2((wn - 1) as nat) < #[trigger] result@[j] <= pow2(
                    (wn - 1) as nat,
                ),
            i < len0 ==> (result@[i as int] == raw[i as int] || (wn < 63 && result@[i as int] == raw[i as int] + 1)),
            forall|j: int| i < j < len0 ==> #[trigger] result@[j] == raw[j],
        decreases len0 - i,
    {
        if result[i] > threshold {
            let ghost r0 = as_ints(result@);
            if i + 1 < result.len() {
                result[i + 1] += 1;
            } else {
                result.push(1);
            }
            let ghost r1 = as_ints(result@);
            result[i] -= (1u64 << w64) as i64;
            proof {
                let ii = i as nat;
                if i + 1 < len0 {
                    assert(r1 =~= r0.update(i + 1, r0[i + 1] + 1));
                    lemma_recon_update(r0, i + 1, r0[i + 1] + 1, wn);
                } else {
                    assert(r1 =~= r0.push(1));
                    lemma_recon_push(r0, 1, wn);
                }
                assert(as_ints(result@) =~= r1.update(i as int, r0[i as int] - pow2(wn)));
                lemma_recon_update(r1, i as int, r0[i as int] - pow2(wn), wn);
                lemma_pow2_adds(wn, wn * ii);
                assert(wn * (ii + 1) == wn + wn * ii) by (nonlinear_arith);
                assert(pow2(wn) * pow2(wn * ii) == pow2(wn * (ii + 1)));
                assert((-(pow2(wn) as int)) * pow2(wn * ii) + 1 * pow2(wn * (ii + 1)) == 0) by (nonlinear_arith)
                    requires
                        pow2(wn) * pow2(wn * ii) == pow2(wn * (ii + 1)),
                ;
            }
        }
        i += 1;
    }
    proof {
        lemma_signed_digits_unique(as_ints(result@), v as int, wn, len0 as nat);
    }
    result
}

/// `w`-bit windows that cover `l w + b` bits with `b < w`.
pub proof fn lemma_window_count(l: nat, b: nat, w: nat, bits: nat)
    requires
        w >= 1,
        b < w,
        l * w + b == bits,
    ensures
        window_count(bits, w) == if b > 0 {
            l + 1
        } else {
            l
        },
{
    if b > 0 {
        assert(((bits + w) - 1) as nat == (l + 1) * w + (b - 1)) by (nonlinear_arith)
            requires
                l * w + b == bits,
                b > 0,
        ;
        lemma_fundamental_div_mod_converse(((bits + w) - 1) as int, w as int, (l + 1) as int, b - 1);
    } else {
        assert(bits + w - 1 == l * w + (w - 1));
        lemma_fundamental_div_mod_converse(((bits + w) - 1) as int, w as int, l as int, w - 1);
    }
}

} // verus!
