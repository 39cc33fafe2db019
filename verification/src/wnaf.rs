//! Scalar multiplication by signed windows: a table of the first
//! `2^(w-1)` multiples of the base in each window of `w` bits, and a sum
//! of one table entry, added or subtracted, per nonzero signed window.

use crate::digits::{
    as_ints, lemma_recon_push, lemma_signed_digits_lower, lemma_signed_digits_shape, lemma_signed_window_digits_recon,
    lemma_table_index, lemma_usize_shift, limbs_to_wnaf_data, recon, signed_window_digits,
    unsigned_window, window_count,
};
use crate::point::{edwards_add, edwards_sub, identity_point, point_add, point_sub, point_zero, Point};
use crate::scalar::{
    fr_modulus, lemma_fr_modulus_bound, lemma_nat_limbs_value, lemma_scalar_value_montgomery, nat_limbs, lemma_limbs_value_bound, lemma_trimmed_value,
    limbs_value, scalar_limbs, scalar_to_u64, scalar_value, Scalar,
};
use vstd::arithmetic::div_mod::*;
use vstd::arithmetic::power2::*;
use vstd::bits::*;
use vstd::prelude::*;

verus! {

/// A helper type that contains all the context required for computing
/// a window NAF multiplication of a curve point by a scalar.
pub struct WnafContext {
    pub window_size: usize,
}

/// Windows of `w` bits that cover the 256 bits of a scalar's limbs.
pub open spec fn wnaf_window_count(w: nat) -> nat {
    window_count(256, w)
}

/// `p, p + p, (p + p) + p, ...`: entry `j` adds `p` to entry `j - 1`.
pub open spec fn multiple(p: Point, j: nat) -> Point
    decreases j,
{
    if j == 0 {
        p
    } else {
        edwards_add(multiple(p, (j - 1) as nat), p)
    }
}

/// The point that window `i` of the table starts from: `base` for the first
/// window, then the last entry of the previous window added to itself.
pub open spec fn window_base(base: Point, th: nat, i: nat) -> Point
    decreases i,
{
    if i == 0 {
        base
    } else {
        let e = multiple(window_base(base, th, (i - 1) as nat), (th - 1) as nat);
        edwards_add(e, e)
    }
}

/// Entry `k` of the table for `base` with windows of `th` entries.
pub open spec fn wnaf_table_entry(base: Point, th: nat, k: nat) -> Point {
    multiple(window_base(base, th, k / th), k % th)
}

/// The table is built by additions alone: its first entry is the base;
/// an entry that starts a window is the entry before it added to itself;
/// any other entry is the entry before it plus the first entry of its window.
pub proof fn lemma_wnaf_table_recurrence(base: Point, th: nat, k: nat)
    requires
        th >= 1,
    ensures
        k == 0 ==> wnaf_table_entry(base, th, k) == base,
        k > 0 && k % th == 0 ==> wnaf_table_entry(base, th, k) == edwards_add(
            wnaf_table_entry(base, th, (k - 1) as nat),
            wnaf_table_entry(base, th, (k - 1) as nat),
        ),
        k > 0 && k % th != 0 ==> wnaf_table_entry(base, th, k) == edwards_add(
            wnaf_table_entry(base, th, (k - 1) as nat),
            wnaf_table_entry(base, th, (k - k % th) as nat),
        ),
{
    let i = k / th;
    let j = k % th;
    lemma_fundamental_div_mod(k as int, th as int);
    lemma_mod_bound(k as int, th as int);
    if k == 0 {
        lemma_small_mod(0, th);
    } else if j == 0 {
        assert(i >= 1) by (nonlinear_arith)
            requires
                k == th * i + j,
                j == 0,
                k > 0,
        ;
        assert(k - 1 == (i - 1) * th + (th - 1)) by (nonlinear_arith)
            requires
                k == th * i + j,
                j == 0,
        ;
        lemma_fundamental_div_mod_converse((k - 1) as int, th as int, (i - 1) as int, (th - 1) as int);
    } else {
        assert(k - 1 == i * th + (j - 1) && k - j == i * th) by (nonlinear_arith)
            requires
                k == th * i + j,
        ;
        lemma_fundamental_div_mod_converse((k - 1) as int, th as int, i as int, (j - 1) as int);
        lemma_fundamental_div_mod_converse((k - j) as int, th as int, i as int, 0);
    }
}

/// The signed windows of `w` bits of a scalar's canonical limbs.
pub open spec fn wnaf_digits(s: Scalar, w: nat) -> Seq<int> {
    signed_window_digits(
        scalar_value(s) as int,
        w,
        window_count((64 * scalar_limbs(s).len()) as nat, w),
    )
}

/// Whether the signed windows of a scalar can be formed in `i64`: always for
/// windows of at most 62 bits, and for 63 bits when no unsigned window
/// exceeds `2^62`.
pub open spec fn wnaf_digits_fit_i64(s: Scalar, w: nat) -> bool {
    w <= 62 || forall|i: nat|
        i < window_count((64 * scalar_limbs(s).len()) as nat, w) ==> unsigned_window(
            scalar_value(s),
            w,
            i,
        ) <= pow2((w - 1) as nat)
}

/// Table index of the nonzero digit `d` of window `i`, for windows of `pre` entries.
pub open spec fn wnaf_index(d: int, i: int, pre: int) -> int {
    (if d < 0 {
        -d
    } else {
        d
    }) - 1 + i * pre
}

/// Every nonzero digit has its entry in a table of `len` entries.
pub open spec fn wnaf_fits(len: int, d: Seq<int>, pre: int) -> bool {
    forall|i: int| 0 <= i < d.len() && d[i] != 0 ==> #[trigger] wnaf_index(d[i], i, pre) < len
}

/// The sum over the first `k` digits: the entry of each positive digit is
/// added, the entry of each negative digit subtracted, from the neutral element on.
pub open spec fn wnaf_sum(table: Seq<Point>, d: Seq<int>, pre: int, k: nat) -> Point
    decreases k,
{
    if k == 0 {
        identity_point()
    } else {
        let acc = wnaf_sum(table, d, pre, (k - 1) as nat);
        let i = k - 1;
        if d[i] < 0 {
            edwards_sub(acc, table[wnaf_index(d[i], i, pre)])
        } else if d[i] > 0 {
            edwards_add(acc, table[wnaf_index(d[i], i, pre)])
        } else {
            acc
        }
    }
}

/// `w`-bit windows that cover `bits` bits cover at least `bits` bits.
proof fn lemma_window_cover(bits: nat, w: nat)
    requires
        w >= 1,
    ensures
        w * window_count(bits, w) >= bits,
{
    let x = ((bits + w) - 1) as int;
    lemma_fundamental_div_mod(x, w as int);
    lemma_mod_bound(x, w as int);
}

/// For a canonical scalar, every nonzero signed window has its entry in the
/// table of `ceil(256 / w)` windows of `2^(w-1)` entries.
pub proof fn lemma_wnaf_digits_fit_table(s: Scalar, w: nat)
    requires
        2 <= w < 64,
        scalar_value(s) < fr_modulus(),
    ensures
        wnaf_fits(
            (wnaf_window_count(w) * pow2((w - 1) as nat)) as int,
            wnaf_digits(s, w),
            pow2((w - 1) as nat) as int,
        ),
{
    let c = nat_limbs(scalar_value(s));
    lemma_fr_modulus_bound();
    lemma_pow2_strictly_increases(253, 256);
    lemma_nat_limbs_value(scalar_value(s));
    let v = scalar_value(s);
    lemma_trimmed_value(c);
    let n = scalar_limbs(s).len();
    lemma_limbs_value_bound(scalar_limbs(s));
    let m = window_count((64 * n) as nat, w);
    let wc = wnaf_window_count(w);
    let th = pow2((w - 1) as nat) as int;
    lemma_window_cover((64 * n) as nat, w);
    if 64 * n < w * m {
        lemma_pow2_strictly_increases((64 * n) as nat, w * m);
    }
    lemma_signed_digits_shape(v as int, w, m);
    lemma_pow2_pos((w - 1) as nat);
    let d = wnaf_digits(s, w);
    if n == 4 {
        assert(m == wc);
        lemma_fr_modulus_bound();
        lemma_window_cover(256, w);
        lemma_pow2_unfold(254);
        lemma_pow2_strictly_increases(253, 254);
        if 254 < w * m {
            lemma_pow2_strictly_increases(254, w * m);
        }
        assert(d.len() == m);
    } else {
        assert(64 * n + w <= 256);
        lemma_div_plus_one(((64 * n + w) - 1) as int, w as int);
        lemma_div_is_ordered(((64 * n + 2 * w) - 1) as int, (256 + w - 1) as int, w as int);
        assert(m + 1 <= wc);
    }
    assert forall|i: int| 0 <= i < d.len() && d[i] != 0 implies #[trigger] wnaf_index(d[i], i, th) < wc * th by {
        let a = if d[i] < 0 { -d[i] } else { d[i] };
        assert(1 <= a <= th);
        assert(i <= wc - 1);
        assert(a - 1 + i * th < wc * th) by (nonlinear_arith)
            requires
                1 <= a <= th,
                0 <= i <= wc - 1,
        ;
    }
}

/// The signed windows of a canonical scalar stand for the scalar: weighted
/// by powers of `2^w` they sum to its integer; every window lies in
/// `(-2^(w-1), 2^(w-1)]`, the count is that of the windows covering its
/// limbs, with no carry entry above them when the limbs are all four in use;
/// and every nonzero window has its entry in the table of `mul`.
pub proof fn lemma_wnaf_digits_represent_scalar(s: Scalar, w: nat)
    requires
        2 <= w < 64,
        scalar_value(s) < fr_modulus(),
    ensures
        recon(wnaf_digits(s, w), w) == scalar_value(s),
        forall|i: int|
            0 <= i < wnaf_digits(s, w).len() ==> -pow2((w - 1) as nat) < #[trigger] wnaf_digits(s, w)[i]
                <= pow2((w - 1) as nat),
        wnaf_digits(s, w).len() <= wnaf_window_count(w),
        wnaf_fits(
            (wnaf_window_count(w) * pow2((w - 1) as nat)) as int,
            wnaf_digits(s, w),
            pow2((w - 1) as nat) as int,
        ),
{
    let v = scalar_value(s);
    let c = nat_limbs(scalar_value(s));
    lemma_fr_modulus_bound();
    lemma_pow2_strictly_increases(253, 256);
    lemma_nat_limbs_value(scalar_value(s));
    lemma_trimmed_value(c);
    let n = scalar_limbs(s).len();
    let m = window_count((64 * n) as nat, w);
    lemma_signed_window_digits_recon(v as int, w, m);
    lemma_limbs_value_bound(scalar_limbs(s));
    lemma_window_cover((64 * n) as nat, w);
    if 64 * n < w * m {
        lemma_pow2_strictly_increases((64 * n) as nat, w * m);
    }
    lemma_signed_digits_shape(v as int, w, m);
    lemma_wnaf_digits_fit_table(s, w);
    let d = wnaf_digits(s, w);
    lemma_pow2_pos((w - 1) as nat);
    lemma_pow2_unfold(w);
    if n == 4 {
        lemma_fr_modulus_bound();
        lemma_window_cover(256, w);
        lemma_pow2_unfold(254);
        lemma_pow2_strictly_increases(253, 254);
        if 254 < w * m {
            lemma_pow2_strictly_increases(254, w * m);
        }
    } else {
        assert(64 * n + w <= 256);
        lemma_div_plus_one(((64 * n + w) - 1) as int, w as int);
        lemma_div_is_ordered(((64 * n + 2 * w) - 1) as int, (256 + w - 1) as int, w as int);
    }
    assert forall|i: int| 0 <= i < d.len() implies -pow2((w - 1) as nat) < #[trigger] d[i] <= pow2(
        (w - 1) as nat,
    ) by {
        if i == m {
            assert(d[i] == 1);
        }
    }
}

/// The steps of the signed-window sum over its first `k` digits: a digit
/// `d > 0` adds table entry `wnaf_index(d, i, pre)`, written as that index;
/// a digit `d < 0` subtracts it, written as `-index - 1`; zero does nothing.
pub open spec fn wnaf_ops(d: Seq<int>, pre: int, k: nat) -> Seq<int>
    decreases k,
{
    if k == 0 {
        Seq::empty()
    } else {
        let i = k - 1;
        let prev = wnaf_ops(d, pre, (k - 1) as nat);
        if d[i] < 0 {
            prev.push(-wnaf_index(d[i], i, pre) - 1)
        } else if d[i] > 0 {
            prev.push(wnaf_index(d[i], i, pre))
        } else {
            prev
        }
    }
}

/// The steps applied to a table, from the neutral element on.
pub open spec fn apply_signed(table: Seq<Point>, ops: Seq<int>) -> Point
    decreases ops.len(),
{
    if ops.len() == 0 {
        identity_point()
    } else {
        let a = apply_signed(table, ops.drop_last());
        let o = ops.last();
        if o < 0 {
            edwards_sub(a, table[-o - 1])
        } else {
            edwards_add(a, table[o])
        }
    }
}

/// What entry `i` of the signed-window table stands for, as a multiple of
/// the base: entry `j` of window `q` is `(j + 1) 2^(w q)`.
pub open spec fn wnaf_entry_value(i: int, w: nat, pre: int) -> int {
    (i % pre + 1) * pow2((w * (i / pre)) as nat)
}

/// The multiple of the base that the steps compute when each entry is worth
/// its `wnaf_entry_value`.
pub open spec fn signed_value(ops: Seq<int>, w: nat, pre: int) -> int
    decreases ops.len(),
{
    if ops.len() == 0 {
        0
    } else {
        let v = signed_value(ops.drop_last(), w, pre);
        let o = ops.last();
        if o < 0 {
            v - wnaf_entry_value(-o - 1, w, pre)
        } else {
            v + wnaf_entry_value(o, w, pre)
        }
    }
}

/// The values that the table entries stand for obey the recurrence by which
/// `table` builds the entries: the first is worth one base, an entry that
/// starts a window twice the entry before it, any other the entry before it
/// plus the first entry of its window.
pub proof fn lemma_wnaf_entry_value_recurrence(w: nat, k: int)
    requires
        w >= 1,
        k >= 0,
    ensures
        k == 0 ==> wnaf_entry_value(k, w, pow2((w - 1) as nat) as int) == 1,
        k > 0 && k % (pow2((w - 1) as nat) as int) == 0 ==> wnaf_entry_value(
            k,
            w,
            pow2((w - 1) as nat) as int,
        ) == 2 * wnaf_entry_value(k - 1, w, pow2((w - 1) as nat) as int),
        k > 0 && k % (pow2((w - 1) as nat) as int) != 0 ==> wnaf_entry_value(
            k,
            w,
            pow2((w - 1) as nat) as int,
        ) == wnaf_entry_value(k - 1, w, pow2((w - 1) as nat) as int) + wnaf_entry_value(
            k - k % (pow2((w - 1) as nat) as int),
            w,
            pow2((w - 1) as nat) as int,
        ),
{
    let pre = pow2((w - 1) as nat) as int;
    lemma_pow2_pos((w - 1) as nat);
    let q = k / pre;
    let j = k % pre;
    lemma_fundamental_div_mod(k, pre);
    lemma_mod_bound(k, pre);
    lemma_div_pos_is_pos(k, pre);
    if k == 0 {
        lemma_small_mod(0, pre as nat);
        lemma_basic_div(0, pre);
        lemma2_to64();
        assert(w * 0int == 0);
    } else if j == 0 {
        assert(q >= 1) by (nonlinear_arith)
            requires
                k == pre * q + j,
                j == 0,
                k > 0,
                pre > 0,
                q >= 0,
        ;
        assert(k - 1 == pre * (q - 1) + (pre - 1)) by (nonlinear_arith)
            requires
                k == pre * q + j,
                j == 0,
        ;
        lemma_fundamental_div_mod_converse(k - 1, pre, q - 1, pre - 1);
        // 2^(w (q - 1)) 2^(w - 1) 2 == 2^(w q)
        assert(w * q == w * (q - 1) + (w - 1) + 1) by (nonlinear_arith);
        lemma_pow2_adds((w * (q - 1)) as nat, (w - 1) as nat);
        lemma_pow2_unfold((w * q) as nat);
        assert(((w * (q - 1)) + (w - 1)) as nat == ((w * q) - 1) as nat);
        assert(pre * pow2((w * (q - 1)) as nat) == pow2((w * (q - 1)) as nat) * pre) by (nonlinear_arith);
    } else {
        assert(k - 1 == pre * q + (j - 1) && k - j == pre * q) by (nonlinear_arith)
            requires
                k == pre * q + j,
        ;
        lemma_fundamental_div_mod_converse(k - 1, pre, q, j - 1);
        lemma_fundamental_div_mod_converse(k - j, pre, q, 0);
        let p = pow2((w * q) as nat) as int;
        assert((j + 1) * p == j * p + 1 * p) by (nonlinear_arith);
    }
}

/// The signed-window sum of `mul_with_table` is its steps applied to the table.
pub proof fn lemma_wnaf_sum_ops(table: Seq<Point>, d: Seq<int>, pre: int, k: nat)
    requires
        pre >= 0,
    ensures
        wnaf_sum(table, d, pre, k) == apply_signed(table, wnaf_ops(d, pre, k)),
    decreases k,
{
    if k > 0 {
        let prev = wnaf_ops(d, pre, (k - 1) as nat);
        lemma_wnaf_sum_ops(table, d, pre, (k - 1) as nat);
        let i = k - 1;
        let a = apply_signed(table, prev);
        assert(wnaf_sum(table, d, pre, (k - 1) as nat) == a);
        assert(i * pre >= 0) by (nonlinear_arith)
            requires
                i >= 0,
                pre >= 0,
        ;
        if d[i] < 0 {
            let x = -wnaf_index(d[i], i, pre) - 1;
            assert(wnaf_ops(d, pre, k) == prev.push(x));
            assert(prev.push(x).drop_last() =~= prev);
            assert(prev.push(x).last() == x);
            assert(-x - 1 == wnaf_index(d[i], i, pre));
            assert(apply_signed(table, prev.push(x)) == edwards_sub(a, table[wnaf_index(d[i], i, pre)]));
        } else if d[i] > 0 {
            let x = wnaf_index(d[i], i, pre);
            assert(wnaf_ops(d, pre, k) == prev.push(x));
            assert(prev.push(x).drop_last() =~= prev);
            assert(prev.push(x).last() == x);
            assert(x >= 0);
            assert(apply_signed(table, prev.push(x)) == edwards_add(a, table[x]));
        } else {
            assert(wnaf_ops(d, pre, k) == prev);
        }
    }
}

/// Read as integers, the steps of the signed-window sum give the digits'
/// value: each nonzero digit `d` of window `i` adds or subtracts the entry
/// worth `|d| 2^(w i)`, so that the steps sum to `d_0 + d_1 2^w + ...`.
pub proof fn lemma_wnaf_ops_recon(d: Seq<int>, w: nat, k: nat)
    requires
        w >= 1,
        k <= d.len(),
        forall|i: int|
            0 <= i < d.len() ==> -pow2((w - 1) as nat) < #[trigger] d[i] <= pow2((w - 1) as nat),
    ensures
        signed_value(wnaf_ops(d, pow2((w - 1) as nat) as int, k), w, pow2((w - 1) as nat) as int)
            == recon(d.take(k as int), w),
    decreases k,
{
    let pre = pow2((w - 1) as nat) as int;
    lemma_pow2_pos((w - 1) as nat);
    if k == 0 {
        assert(d.take(0) =~= Seq::<int>::empty());
    } else {
        let i = k - 1;
        lemma_wnaf_ops_recon(d, w, (k - 1) as nat);
        let prev = wnaf_ops(d, pre, (k - 1) as nat);
        assert(d.take(k as int) =~= d.take(i).push(d[i]));
        lemma_recon_push(d.take(i), d[i], w);
        assert(d.take(i).len() == i);
        let di = d[i];
        if di != 0 {
            let a = if di < 0 { -di } else { di };
            let idx = a - 1 + i * pre;
            assert(wnaf_index(di, i, pre) == idx);
            assert(0 <= a - 1 < pre);
            assert(i * pre >= 0) by (nonlinear_arith)
                requires
                    i >= 0,
                    pre >= 1,
            ;
            assert(idx == pre * i + (a - 1)) by (nonlinear_arith)
                requires
                    idx == a - 1 + i * pre,
            ;
            lemma_fundamental_div_mod_converse(idx, pre, i, a - 1);
            assert(wnaf_entry_value(idx, w, pre) == a * pow2((w * i) as nat));
            let x = if di < 0 { -idx - 1 } else { idx };
            assert(wnaf_ops(d, pre, k) == prev.push(x));
            assert(prev.push(x).drop_last() =~= prev);
            assert(prev.push(x).last() == x);
            assert(w * (i as nat) == w * d.take(i).len());
            let pw = pow2((w * i) as nat) as int;
            if di < 0 {
                assert(-x - 1 == idx);
                assert(signed_value(prev.push(x), w, pre) == signed_value(prev, w, pre) - a * pw);
                assert(-(a * pw) == di * pw) by (nonlinear_arith)
                    requires
                        a == -di,
                ;
            } else {
                assert(signed_value(prev.push(x), w, pre) == signed_value(prev, w, pre) + a * pw);
            }
        } else {
            assert(wnaf_ops(d, pre, k) == prev);
            assert(di * pow2(w * d.take(i).len()) == 0) by (nonlinear_arith)
                requires
                    di == 0,
            ;
        }
    }
}

/// Read as integers, `mul_with_table` computes the scalar: with each table
/// entry worth the multiple of the base that it stands for, the additions
/// and subtractions of the signed windows of a canonical scalar sum to the
/// scalar itself.
pub proof fn lemma_wnaf_ops_value(s: Scalar, w: nat)
    requires
        2 <= w < 64,
        s.wf(),
    ensures
        signed_value(
            wnaf_ops(wnaf_digits(s, w), pow2((w - 1) as nat) as int, wnaf_digits(s, w).len()),
            w,
            pow2((w - 1) as nat) as int,
        ) == scalar_value(s),
{
    let d = wnaf_digits(s, w);
    lemma_scalar_value_montgomery(s);
    lemma_wnaf_digits_represent_scalar(s, w);
    lemma_wnaf_ops_recon(d, w, d.len());
    assert(d.take(d.len() as int) =~= d);
}

/// `a - 1 + i p < l` exactly when `i <= (l - a) / p`.
proof fn lemma_index_check(a: int, i: int, p: int, l: int)
    requires
        1 <= a <= l,
        p >= 1,
        i >= 0,
    ensures
        (a - 1 + i * p < l) <==> i <= (l - a) / p,
{
    let x = l - a;
    lemma_fundamental_div_mod(x, p);
    lemma_mod_bound(x, p);
    let q = x / p;
    if i <= q {
        assert(i * p <= q * p) by (nonlinear_arith)
            requires
                i <= q,
                p >= 1,
        ;
    } else {
        assert(i * p >= q * p + p) by (nonlinear_arith)
            requires
                i >= q + 1,
                p >= 1,
        ;
    }
    assert(p * q == q * p) by (nonlinear_arith);
}

impl WnafContext {
    /// The window size lies where the constructor admits it.
    pub open spec fn wf(&self) -> bool {
        2 <= self.window_size < 64
    }

    /// Constructs a new context for a window of size `window_size`, which
    /// must satisfy `2 <= window_size < 64`.
    pub fn new(window_size: usize) -> (r: Self)
        requires
            2 <= window_size < 64,
        ensures
            r.window_size == window_size,
            r.wf(),
    {
        Self { window_size }
    }

    /// The table of multiples of `base`: `ceil(256 / w)` windows of
    /// `2^(w-1)` entries, entry `j` of a window holding `j + 1` times the
    /// window's base, each window's base being twice the last entry of the
    /// window before.
    pub fn table(&self, base: Point) -> (table: Vec<Point>)
        requires
            self.wf(),
            wnaf_window_count(self.window_size as nat) * pow2((self.window_size - 1) as nat)
                <= usize::MAX,
        ensures
            table.len() == wnaf_window_count(self.window_size as nat) * pow2(
                (self.window_size - 1) as nat,
            ),
            forall|k: int|
                0 <= k < table.len() ==> #[trigger] table@[k] == wnaf_table_entry(
                    base,
                    pow2((self.window_size - 1) as nat),
                    k as nat,
                ),
            table@[0] == base,
            forall|k: int|
                0 < k < table.len() && k % (pow2((self.window_size - 1) as nat) as int) == 0
                    ==> #[trigger] table@[k] == edwards_add(table@[k - 1], table@[k - 1]),
            forall|k: int|
                0 < k < table.len() && k % (pow2((self.window_size - 1) as nat) as int) != 0
                    ==> #[trigger] table@[k] == edwards_add(
                    table@[k - 1],
                    table@[k - k % (pow2((self.window_size - 1) as nat) as int)],
                ),
    {
        let ghost w = self.window_size as nat;
        let ghost th = pow2((w - 1) as nat);
        let ghost wc = wnaf_window_count(w);
        let ghost base0 = base;
        proof {
            lemma_pow2_pos((w - 1) as nat);
            lemma_div_is_ordered(w as int, (256 + w - 1) as int, w as int);
            lemma_div_by_self(w as int);
            assert(th <= wc * th) by (nonlinear_arith)
                requires
                    wc >= 1,
            ;
            lemma_usize_shift((w - 1) as nat);
        }
        let window_count = (256 + self.window_size - 1) / self.window_size;
        let table_size = window_count * (1 << (self.window_size - 1));
        let mut table = Vec::with_capacity(table_size);
        let threshold = 1 << (self.window_size - 1);
        let mut base = base;
        let mut wi: usize = 0;
        while wi < window_count
            invariant
                w == self.window_size,
                window_count == wc,
                threshold == th,
                th >= 1,
                wc * th <= usize::MAX,
                wi <= wc,
                table.len() == wi * th,
                base == window_base(base0, th, wi as nat),
                forall|k: int|
                    0 <= k < table.len() ==> #[trigger] table@[k] == wnaf_table_entry(
                        base0,
                        th,
                        k as nat,
                    ),
            decreases wc - wi,
        {
            let mut current_base = base;
            table.push(current_base);
            proof {
                lemma_table_index(wi as nat, 0, th);
            }
            let mut j: usize = 1;
            while j < threshold
                invariant
                    w == self.window_size,
                    threshold == th,
                    th >= 1,
                    wi < wc,
                    wc * th <= usize::MAX,
                    1 <= j <= th,
                    table.len() == wi * th + j,
                    base == window_base(base0, th, wi as nat),
                    current_base == multiple(base, (j - 1) as nat),
                    forall|k: int|
                        0 <= k < table.len() ==> #[trigger] table@[k] == wnaf_table_entry(
                            base0,
                            th,
                            k as nat,
                        ),
                decreases th - j,
            {
                proof {
                    assert(wi * th + j < wc * th) by (nonlinear_arith)
                        requires
                            wi < wc,
                            j < th,
                    ;
                    lemma_table_index(wi as nat, j as nat, th);
                }
                current_base = point_add(&current_base, &base);
                table.push(current_base);
                j += 1;
            }
            base = point_add(&current_base, &current_base);
            wi += 1;
            proof {
                assert(wi * th == (wi - 1) * th + th) by (nonlinear_arith);
            }
        }
        proof {
            lemma_wnaf_table_recurrence(base0, th, 0);
            assert forall|k: int| 0 < k < table.len() implies {
                &&& k % (th as int) == 0 ==> #[trigger] table@[k] == edwards_add(table@[k - 1], table@[k - 1])
                &&& k % (th as int) != 0 ==> table@[k] == edwards_add(table@[k - 1], table@[k - k % (th as int)])
            } by {
                lemma_wnaf_table_recurrence(base0, th, k as nat);
                lemma_mod_bound(k, th as int);
                let k0 = k - k % (th as int);
                lemma_fundamental_div_mod(k, th as int);
                lemma_div_pos_is_pos(k, th as int);
                assert(0 <= k0) by (nonlinear_arith)
                    requires
                        k == (th as int) * (k / (th as int)) + k % (th as int),
                        k / (th as int) >= 0,
                        k0 == k - k % (th as int),
                ;
                assert(table@[k] == wnaf_table_entry(base0, th, k as nat));
                assert(table@[k - 1] == wnaf_table_entry(base0, th, (k - 1) as nat));
                assert(table@[k0] == wnaf_table_entry(base0, th, k0 as nat));
            }
        }
        table
    }

    /// The signed windows of `w` bits of `scalar`.
    fn scalar_to_wnaf_data(scalar: &Scalar, w: usize) -> (r: Vec<i64>)
        requires
            scalar.wf(),
            2 <= w < 64,
            wnaf_digits_fit_i64(*scalar, w as nat),
        ensures
            as_ints(r@) == wnaf_digits(*scalar, w as nat),
            scalar_value(*scalar) < fr_modulus(),
    {
        let source = Self::scalar_to_u64(scalar);
        limbs_to_wnaf_data(&source, w)
    }

    /// Canonical limbs of `scalar`, without the zero limbs above its top bit.
    fn scalar_to_u64(scalar: &Scalar) -> (r: Vec<u64>)
        requires
            scalar.wf(),
        ensures
            r@ == scalar_limbs(*scalar),
            limbs_value(r@) == scalar_value(*scalar),
            scalar_value(*scalar) < fr_modulus(),
            r.len() <= 4,
    {
        scalar_to_u64(scalar)
    }

    /// The multiple of the table's base by `scalar`: `None` when the table
    /// holds fewer than `2^(w-1)` entries; otherwise, for each nonzero signed
    /// window `d` of the scalar at position `i`, table entry
    /// `|d| - 1 + i 2^(w-1)` added for `d > 0` and subtracted for `d < 0`.
    pub fn mul_with_table(&self, base_table: &[Point], scalar: &Scalar) -> (r: Option<Point>)
        requires
            self.wf(),
            self.window_size <= usize::BITS,
            scalar.wf(),
            pow2((self.window_size - 1) as nat) <= base_table.len() ==> {
                &&& wnaf_digits_fit_i64(*scalar, self.window_size as nat)
                &&& (wnaf_window_count(self.window_size as nat) * pow2((self.window_size - 1) as nat)
                    <= base_table.len() || wnaf_fits(
                    base_table.len() as int,
                    wnaf_digits(*scalar, self.window_size as nat),
                    pow2((self.window_size - 1) as nat) as int,
                ))
            },
        ensures
            pow2((self.window_size - 1) as nat) > base_table.len() ==> r.is_none(),
            pow2((self.window_size - 1) as nat) <= base_table.len() ==> r == Some(
                wnaf_sum(
                    base_table@,
                    wnaf_digits(*scalar, self.window_size as nat),
                    pow2((self.window_size - 1) as nat) as int,
                    wnaf_digits(*scalar, self.window_size as nat).len(),
                ),
            ),
            pow2((self.window_size - 1) as nat) <= base_table.len() ==> r == Some(
                apply_signed(
                    base_table@,
                    wnaf_ops(
                        wnaf_digits(*scalar, self.window_size as nat),
                        pow2((self.window_size - 1) as nat) as int,
                        wnaf_digits(*scalar, self.window_size as nat).len(),
                    ),
                ),
            ),
    {
        let ghost w = self.window_size as nat;
        let ghost pre = pow2((w - 1) as nat) as int;
        proof {
            vstd::layout::unsigned_int_max_values();
            lemma_pow2_strictly_increases((w - 1) as nat, usize::BITS as nat);
            lemma_usize_shift((w - 1) as nat);
        }
        if 1 << (self.window_size - 1) > base_table.len() {
            return None;
        }
        let wnaf_data = Self::scalar_to_wnaf_data(scalar, self.window_size);
        let ghost d = wnaf_digits(*scalar, w);
        proof {
            if wnaf_window_count(w) * pow2((w - 1) as nat) <= base_table.len() {
                lemma_wnaf_digits_fit_table(*scalar, w);
                let big = wnaf_window_count(w) * pow2((w - 1) as nat);
                assert forall|i: int| 0 <= i < d.len() && d[i] != 0 implies #[trigger] wnaf_index(d[i], i, pre) < base_table.len() by {
                    assert(wnaf_index(d[i], i, pre) < big);
                }
            }
            lemma_pow2_pos((w - 1) as nat);
            lemma_signed_digits_lower(scalar_value(*scalar) as int, w, window_count((64 * scalar_limbs(*scalar).len()) as nat, w));
            lemma2_to64_rest();
            if w < 64 {
                lemma_pow2_strictly_increases((w - 1) as nat, 63);
            }
        }
        let pre_comp_size = 1 << (self.window_size - 1);
        let mut result = point_zero();
        let mut i: usize = 0;
        while i < wnaf_data.len()
            invariant
                pre_comp_size == pre,
                pre >= 1,
                as_ints(wnaf_data@) == d,
                forall|k: int| 0 <= k < d.len() ==> -pow2(63) < #[trigger] d[k],
                wnaf_fits(base_table.len() as int, d, pre),
                i <= wnaf_data.len(),
                result == wnaf_sum(base_table@, d, pre, i as nat),
            decreases wnaf_data.len() - i,
        {
            let wnaf_value = wnaf_data[i];
            proof {
                assert(d[i as int] == wnaf_value as int);
                lemma2_to64_rest();
                if wnaf_value != 0 {
                    assert(wnaf_index(d[i as int], i as int, pre) < base_table.len());
                    assert(i * pre >= 0) by (nonlinear_arith)
                        requires
                            pre >= 1,
                    ;
                }
            }
            if wnaf_value < 0 {
                let element = base_table[(-wnaf_value - 1) as usize + i * pre_comp_size];
                result = point_sub(&result, &element);
            } else if wnaf_value > 0 {
                let element = base_table[(wnaf_value - 1) as usize + i * pre_comp_size];
                result = point_add(&result, &element);
            }
            i += 1;
        }
        proof {
            lemma_wnaf_sum_ops(base_table@, d, pre, d.len());
        }
        Some(result)
    }

    /// The multiple of `g` by `scalar`: the sum of `mul_with_table` over
    /// the table of `g`.
    pub fn mul(&self, g: Point, scalar: &Scalar) -> (r: Point)
        requires
            self.wf(),
            scalar.wf(),
            wnaf_window_count(self.window_size as nat) * pow2((self.window_size - 1) as nat)
                <= usize::MAX,
        ensures
            r == wnaf_sum(
                Seq::new(
                    wnaf_window_count(self.window_size as nat) * pow2((self.window_size - 1) as nat),
                    |k: int| wnaf_table_entry(g, pow2((self.window_size - 1) as nat), k as nat),
                ),
                wnaf_digits(*scalar, self.window_size as nat),
                pow2((self.window_size - 1) as nat) as int,
                wnaf_digits(*scalar, self.window_size as nat).len(),
            ),
            r == apply_signed(
                Seq::new(
                    wnaf_window_count(self.window_size as nat) * pow2((self.window_size - 1) as nat),
                    |k: int| wnaf_table_entry(g, pow2((self.window_size - 1) as nat), k as nat),
                ),
                wnaf_ops(
                    wnaf_digits(*scalar, self.window_size as nat),
                    pow2((self.window_size - 1) as nat) as int,
                    wnaf_digits(*scalar, self.window_size as nat).len(),
                ),
            ),
    {
        let ghost w = self.window_size as nat;
        let ghost th = pow2((w - 1) as nat);
        let ghost wc = wnaf_window_count(w);
        let table = self.table(g);
        proof {
            lemma_pow2_pos((w - 1) as nat);
            lemma_div_is_ordered(w as int, (256 + w - 1) as int, w as int);
            lemma_div_by_self(w as int);
            assert(th <= wc * th) by (nonlinear_arith)
                requires
                    wc >= 1,
            ;
            lemma_usize_shift((w - 1) as nat);
            if w == 63 {
                vstd::layout::unsigned_int_max_values();
                lemma2_to64_rest();
                assert(wc == 5);
                assert(pow2(usize::BITS as nat) <= pow2(64)) by {
                    if usize::BITS < 64 {
                        lemma_pow2_strictly_increases(usize::BITS as nat, 64);
                    }
                }
                assert(wc * th == 5 * pow2(62));
                assert(false);
            }
            assert(table@ =~= Seq::new(wc * th, |k: int| wnaf_table_entry(g, th, k as nat)));
        }
        self.mul_with_table(&table, scalar).unwrap()
    }

    /// `mul_with_table` with the entries that it reads checked first:
    /// `None` when the table holds fewer than `2^(w-1)` entries, when windows
    /// of more than 62 bits are asked for, or when a nonzero signed window of
    /// the scalar has no entry in the table; otherwise what `mul_with_table`
    /// returns.
    pub fn checked_mul_with_table(&self, base_table: &[Point], scalar: &Scalar) -> (r: Option<
        Point,
    >)
        requires
            self.wf(),
            self.window_size <= usize::BITS,
            scalar.wf(),
        ensures
            r.is_some() <==> {
                &&& pow2((self.window_size - 1) as nat) <= base_table.len()
                &&& self.window_size <= 62
                &&& wnaf_fits(
                    base_table.len() as int,
                    wnaf_digits(*scalar, self.window_size as nat),
                    pow2((self.window_size - 1) as nat) as int,
                )
            },
            r.is_some() ==> r == Some(
                wnaf_sum(
                    base_table@,
                    wnaf_digits(*scalar, self.window_size as nat),
                    pow2((self.window_size - 1) as nat) as int,
                    wnaf_digits(*scalar, self.window_size as nat).len(),
                ),
            ),
    {
        let ghost w = self.window_size as nat;
        let ghost th = pow2((w - 1) as nat) as int;
        proof {
            vstd::layout::unsigned_int_max_values();
            lemma_pow2_strictly_increases((w - 1) as nat, usize::BITS as nat);
            lemma_usize_shift((w - 1) as nat);
            lemma_pow2_pos((w - 1) as nat);
        }
        if (1 << (self.window_size - 1)) > base_table.len() || self.window_size > 62 {
            return None;
        }
        let wnaf_data = Self::scalar_to_wnaf_data(scalar, self.window_size);
        let ghost d = wnaf_digits(*scalar, w);
        let pre: usize = 1 << (self.window_size - 1);
        let len = base_table.len();
        proof {
            lemma_signed_digits_lower(scalar_value(*scalar) as int, w, window_count((64 * scalar_limbs(*scalar).len()) as nat, w));
            lemma2_to64_rest();
            lemma_pow2_strictly_increases((w - 1) as nat, 63);
        }
        let mut i: usize = 0;
        while i < wnaf_data.len()
            invariant
                pre == th,
                th >= 1,
                th == pow2((self.window_size - 1) as nat) as int,
                d == wnaf_digits(*scalar, self.window_size as nat),
                pow2((self.window_size - 1) as nat) <= base_table.len(),
                self.window_size <= 62,
                len == base_table.len(),
                as_ints(wnaf_data@) == d,
                forall|k: int| 0 <= k < d.len() ==> -pow2(63) < #[trigger] d[k],
                pow2(63) == 0x8000_0000_0000_0000,
                i <= wnaf_data.len(),
                forall|k: int| 0 <= k < i && d[k] != 0 ==> #[trigger] wnaf_index(d[k], k, th) < len,
            decreases wnaf_data.len() - i,
        {
            let digit = wnaf_data[i];
            proof {
                assert(d[i as int] == digit as int);
            }
            if digit != 0 {
                let a: u64 = if digit < 0 {
                    (-digit) as u64
                } else {
                    digit as u64
                };
                if a > len as u64 {
                    proof {
                        assert(i * th >= 0) by (nonlinear_arith)
                            requires
                                th >= 1,
                        ;
                        assert(wnaf_index(d[i as int], i as int, th) >= len);
                        assert(d[i as int] != 0 && 0 <= i < d.len());
                        assert(!wnaf_fits(len as int, d, th));
                    }
                    return None;
                }
                proof {
                    lemma_index_check(a as int, i as int, th, len as int);
                }
                if i > (len - a as usize) / pre {
                    proof {
                        assert(wnaf_index(d[i as int], i as int, th) >= len);
                        assert(d[i as int] != 0 && 0 <= i < d.len());
                        assert(!wnaf_fits(len as int, d, th));
                    }
                    return None;
                }
            }
            i += 1;
        }
        self.mul_with_table(base_table, scalar)
    }
}

} // verus!
