//! What the comb computes, stated apart from the definitions that its
//! functions are verified against: every entry of the comb table is the sum
//! of the doubled basis points that its window value selects, and the comb
//! sum, read as integers, adds up to the scalar.

use crate::digits::lemma_window_count;
use crate::gotti::{
    comb_column, comb_value, doubled, filled, gotti_bit, gotti_column_len, gotti_column_sum,
    gotti_sum, gotti_table_entry, gotti_window_basis, gotti_window_bits, gotti_window_count,
    gotti_window_table, gotti_window_value, lemma_bit_of_add_high, lemma_bit_of_shifted,
    lemma_bit_of_top, lemma_comb_value, lemma_filled_len, lemma_gotti_table_entry_reversed,
    lemma_high_bit_zero, lemma_reversed_bits_bound, lemma_reversed_bits_involution,
    lemma_sum_ext, lemma_sum_rows, lemma_sum_scale, lemma_sum_split, lemma_sum_zero,
    mont_is_zero, reversed_bits, sum_to, window_len,
};
use crate::point::{edwards_add, edwards_double, identity_point, Point};
use crate::scalar::{bit_of, lemma_fr_modulus_bound, lemma_scalar_value_montgomery, scalar_value, Scalar};
use vstd::arithmetic::div_mod::*;
use vstd::arithmetic::power2::*;
use vstd::prelude::*;

verus! {

/// The sum of the points `bs[k]` whose bit `k` is set in `v`, for `k` from
/// `k` on: the highest selected point is added to the neutral element
/// first, the lowest last.
pub open spec fn subset_sum(bs: Seq<Point>, v: nat, k: nat) -> Point
    decreases bs.len() - k,
{
    if k >= bs.len() {
        identity_point()
    } else {
        let acc = subset_sum(bs, v, k + 1);
        if bit_of(v, k) == 1 {
            edwards_add(acc, bs[k as int])
        } else {
            acc
        }
    }
}

/// The basis points of window `wi` of the comb for `base`: point `j` is
/// `base` doubled `t (wi b + j)` times, one for each column entry of the window.
pub open spec fn comb_window_points(base: Point, t: nat, b: nat, wi: nat) -> Seq<Point> {
    Seq::new(window_len(gotti_column_len(t), b, wi), |j: int| doubled(base, t * (wi * b + j as nat)))
}

/// The table entry that window `wi` of value `v` should select: the sum of
/// the basis points of the window that the set bits of `v` pick.
pub open spec fn comb_window_entry(base: Point, t: nat, b: nat, wi: nat, v: nat) -> Point {
    subset_sum(comb_window_points(base, t, b, wi), v, 0)
}

/// Reversing `m` bits reads only the low `m` bits.
proof fn lemma_reversed_bits_low(x: nat, y: nat, m: nat)
    requires
        forall|j: nat| j < m ==> #[trigger] bit_of(x, j) == bit_of(y, j),
    ensures
        reversed_bits(x, m) == reversed_bits(y, m),
    decreases m,
{
    if m > 0 {
        lemma_reversed_bits_low(x, y, (m - 1) as nat);
        assert(bit_of(x, (m - 1) as nat) == bit_of(y, (m - 1) as nat));
    }
}

/// Dropping the first point moves every selection bit down by one.
proof fn lemma_subset_sum_shift(bs: Seq<Point>, v: nat, k: nat)
    requires
        bs.len() >= 1,
    ensures
        subset_sum(bs, v, k + 1) == subset_sum(bs.drop_first(), v / 2, k),
    decreases bs.len() - k,
{
    if k + 1 < bs.len() {
        lemma_subset_sum_shift(bs, v, k + 1);
        lemma_bit_of_shifted(v, 0, k);
        assert(bs[(k + 1) as int] == bs.drop_first()[k as int]);
    }
}

/// Position `p` of a window table of `2^m` entries filled from the basis
/// `bs` (at most `m` points) is the sum of the points that the bits of `p`
/// read from the top select: the subset sum at the bit reversal of `p`.
proof fn lemma_filled_subset_sum(bs: Seq<Point>, m: nat, p: nat)
    requires
        bs.len() <= m,
        p < pow2(m),
    ensures
        filled(bs, Seq::new(pow2(m), |i: int| identity_point()))[p as int] == subset_sum(
            bs,
            reversed_bits(p, m),
            0,
        ),
    decreases bs.len(),
{
    let ids = Seq::new(pow2(m), |i: int| identity_point());
    if bs.len() > 0 {
        let k = (m - 1) as nat;
        let h = pow2(k);
        lemma_pow2_unfold(m);
        lemma_pow2_pos(k);
        let bs1 = bs.drop_first();
        assert(ids.len() / 2 == h);
        assert(ids.take(h as int) =~= Seq::new(pow2(k), |i: int| identity_point()));
        let lo = filled(bs1, ids.take(h as int));
        lemma_filled_len(bs1, ids.take(h as int));
        let f = filled(bs, ids);
        assert(f == lo + Seq::new(h, |i: int| edwards_add(lo[i], bs[0])) + ids.skip((2 * h) as int));
        let a = reversed_bits(p, k);
        let c = (p / pow2(k)) % 2;
        let r = reversed_bits(p, m);
        assert(r == 2 * a + c);
        lemma_mod_bound((p / pow2(k)) as int, 2);
        lemma_bit_of_shifted(a, c, 0);
        lemma_fundamental_div_mod_converse(r as int, 2, a as int, c as int);
        lemma_subset_sum_shift(bs, r, 0);
        if p < h {
            lemma_high_bit_zero(p, k);
            lemma_filled_subset_sum(bs1, k, p);
            assert(f[p as int] == lo[p as int]);
        } else {
            let q = (p - h) as nat;
            lemma_bit_of_top(q, 1, k);
            assert(q + 1 * pow2(k) == p);
            assert forall|j: nat| j < k implies #[trigger] bit_of(q, j) == bit_of(p, j) by {
                lemma_bit_of_add_high(q, 1, j, k);
            }
            lemma_reversed_bits_low(q, p, k);
            lemma_filled_subset_sum(bs1, k, q);
            assert(f[p as int] == edwards_add(lo[q as int], bs[0]));
        }
    }
}

/// Every entry of the comb table is the sum of the doubled basis points that
/// its window value selects: entry `wi 2^b + v` holds the points
/// `base` doubled `t (wi b + j)` times, for the set bits `j` of `v`, added
/// from the highest to the lowest.  This holds for windows of at most 32
/// bits, where the rearrangement is the bit reversal.
pub proof fn lemma_gotti_table_subset_sums(base: Point, t: nat, b: nat, wi: nat, v: nat)
    requires
        t >= 1,
        1 <= b <= 32,
        wi < gotti_window_count(t, b),
        v < pow2(b),
    ensures
        gotti_table_entry(base, t, b, wi * pow2(b) + v) == comb_window_entry(base, t, b, wi, v),
{
    let ws = pow2(b);
    let k = wi * ws + v;
    let cl = gotti_column_len(t);
    lemma_pow2_pos(b);
    lemma_gotti_table_entry_reversed(base, t, b, k);
    lemma_fundamental_div_mod_converse(k as int, ws as int, wi as int, v as int);
    let p = reversed_bits(v, b);
    lemma_reversed_bits_bound(v, b);
    // the window's basis points
    let nw = gotti_window_count(t, b);
    lemma_fundamental_div_mod((cl + b - 1) as int, b as int);
    lemma_mod_bound((cl + b - 1) as int, b as int);
    assert(wi * b < cl) by (nonlinear_arith)
        requires
            wi < nw,
            (cl + b - 1) == b * nw + (cl + b - 1) % (b as int),
            (cl + b - 1) % (b as int) >= 0,
            b >= 1,
    ;
    assert((wi + 1) * b == wi * b + b) by (nonlinear_arith);
    let bs = gotti_window_basis(base, t, b, wi);
    assert(bs =~= comb_window_points(base, t, b, wi));
    lemma_filled_subset_sum(bs, b, p);
    lemma_reversed_bits_involution(v, b);
    lemma_small_mod(v, ws);
}

/// The steps of a computation over a table: `-1` doubles the running
/// point, an index `i >= 0` adds table entry `i` to it.
pub open spec fn apply_ops(table: Seq<Point>, ops: Seq<int>, acc: Point) -> Point
    decreases ops.len(),
{
    if ops.len() == 0 {
        acc
    } else {
        let a = apply_ops(table, ops.drop_last(), acc);
        if ops.last() < 0 {
            edwards_double(a)
        } else {
            edwards_add(a, table[ops.last()])
        }
    }
}

/// What entry `i` of a comb table stands for, as a multiple of the base:
/// entry `wi 2^b + v` is the sum of the base doubled `(wi b + j) t` times
/// over the set bits `j < b` of `v`.
pub open spec fn entry_value(i: int, t: nat, b: nat) -> int {
    sum_to(
        |j: int|
            (bit_of((i % pow2(b) as int) as nat, j as nat) * pow2(
                ((((i / pow2(b) as int) as nat) * b + j as nat) * t) as nat,
            )) as int,
        b,
    )
}

/// The multiple of the base that the steps compute when each entry is
/// worth its `entry_value`: a doubling doubles it, an addition adds.
pub open spec fn ops_value(ops: Seq<int>, t: nat, b: nat) -> int
    decreases ops.len(),
{
    if ops.len() == 0 {
        0
    } else {
        let a = ops_value(ops.drop_last(), t, b);
        if ops.last() < 0 {
            2 * a
        } else {
            a + entry_value(ops.last(), t, b)
        }
    }
}

/// The additions of column `t_i` over its first `n` windows: one for each
/// window of nonzero value `v`, of entry `wi 2^b + v`.
pub open spec fn comb_column_ops(s: Scalar, t: nat, b: nat, t_i: nat, n: nat) -> Seq<int>
    decreases n,
{
    if n == 0 {
        Seq::empty()
    } else {
        let v = gotti_window_value(s, t, b, t_i, (n - 1) as nat);
        comb_column_ops(s, t, b, t_i, (n - 1) as nat) + if v > 0 {
            seq![((n - 1) * pow2(b) + v) as int]
        } else {
            Seq::empty()
        }
    }
}

/// The steps of the comb over its first `k` columns: a doubling before each
/// column but the first, then the column's additions.
pub open spec fn comb_ops(s: Scalar, t: nat, b: nat, k: nat) -> Seq<int>
    decreases k,
{
    if k == 0 {
        Seq::empty()
    } else {
        comb_ops(s, t, b, (k - 1) as nat) + (if k - 1 > 0 {
            seq![-1int]
        } else {
            Seq::empty()
        }) + comb_column_ops(s, t, b, (k - 1) as nat, gotti_window_count(t, b))
    }
}

/// Steps run one after the other run as their concatenation.
proof fn lemma_apply_ops_concat(table: Seq<Point>, x: Seq<int>, y: Seq<int>, acc: Point)
    ensures
        apply_ops(table, x + y, acc) == apply_ops(table, y, apply_ops(table, x, acc)),
    decreases y.len(),
{
    if y.len() == 0 {
        assert(x + y =~= x);
    } else {
        assert((x + y).drop_last() =~= x + y.drop_last());
        lemma_apply_ops_concat(table, x, y.drop_last(), acc);
    }
}

/// A column sum is its steps applied.
proof fn lemma_column_sum_ops(table: Seq<Point>, s: Scalar, t: nat, b: nat, t_i: nat, acc: Point, n: nat)
    ensures
        gotti_column_sum(table, s, t, b, t_i, acc, n) == apply_ops(
            table,
            comb_column_ops(s, t, b, t_i, n),
            acc,
        ),
    decreases n,
{
    if n > 0 {
        let m = (n - 1) as nat;
        lemma_column_sum_ops(table, s, t, b, t_i, acc, m);
        let v = gotti_window_value(s, t, b, t_i, m);
        let tail = if v > 0 {
            seq![(m * pow2(b) + v) as int]
        } else {
            Seq::<int>::empty()
        };
        let prev = comb_column_ops(s, t, b, t_i, m);
        assert(comb_column_ops(s, t, b, t_i, n) == prev + tail);
        lemma_apply_ops_concat(table, prev, tail, acc);
        let a = apply_ops(table, prev, acc);
        assert(gotti_column_sum(table, s, t, b, t_i, acc, m) == a);
        if v > 0 {
            assert(tail.drop_last() =~= Seq::<int>::empty());
            assert(apply_ops(table, tail.drop_last(), a) == a);
            assert(tail.last() == (m * pow2(b) + v) as int);
            assert(apply_ops(table, tail, a) == edwards_add(a, table[(m * pow2(b) + v) as int]));
        } else {
            assert(apply_ops(table, tail, a) == a);
        }
    }
}

/// The comb sum of `mul_with_table` is the comb's steps applied to the
/// table: a doubling before each column but the first, and for each window
/// of nonzero value `v` the addition of entry `wi 2^b + v`.
pub proof fn lemma_gotti_sum_ops(table: Seq<Point>, s: Scalar, t: nat, b: nat, k: nat)
    ensures
        gotti_sum(table, s, t, b, k) == apply_ops(table, comb_ops(s, t, b, k), identity_point()),
    decreases k,
{
    if k > 0 {
        let m = (k - 1) as nat;
        lemma_gotti_sum_ops(table, s, t, b, m);
        let prev = comb_ops(s, t, b, m);
        let dbl = if m > 0 {
            seq![-1int]
        } else {
            Seq::<int>::empty()
        };
        let col = comb_column_ops(s, t, b, m, gotti_window_count(t, b));
        assert(comb_ops(s, t, b, k) == prev + dbl + col);
        lemma_apply_ops_concat(table, prev + dbl, col, identity_point());
        lemma_apply_ops_concat(table, prev, dbl, identity_point());
        let p = apply_ops(table, prev, identity_point());
        if m > 0 {
            assert(dbl.drop_last() =~= Seq::<int>::empty());
            assert(apply_ops(table, dbl.drop_last(), p) == p);
            assert(apply_ops(table, dbl, p) == edwards_double(p));
        } else {
            assert(apply_ops(table, dbl, p) == p);
        }
        let start = apply_ops(table, prev + dbl, identity_point());
        lemma_column_sum_ops(table, s, t, b, m, start, gotti_window_count(t, b));
    }
}

/// The value of additions appended is added.
proof fn lemma_ops_value_concat(x: Seq<int>, y: Seq<int>, t: nat, b: nat)
    requires
        forall|i: int| 0 <= i < y.len() ==> #[trigger] y[i] >= 0,
    ensures
        ops_value(x + y, t, b) == ops_value(x, t, b) + ops_value(y, t, b),
    decreases y.len(),
{
    if y.len() == 0 {
        assert(x + y =~= x);
    } else {
        assert((x + y).drop_last() =~= x + y.drop_last());
        assert(y[y.len() - 1] >= 0);
        lemma_ops_value_concat(x, y.drop_last(), t, b);
    }
}

/// The bits of a window: below `2^n`, bit `j` is the column bit at entry
/// `start + j` for `j < n`, and zero above.
proof fn lemma_window_bits(s: Scalar, t: nat, t_i: nat, start: nat, n: nat, j: nat)
    ensures
        gotti_window_bits(s, t, t_i, start, n) < pow2(n),
        bit_of(gotti_window_bits(s, t, t_i, start, n), j) == if j < n {
            gotti_bit(s, t, t_i, start + j)
        } else {
            0
        },
    decreases n,
{
    let x = gotti_window_bits(s, t, t_i, start, n);
    if n == 0 {
        lemma2_to64();
        lemma_pow2_pos(j);
        lemma_small_mod(0, 2);
        assert(0nat / pow2(j) == 0);
    } else {
        let k = (n - 1) as nat;
        lemma_window_bits(s, t, t_i, start, k, j);
        let y = gotti_window_bits(s, t, t_i, start, k);
        let m = gotti_bit(s, t, t_i, start + k);
        assert(m <= 1) by {
            if gotti_bit(s, t, t_i, start + k) != 0 {
                let pos = crate::gotti::gotti_pos(t, t_i, start + k);
                lemma_pow2_pos(pos as nat);
                lemma_mod_bound((scalar_value(s) / pow2(pos as nat)) as int, 2);
            }
        }
        lemma_pow2_unfold(n);
        assert(y + m * pow2(k) < pow2(n)) by (nonlinear_arith)
            requires
                y < pow2(k),
                m <= 1,
                pow2(n) == 2 * pow2(k),
        ;
        if j < k {
            lemma_bit_of_add_high(y, m, j, k);
        } else if j == k {
            lemma_bit_of_top(y, m, k);
        } else {
            if j > n {
                lemma_pow2_strictly_increases(n, j);
            }
            lemma_high_bit_zero(x, j);
        }
    }
}

/// Column `t_i`'s bits, entry `c` weighted by `2^(c t)`, zero past the column.
pub open spec fn column_term(s: Scalar, t: nat, t_i: nat, c: int) -> int {
    if c < gotti_column_len(t) {
        (gotti_bit(s, t, t_i, c as nat) * pow2((c * t) as nat)) as int
    } else {
        0
    }
}

/// The entry that window `wi` reads is worth the column's bits of the window.
proof fn lemma_window_entry_value(s: Scalar, t: nat, b: nat, t_i: nat, wi: nat)
    requires
        t >= 1,
        b >= 1,
        wi < gotti_window_count(t, b),
    ensures
        entry_value((wi * pow2(b) + gotti_window_value(s, t, b, t_i, wi)) as int, t, b) == sum_to(
            |j: int| column_term(s, t, t_i, wi * b + j),
            b,
        ),
{
    let cl = gotti_column_len(t);
    let n = window_len(cl, b, wi);
    let v = gotti_window_value(s, t, b, t_i, wi);
    let ws = pow2(b);
    lemma_pow2_pos(b);
    lemma_fundamental_div_mod((cl + b - 1) as int, b as int);
    lemma_mod_bound((cl + b - 1) as int, b as int);
    assert(wi * b < cl) by (nonlinear_arith)
        requires
            wi < gotti_window_count(t, b),
            gotti_window_count(t, b) == (cl + b - 1) / (b as int),
            (cl + b - 1) == b * ((cl + b - 1) / (b as int)) + (cl + b - 1) % (b as int),
            (cl + b - 1) % (b as int) >= 0,
            b >= 1,
    ;
    assert((wi + 1) * b == wi * b + b) by (nonlinear_arith);
    assert(n <= b);
    lemma_window_bits(s, t, t_i, wi * b, n, 0);
    if n < b {
        lemma_pow2_strictly_increases(n, b);
    }
    lemma_fundamental_div_mod_converse((wi * ws + v) as int, ws as int, wi as int, v as int);
    let f = |j: int|
        (bit_of((((wi * ws + v) as int) % ws as int) as nat, j as nat) * pow2(
            (((((wi * ws + v) as int) / ws as int) as nat * b + j as nat) * t) as nat,
        )) as int;
    let g = |j: int| column_term(s, t, t_i, wi * b + j);
    assert forall|j: int| 0 <= j < b implies #[trigger] f(j) == g(j) by {
        lemma_window_bits(s, t, t_i, wi * b, n, j as nat);
        if j < n {
            assert(wi * b + j < cl) by (nonlinear_arith)
                requires
                    j < n,
                    n == window_len(cl, b, wi),
                    wi * b < cl,
            ;
        } else {
            assert(wi * b + j >= cl) by (nonlinear_arith)
                requires
                    j >= n,
                    j < b,
                    n == window_len(cl, b, wi),
                    wi * b < cl,
            ;
        }
    }
    lemma_sum_ext(f, g, b);
}

/// The additions of a column are worth the column's weighted bits, over its
/// first `n` windows.
proof fn lemma_column_ops_value(s: Scalar, t: nat, b: nat, t_i: nat, n: nat)
    requires
        t >= 1,
        b >= 1,
        n <= gotti_window_count(t, b),
    ensures
        forall|i: int| 0 <= i < comb_column_ops(s, t, b, t_i, n).len() ==> #[trigger] comb_column_ops(s, t, b, t_i, n)[i] >= 0,
        ops_value(comb_column_ops(s, t, b, t_i, n), t, b) == sum_to(
            |c: int| column_term(s, t, t_i, c),
            n * b,
        ),
    decreases n,
{
    let terms = |c: int| column_term(s, t, t_i, c);
    if n == 0 {
        assert(n * b == 0);
    } else {
        let m = (n - 1) as nat;
        lemma_column_ops_value(s, t, b, t_i, m);
        let v = gotti_window_value(s, t, b, t_i, m);
        let prev = comb_column_ops(s, t, b, t_i, m);
        let tail = if v > 0 {
            seq![(m * pow2(b) + v) as int]
        } else {
            Seq::<int>::empty()
        };
        assert(comb_column_ops(s, t, b, t_i, n) == prev + tail);
        assert forall|i: int| 0 <= i < tail.len() implies #[trigger] tail[i] >= 0 by {}
        assert forall|i: int| 0 <= i < (prev + tail).len() implies #[trigger] (prev + tail)[i] >= 0 by {
            if i < prev.len() {
                assert((prev + tail)[i] == prev[i]);
            } else {
                assert((prev + tail)[i] == tail[i - prev.len()]);
            }
        }
        lemma_ops_value_concat(prev, tail, t, b);
        lemma_window_entry_value(s, t, b, t_i, m);
        let row = |j: int| column_term(s, t, t_i, m * b + j);
        if v == 0 {
            // the window's bits are all zero
            let cl = gotti_column_len(t);
            let n_w = window_len(cl, b, m);
            assert forall|j: int| 0 <= j < b implies #[trigger] row(j) == 0 by {
                lemma_window_bits(s, t, t_i, m * b, n_w, j as nat);
                lemma_pow2_pos(j as nat);
                assert(bit_of(0, j as nat) == 0) by {
                    lemma_small_mod(0, 2);
                    assert(0nat / pow2(j as nat) == 0);
                }
                if m * b + j < cl {
                    assert((m + 1) * b == m * b + b) by (nonlinear_arith);
                    assert(j < n_w) by (nonlinear_arith)
                        requires
                            m * b + j < cl,
                            0 <= j < b,
                            n_w == if (m + 1) * b <= cl { b as int } else { cl - m * b },
                    ;
                    assert(gotti_bit(s, t, t_i, (m * b + j) as nat) == 0);
                    assert(row(j) == (gotti_bit(s, t, t_i, (m * b + j) as nat) * pow2(((m * b + j) * t) as nat)) as int);
                }
            }
            lemma_sum_zero(row, b);
            assert(prev + tail =~= prev);
            assert(ops_value(tail, t, b) == 0);
        } else {
            assert(tail.drop_last() =~= Seq::<int>::empty());
            assert(ops_value(tail.drop_last(), t, b) == 0);
            assert(tail.last() == (m * pow2(b) + v) as int);
            assert(tail.last() >= 0);
            assert(ops_value(tail, t, b) == entry_value((m * pow2(b) + v) as int, t, b));
        }
        assert(m * b + b == n * b) by (nonlinear_arith)
            requires
                m + 1 == n,
        ;
        lemma_sum_split(terms, row, m * b, b);
    }
}

/// Over all its windows a column is worth exactly its weighted bits.
proof fn lemma_column_ops_total(s: Scalar, t: nat, b: nat, t_i: nat)
    requires
        t >= 1,
        b >= 1,
    ensures
        forall|i: int| 0 <= i < comb_column_ops(s, t, b, t_i, gotti_window_count(t, b)).len() ==> #[trigger] comb_column_ops(s, t, b, t_i, gotti_window_count(t, b))[i] >= 0,
        ops_value(comb_column_ops(s, t, b, t_i, gotti_window_count(t, b)), t, b) == comb_column(s, t, t_i),
{
    let nw = gotti_window_count(t, b);
    let cl = gotti_column_len(t);
    lemma_column_ops_value(s, t, b, t_i, nw);
    let terms = |c: int| column_term(s, t, t_i, c);
    let lq = cl / b;
    let lr = cl % b;
    lemma_fundamental_div_mod(cl as int, b as int);
    lemma_mod_bound(cl as int, b as int);
    assert(lq * b + lr == cl) by (nonlinear_arith)
        requires
            cl == b * lq + lr,
    ;
    lemma_window_count(lq, lr, b, cl);
    assert(cl <= nw * b) by (nonlinear_arith)
        requires
            lq * b + lr == cl,
            lr < b,
            nw == if lr > 0 { lq + 1 } else { lq },
    ;
    let rest = (nw * b - cl) as nat;
    let tail = |r: int| terms(cl + r);
    assert forall|r: int| 0 <= r < rest implies #[trigger] tail(r) == 0 by {}
    lemma_sum_zero(tail, rest);
    lemma_sum_split(terms, tail, cl, rest);
    let col = |c: int| (gotti_bit(s, t, t_i, c as nat) * pow2((c * t) as nat)) as int;
    assert forall|c: int| 0 <= c < cl implies #[trigger] terms(c) == col(c) by {}
    lemma_sum_ext(terms, col, cl);
}

/// The comb's weighted columns sum to the scalar, for every scalar.
proof fn lemma_comb_value_all(s: Scalar, t: nat)
    requires
        t >= 1,
        s.wf(),
    ensures
        comb_value(s, t) == scalar_value(s),
{
    lemma_scalar_value_montgomery(s);
    lemma_fr_modulus_bound();
    if mont_is_zero(s) {
        let weighted = |t_i: int| pow2((t - 1 - t_i) as nat) * comb_column(s, t, t_i as nat);
        assert forall|t_i: int| 0 <= t_i < t implies #[trigger] weighted(t_i) == 0 by {
            let g = |c: int| (gotti_bit(s, t, t_i as nat, c as nat) * pow2((c * t) as nat)) as int;
            assert forall|c: int| 0 <= c < gotti_column_len(t) implies #[trigger] g(c) == 0 by {}
            lemma_sum_zero(g, gotti_column_len(t));
        }
        lemma_sum_zero(weighted, t);
    } else {
        lemma_comb_value(s, t);
    }
}

/// After `k` columns the steps are worth the first `k` columns, each
/// weighted by the doublings that follow it.
proof fn lemma_comb_ops_prefix(s: Scalar, t: nat, b: nat, k: nat)
    requires
        t >= 1,
        b >= 1,
        k <= t,
    ensures
        ops_value(comb_ops(s, t, b, k), t, b) == sum_to(
            |i: int| pow2((k - 1 - i) as nat) * comb_column(s, t, i as nat),
            k,
        ),
    decreases k,
{
    if k > 0 {
        let m = (k - 1) as nat;
        lemma_comb_ops_prefix(s, t, b, m);
        let prev = comb_ops(s, t, b, m);
        let dbl = if m > 0 {
            seq![-1int]
        } else {
            Seq::<int>::empty()
        };
        let col = comb_column_ops(s, t, b, m, gotti_window_count(t, b));
        lemma_column_ops_total(s, t, b, m);
        lemma_ops_value_concat(prev + dbl, col, t, b);
        let pv = ops_value(prev, t, b);
        if m > 0 {
            assert(dbl.drop_last() =~= Seq::<int>::empty());
            assert((prev + dbl).drop_last() =~= prev);
            assert(ops_value(prev + dbl, t, b) == 2 * pv);
        } else {
            assert(prev + dbl =~= prev);
            assert(pv == 0);
        }
        // the weights of the earlier columns double
        let now = |i: int| pow2((k - 1 - i) as nat) * comb_column(s, t, i as nat);
        let before = |i: int| pow2((m - 1 - i) as nat) * comb_column(s, t, i as nat);
        assert forall|i: int| 0 <= i < m implies #[trigger] now(i) == 2 * before(i) by {
            lemma_pow2_unfold((k - 1 - i) as nat);
            assert((k - 1 - i - 1) as nat == (m - 1 - i) as nat);
            assert(pow2((k - 1 - i) as nat) * comb_column(s, t, i as nat) == 2 * (pow2((m - 1 - i) as nat) * comb_column(s, t, i as nat))) by (nonlinear_arith)
                requires
                    pow2((k - 1 - i) as nat) == 2 * pow2((m - 1 - i) as nat),
            ;
        }
        lemma_sum_scale(before, now, 2, m);
        lemma2_to64();
        assert((k - 1 - m) as nat == 0);
        assert(now(m as int) == pow2(0) * comb_column(s, t, m));
        assert(now(m as int) == comb_column(s, t, m));
        assert(sum_to(now, k) == sum_to(now, m) + now(m as int));
    }
}

/// Read as integers, the comb computes the scalar: with each table entry
/// worth the multiple of the base that it stands for, the steps of the comb
/// (a doubling before each column but the first, an addition of entry
/// `wi 2^b + v` for each window of nonzero value `v`, the last partial window
/// included) add up to the scalar itself.  So each bit of the scalar is
/// added once, at its weight.
pub proof fn lemma_comb_ops_value(s: Scalar, t: nat, b: nat)
    requires
        t >= 1,
        b >= 1,
        s.wf(),
    ensures
        ops_value(comb_ops(s, t, b, t), t, b) == scalar_value(s),
{
    lemma_comb_ops_prefix(s, t, b, t);
    lemma_comb_value_all(s, t);
    let a = |i: int| pow2((t - 1 - i) as nat) * comb_column(s, t, i as nat);
    assert(comb_value(s, t) == sum_to(a, t));
}

/// The integer counterpart of `subset_sum`: the weights `ws[k]` whose bit
/// `k` is set in `v`, for `k` from `k` on, added up.
pub open spec fn subset_value(ws: Seq<int>, v: nat, k: nat) -> int
    decreases ws.len() - k,
{
    if k >= ws.len() {
        0
    } else {
        subset_value(ws, v, k + 1) + if bit_of(v, k) == 1 {
            ws[k as int]
        } else {
            0
        }
    }
}

/// The multiples of the base that the basis points of window `wi` stand
/// for: point `j`, the base doubled `t (wi b + j)` times, is worth
/// `2^(t (wi b + j))`.
pub open spec fn comb_window_weights(t: nat, b: nat, wi: nat) -> Seq<int> {
    Seq::new(window_len(gotti_column_len(t), b, wi), |j: int| pow2(t * (wi * b + j as nat)) as int)
}

/// `subset_value` from `k` on, plus the first `k` selected weights, is the
/// whole selection.
proof fn lemma_subset_value_sum(ws: Seq<int>, v: nat, k: nat)
    requires
        k <= ws.len(),
    ensures
        subset_value(ws, v, k) + sum_to(|j: int| bit_of(v, j as nat) * ws[j], k) == sum_to(
            |j: int| bit_of(v, j as nat) * ws[j],
            ws.len(),
        ),
    decreases ws.len() - k,
{
    let f = |j: int| bit_of(v, j as nat) * ws[j];
    if k < ws.len() {
        lemma_subset_value_sum(ws, v, k + 1);
        assert(sum_to(f, k + 1) == sum_to(f, k) + f(k as int));
        lemma_pow2_pos(k);
        lemma_mod_bound((v / pow2(k)) as int, 2);
        if bit_of(v, k) == 1 {
            assert(f(k as int) == ws[k as int]);
        } else {
            assert(f(k as int) == 0);
        }
    }
}

/// What `mul_with_table` counts an entry as worth agrees with what the table
/// holds there: for a window value `v` below `2^n`, `n` the number of
/// entries of window `wi`, `entry_value` of entry `wi 2^b + v` is the sum of
/// the weights of the basis points that `comb_window_entry` adds up.
pub proof fn lemma_comb_entry_value(t: nat, b: nat, wi: nat, v: nat)
    requires
        t >= 1,
        b >= 1,
        wi < gotti_window_count(t, b),
        v < pow2(window_len(gotti_column_len(t), b, wi)),
    ensures
        entry_value((wi * pow2(b) + v) as int, t, b) == subset_value(comb_window_weights(t, b, wi), v, 0),
{
    let cl = gotti_column_len(t);
    let n = window_len(cl, b, wi);
    let ws = comb_window_weights(t, b, wi);
    lemma_pow2_pos(b);
    lemma_fundamental_div_mod((cl + b - 1) as int, b as int);
    lemma_mod_bound((cl + b - 1) as int, b as int);
    assert(wi * b < cl) by (nonlinear_arith)
        requires
            wi < gotti_window_count(t, b),
            gotti_window_count(t, b) == (cl + b - 1) / (b as int),
            (cl + b - 1) == b * ((cl + b - 1) / (b as int)) + (cl + b - 1) % (b as int),
            (cl + b - 1) % (b as int) >= 0,
            b >= 1,
    ;
    assert((wi + 1) * b == wi * b + b) by (nonlinear_arith);
    assert(n <= b);
    if n < b {
        lemma_pow2_strictly_increases(n, b);
    }
    lemma_fundamental_div_mod_converse((wi * pow2(b) + v) as int, pow2(b) as int, wi as int, v as int);
    let e = |j: int|
        (bit_of((((wi * pow2(b) + v) as int) % pow2(b) as int) as nat, j as nat) * pow2(
            (((((wi * pow2(b) + v) as int) / pow2(b) as int) as nat * b + j as nat) * t) as nat,
        )) as int;
    let f = |j: int| bit_of(v, j as nat) * ws[j];
    assert forall|j: int| 0 <= j < n implies #[trigger] e(j) == f(j) by {
        assert((wi * b + j as nat) * t == t * (wi * b + j as nat)) by (nonlinear_arith);
    }
    lemma_sum_ext(e, f, n);
    let rest = |r: int| e(n + r);
    assert forall|r: int| 0 <= r < (b - n) implies #[trigger] rest(r) == 0 by {
        let j = (n + r) as nat;
        if j > n {
            lemma_pow2_strictly_increases(n, j);
        }
        lemma_high_bit_zero(v, j);
    }
    lemma_sum_zero(rest, (b - n) as nat);
    lemma_sum_split(e, rest, n, (b - n) as nat);
    lemma_subset_value_sum(ws, v, 0);
    assert(sum_to(f, 0) == 0);
}

} // verus!
