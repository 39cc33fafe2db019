//! Scalars of the Bandersnatch scalar field, held by their Montgomery limbs,
//! and the limb arithmetic that the decompositions rest on.

use ark_ed_on_bls12_381_bandersnatch::Fr;
use ark_ff::{BigInt, BigInteger, PrimeField, Zero};
use vstd::arithmetic::div_mod::*;
use vstd::arithmetic::power2::*;
use vstd::bits::*;
use vstd::prelude::*;

verus! {

/// An element of the scalar field `Fr`, held as the four little-endian
/// Montgomery limbs that `Fr` stores internally.
#[derive(Clone, Copy, Debug)]
pub struct Scalar {
    pub mont: [u64; 4],
}

/// The modulus of `Fr`.
pub open spec fn fr_modulus() -> nat {
    13108968793781547619861935127046491459309155893440570251786403306729687672801nat
}

/// Little-endian value of a sequence of 64-bit limbs.
pub open spec fn limbs_value(s: Seq<u64>) -> nat
    decreases s.len(),
{
    if s.len() == 0 {
        0
    } else {
        limbs_value(s.drop_last()) + s.last() as nat * pow2((64 * (s.len() - 1)) as nat)
    }
}

/// Number of bits in the binary expansion of `v` (0 for 0).
pub open spec fn bit_len(v: nat) -> nat
    decreases v,
{
    if v == 0 {
        0
    } else {
        1 + bit_len(v / 2)
    }
}

/// Number of 64-bit limbs needed for `bits` bits.
pub open spec fn limbs_for_bits(bits: nat) -> nat {
    if bits % 64 == 0 {
        bits / 64
    } else {
        bits / 64 + 1
    }
}

impl Scalar {
    /// The limbs hold a reduced Montgomery representation, as every `Fr` does.
    pub open spec fn wf(self) -> bool {
        limbs_value(self.mont@) < fr_modulus()
    }
}

/// The inverse of `2^256` modulo the modulus of `Fr`.
pub open spec fn r_inv() -> nat {
    12497940708278173486071455329575131944834205817413523678478054511348910148269nat
}

/// The element that the Montgomery limbs `mont` stand for: their value
/// divided by `2^256` modulo the modulus.
pub open spec fn canonical_value(mont: [u64; 4]) -> nat {
    (limbs_value(mont@) * r_inv()) % fr_modulus()
}

/// The four little-endian 64-bit limbs of `v` (taken modulo `2^256`).
pub open spec fn nat_limbs(v: nat) -> Seq<u64> {
    Seq::new(4, |i: int| ((v / pow2((64 * i) as nat)) % pow2(64)) as u64)
}

/// The canonical integer of a scalar.
pub open spec fn scalar_value(s: Scalar) -> nat {
    canonical_value(s.mont)
}

/// The canonical limbs of a scalar with the zero limbs above its top bit removed.
pub open spec fn scalar_limbs(s: Scalar) -> Seq<u64> {
    nat_limbs(scalar_value(s)).take(limbs_for_bits(bit_len(scalar_value(s))) as int)
}

/// `PrimeField::into_bigint` on `Fr`: the Montgomery reduction of the stored
/// limbs, the representative below the modulus of their value divided by
/// `2^256`, as four little-endian limbs.
#[verifier::external_body]
fn fr_canonical_limbs(s: &Scalar) -> (r: [u64; 4])
    requires
        s.wf(),
    ensures
        r@ == nat_limbs(canonical_value(s.mont)),
{
    Fr::new_unchecked(BigInt(s.mont)).into_bigint().0
}

/// `BigInteger::num_bits` on a four-limb `BigInt`: the bit length of its value.
#[verifier::external_body]
fn bigint_num_bits(limbs: [u64; 4]) -> (r: u32)
    ensures
        r == bit_len(limbs_value(limbs@)),
{
    BigInt(limbs).num_bits()
}

/// `Zero::is_zero` on `Fr`: whether the stored limbs are all zero.
#[verifier::external_body]
pub(crate) fn fr_is_zero(s: &Scalar) -> (r: bool)
    ensures
        r <==> (s.mont[0] == 0 && s.mont[1] == 0 && s.mont[2] == 0 && s.mont[3] == 0),
{
    Fr::new_unchecked(BigInt(s.mont)).is_zero()
}

/// A value of `n` limbs is below `2^(64 n)`.
pub proof fn lemma_limbs_value_bound(s: Seq<u64>)
    ensures
        limbs_value(s) < pow2((64 * s.len()) as nat),
    decreases s.len(),
{
    if s.len() == 0 {
        lemma2_to64();
    } else {
        let n = (s.len() - 1) as nat;
        lemma_limbs_value_bound(s.drop_last());
        lemma_pow2_adds(64 * n, 64);
        lemma2_to64_rest();
        assert(s.last() as nat * pow2(64 * n) <= (pow2(64) - 1) * pow2(64 * n)) by (nonlinear_arith)
            requires
                s.last() as nat <= pow2(64) - 1,
        ;
        assert((pow2(64) - 1) * pow2(64 * n) == pow2(64) * pow2(64 * n) - pow2(64 * n))
            by (nonlinear_arith);
        assert(64 * s.len() == 64 * n + 64);
    }
}

/// Splitting the limbs at `k` splits the value at `2^(64 k)`.
pub proof fn lemma_limbs_value_split(s: Seq<u64>, k: int)
    requires
        0 <= k <= s.len(),
    ensures
        limbs_value(s) == limbs_value(s.take(k)) + pow2((64 * k) as nat) * limbs_value(s.skip(k)),
    decreases s.len(),
{
    if k == s.len() {
        assert(s.take(k) =~= s);
        assert(limbs_value(s.skip(k)) == 0) by {
            assert(s.skip(k).len() == 0);
        }
    } else {
        let n = s.len() - 1;
        lemma_limbs_value_split(s.drop_last(), k);
        assert(s.drop_last().take(k) =~= s.take(k));
        assert(s.skip(k).drop_last() =~= s.drop_last().skip(k));
        assert(s.skip(k).last() == s.last());
        let hi = s.skip(k);
        assert(limbs_value(hi) == limbs_value(hi.drop_last()) + s.last() as nat * pow2(
            (64 * (hi.len() - 1)) as nat,
        ));
        lemma_pow2_adds((64 * k) as nat, (64 * (hi.len() - 1)) as nat);
        assert(64 * k + 64 * (hi.len() - 1) == 64 * n);
        let a = pow2((64 * k) as nat);
        let b = pow2((64 * (hi.len() - 1)) as nat);
        let x = limbs_value(hi.drop_last());
        let l = s.last() as nat;
        assert(a * (x + l * b) == a * x + l * (a * b)) by (nonlinear_arith);
    }
}

/// A natural number is below `2^k` exactly when its bit length is at most `k`.
pub proof fn lemma_bit_len_bound(v: nat, k: nat)
    ensures
        v < pow2(k) <==> bit_len(v) <= k,
    decreases v,
{
    if v == 0 {
        lemma_pow2_pos(k);
    } else if k == 0 {
        lemma2_to64();
    } else {
        lemma_bit_len_bound(v / 2, (k - 1) as nat);
        lemma_pow2_unfold(k);
    }
}

/// The canonical limbs with the zero limbs above the top bit removed keep their value.
pub proof fn lemma_trimmed_value(c: Seq<u64>)
    requires
        c.len() == 4,
    ensures
        limbs_for_bits(bit_len(limbs_value(c))) <= 4,
        limbs_value(c.take(limbs_for_bits(bit_len(limbs_value(c))) as int)) == limbs_value(c),
{
    let v = limbs_value(c);
    lemma_limbs_value_bound(c);
    lemma_bit_len_bound(v, 256);
    let n = limbs_for_bits(bit_len(v));
    assert(64 * n >= bit_len(v));
    lemma_bit_len_bound(v, 64 * n);
    lemma_limbs_value_split(c, n as int);
    let lo = limbs_value(c.take(n as int));
    let hi = limbs_value(c.skip(n as int));
    assert(v == lo + pow2(64 * n) * hi);
    assert(v < pow2(64 * n));
    assert(hi == 0) by {
        if hi > 0 {
            assert(pow2(64 * n) * hi >= pow2(64 * n)) by (nonlinear_arith)
                requires
                    hi > 0,
            ;
        }
    }
    assert(pow2(64 * n) * hi == 0) by (nonlinear_arith)
        requires
            hi == 0,
    ;
    assert(lo == v);
}

/// Bit `p` of `v`.
pub open spec fn bit_of(v: nat, p: nat) -> nat {
    (v / pow2(p)) % 2
}

/// Bit `p` of a limb value is bit `p mod 64` of limb `p / 64`.
pub proof fn lemma_limb_bit(l: Seq<u64>, p: nat)
    requires
        p / 64 < l.len(),
    ensures
        bit_of(limbs_value(l), p) == ((l[(p / 64) as int] >> ((p % 64) as u64)) & 1u64),
{
    let q = p / 64;
    let r = p % 64;
    let v = limbs_value(l);
    let hi = l.skip(q as int);
    lemma_limbs_value_split(l, q as int);
    lemma_limbs_value_bound(l.take(q as int));
    lemma_limbs_value_split(hi, 1);
    assert(hi.take(1) =~= seq![l[q as int]]);
    assert(hi.take(1).drop_last() =~= Seq::<u64>::empty());
    assert(limbs_value(hi.take(1)) == l[q as int]) by {
        lemma2_to64();
        let one = hi.take(1);
        assert(limbs_value(one.drop_last()) == 0);
        assert(one.last() == l[q as int]);
        assert(64 * (one.len() - 1) == 0);
        assert(pow2(0) == 1);
        assert(l[q as int] as nat * 1 == l[q as int]);
    }
    let limb = l[q as int] as int;
    let h = limbs_value(hi.skip(1)) as int;
    let pq = pow2(64 * q) as int;
    let pr = pow2(r) as int;
    lemma_pow2_pos(64 * q);
    lemma_pow2_pos(r);
    // v / 2^(64 q) is the value of the limbs from q on
    assert(v == limbs_value(hi) * pq + limbs_value(l.take(q as int)));
    lemma_fundamental_div_mod_converse(v as int, pq, limbs_value(hi) as int, limbs_value(l.take(q as int)) as int);
    // v / 2^p == (v / 2^(64 q)) / 2^r
    lemma_pow2_adds(64 * q, r);
    assert(64 * q + r == p);
    lemma_div_denominator(v as int, pq, pr);
    // (limb + 2^64 h) / 2^r == limb / 2^r + 2^(64 - r) h
    let e = (64 - r) as nat;
    lemma_pow2_adds(r, e);
    assert(r + e == 64);
    lemma2_to64_rest();
    assert(limbs_value(hi) == limb + pow2(64) * h);
    assert(limb + pow2(64) * h == limb + (pow2(e) * h) * pr) by (nonlinear_arith)
        requires
            pow2(64) == pr * pow2(e),
    ;
    lemma_hoist_over_denominator(limb, pow2(e) * h, pr as nat);
    // mod 2 drops the even part
    lemma_pow2_unfold(e);
    assert(pow2(e) * h == 2 * (pow2((e - 1) as nat) * h)) by (nonlinear_arith)
        requires
            pow2(e) == 2 * pow2((e - 1) as nat),
    ;
    lemma_mod_multiples_vanish(pow2((e - 1) as nat) * h, limb / pr, 2);
    lemma_u64_shr_is_div(l[q as int], r as u64);
    let sh = l[q as int] >> (r as u64);
    assert(sh & 1u64 == sh % 2) by (bit_vector);
}

/// `2^256` as a literal.
pub proof fn lemma_pow2_256()
    ensures
        pow2(256) == 0x1_0000_0000_0000_0000_0000_0000_0000_0000_0000_0000_0000_0000_0000_0000_0000_0000nat,
{
    lemma2_to64_rest();
    lemma_pow2_adds(64, 64);
    lemma_pow2_adds(128, 128);
    let h = pow2(128);
    assert(h == 0x1_0000_0000_0000_0000_0000_0000_0000_0000nat);
    assert(h * h == 0x1_0000_0000_0000_0000_0000_0000_0000_0000_0000_0000_0000_0000_0000_0000_0000_0000nat)
        by (nonlinear_arith)
        requires
            h == 0x1_0000_0000_0000_0000_0000_0000_0000_0000nat,
    ;
    assert(pow2(256) == h * h);
}

/// `2^256` times its inverse is one more than a multiple of the modulus.
pub proof fn lemma_r_inv()
    ensures
        pow2(256) * r_inv() == 1 + fr_modulus()
            * 110394851688266903862832017962064017235945279796907662243907019959123958588383nat,
{
    lemma_pow2_256();
}

/// The limbs of a value below `2^256` give it back.
pub proof fn lemma_nat_limbs_value(v: nat)
    requires
        v < pow2(256),
    ensures
        limbs_value(nat_limbs(v)) == v,
{
    let l = nat_limbs(v);
    lemma2_to64_rest();
    lemma_pow2_adds(64, 64);
    lemma_pow2_adds(128, 64);
    lemma_pow2_adds(192, 64);
    let pp = pow2(64) as int;
    lemma_pow2_pos(64);
    assert(pow2(0) == 1) by {
        lemma2_to64();
    }
    let q1 = v as int / pp;
    let q2 = q1 / pp;
    let q3 = q2 / pp;
    lemma_div_denominator(v as int, pp, pp);
    lemma_div_denominator(v as int, pp * pp, pp);
    assert(pow2(128) == pp * pp);
    assert(pow2(192) == pp * pp * pp);
    assert(v as int / pow2(128) as int == q2);
    assert(v as int / pow2(192) as int == q3);
    lemma_fundamental_div_mod(v as int, pp);
    lemma_fundamental_div_mod(q1, pp);
    lemma_fundamental_div_mod(q2, pp);
    lemma_mod_bound(v as int, pp);
    lemma_mod_bound(q1, pp);
    lemma_mod_bound(q2, pp);
    lemma_div_pos_is_pos(v as int, pp);
    lemma_div_pos_is_pos(q1, pp);
    lemma_div_pos_is_pos(q2, pp);
    assert(pow2(256) == pp * pp * pp * pp) by {
        lemma_pow2_adds(192, 64);
    }
    assert(q3 < pp) by {
        lemma_multiply_divide_lt(v as int, pp * pp * pp, pp);
    }
    lemma_small_mod(q3 as nat, pp as nat);
    let d0 = v as int % pp;
    let d1 = q1 % pp;
    let d2 = q2 % pp;
    assert(v as int / pow2(0) as int == v);
    assert(pp == 0x1_0000_0000_0000_0000);
    assert(l[0] == d0);
    assert(l[1] == d1);
    assert(l[2] == d2);
    assert(l[3] == q3);
    assert(limbs_value(l) == l[0] as nat * pow2(0) + l[1] as nat * pow2(64) + l[2] as nat * pow2(128)
        + l[3] as nat * pow2(192)) by {
        reveal_with_fuel(limbs_value, 5);
        assert(l.drop_last().drop_last().drop_last().drop_last() =~= Seq::<u64>::empty());
    }
    assert(v == d0 + d1 * pp + d2 * (pp * pp) + q3 * (pp * pp * pp)) by (nonlinear_arith)
        requires
            v == pp * q1 + d0,
            q1 == pp * q2 + d1,
            q2 == pp * q3 + d2,
    ;
}

/// Four limbs hold the value zero exactly when each limb is zero.
pub proof fn lemma_limbs_value_zero(l: [u64; 4])
    ensures
        limbs_value(l@) == 0 <==> (l[0] == 0 && l[1] == 0 && l[2] == 0 && l[3] == 0),
{
    let s = l@;
    assert(s.drop_last().drop_last().drop_last().drop_last() =~= Seq::<u64>::empty());
    assert(s.drop_last().drop_last().drop_last().last() == l[0]);
    assert(s.drop_last().drop_last().last() == l[1]);
    assert(s.drop_last().last() == l[2]);
    assert(s.last() == l[3]);
    lemma_pow2_pos(0);
    lemma_pow2_pos(64);
    lemma_pow2_pos(128);
    lemma_pow2_pos(192);
    let v0 = l[0] as nat * pow2(0);
    let v1 = l[1] as nat * pow2(64);
    let v2 = l[2] as nat * pow2(128);
    let v3 = l[3] as nat * pow2(192);
    assert(limbs_value(s) == v0 + v1 + v2 + v3) by {
        reveal_with_fuel(limbs_value, 5);
    }
    assert(v0 == 0 <==> l[0] == 0) by (nonlinear_arith)
        requires
            pow2(0) > 0,
            v0 == l[0] as nat * pow2(0),
    ;
    assert(v1 == 0 <==> l[1] == 0) by (nonlinear_arith)
        requires
            pow2(64) > 0,
            v1 == l[1] as nat * pow2(64),
    ;
    assert(v2 == 0 <==> l[2] == 0) by (nonlinear_arith)
        requires
            pow2(128) > 0,
            v2 == l[2] as nat * pow2(128),
    ;
    assert(v3 == 0 <==> l[3] == 0) by (nonlinear_arith)
        requires
            pow2(192) > 0,
            v3 == l[3] as nat * pow2(192),
    ;
}

/// The modulus of `Fr` is below `2^253`.
pub proof fn lemma_fr_modulus_bound()
    ensures
        fr_modulus() < pow2(253),
{
    lemma2_to64();
    lemma2_to64_rest();
    lemma_pow2_adds(64, 64);
    lemma_pow2_adds(128, 64);
    lemma_pow2_adds(192, 61);
    assert(pow2(253) == 0x2000_0000_0000_0000 * 0x1_0000_0000_0000_0000 * 0x1_0000_0000_0000_0000
        * 0x1_0000_0000_0000_0000);
}

/// With `r inv = 1 + p k`, reducing `m inv` modulo `p` and multiplying by
/// `r` gives `m` back modulo `p`; and `m inv` is a multiple of `p` only for
/// a multiple `m` of `p`.
proof fn lemma_inverse_mod(m: int, r: int, inv: int, p: int, k: int)
    requires
        p > 0,
        0 <= m < p,
        r * inv == 1 + p * k,
    ensures
        (((m * inv) % p) * r) % p == m,
        (m * inv) % p == 0 <==> m == 0,
{
    lemma_mul_mod_noop_left(m * inv, r, p);
    assert((m * inv) * r == m + p * (m * k)) by (nonlinear_arith)
        requires
            r * inv == 1 + p * k,
    ;
    lemma_mod_multiples_vanish(m * k, m, p);
    lemma_small_mod(m as nat, p as nat);
    if m == 0 {
        assert(m * inv == 0) by (nonlinear_arith)
            requires
                m == 0,
        ;
        lemma_small_mod(0, p as nat);
    }
    if (m * inv) % p == 0 {
        assert(0 * r == 0);
        lemma_small_mod(0, p as nat);
    }
}

/// The canonical value of reduced Montgomery limbs lies below the modulus,
/// times `2^256` gives the stored value back modulo the modulus, and is zero
/// exactly when every stored limb is zero.
pub proof fn lemma_scalar_value_montgomery(s: Scalar)
    requires
        s.wf(),
    ensures
        scalar_value(s) < fr_modulus(),
        (scalar_value(s) * pow2(256)) % fr_modulus() == limbs_value(s.mont@),
        scalar_value(s) == 0 <==> (s.mont[0] == 0 && s.mont[1] == 0 && s.mont[2] == 0
            && s.mont[3] == 0),
{
    let m = limbs_value(s.mont@);
    lemma_r_inv();
    lemma_inverse_mod(
        m as int,
        pow2(256) as int,
        r_inv() as int,
        fr_modulus() as int,
        110394851688266903862832017962064017235945279796907662243907019959123958588383int,
    );
    lemma_mod_bound((m * r_inv()) as int, fr_modulus() as int);
    lemma_limbs_value_zero(s.mont);
}

/// Canonical limbs of `scalar`, without the zero limbs above its top bit.
pub fn scalar_to_u64(scalar: &Scalar) -> (res: Vec<u64>)
    requires
        scalar.wf(),
    ensures
        res@ == scalar_limbs(*scalar),
        limbs_value(res@) == scalar_value(*scalar),
        scalar_value(*scalar) < fr_modulus(),
        (scalar_value(*scalar) * pow2(256)) % fr_modulus() == limbs_value(scalar.mont@),
        scalar_value(*scalar) == 0 <==> (scalar.mont[0] == 0 && scalar.mont[1] == 0
            && scalar.mont[2] == 0 && scalar.mont[3] == 0),
        res.len() <= 4,
{
    let b = fr_canonical_limbs(scalar);
    proof {
        lemma_scalar_value_montgomery(*scalar);
        lemma_fr_modulus_bound();
        lemma_pow2_strictly_increases(253, 256);
        lemma_nat_limbs_value(scalar_value(*scalar));
    }
    let mut num = bigint_num_bits(b);
    proof {
        lemma_trimmed_value(b@);
        assert(num & 63 == num % 64) by (bit_vector);
        assert(num >> 6 == num / 64) by (bit_vector);
    }
    num = if num & 63 == 0 {
        num >> 6
    } else {
        (num >> 6) + 1
    };
    let mut res: Vec<u64> = Vec::with_capacity(num as usize);
    let mut i: usize = 0;
    while i < num as usize
        invariant
            num <= 4,
            i <= num,
            res@ == b@.take(i as int),
        decreases num - i,
    {
        res.push(b[i]);
        i += 1;
        assert(res@ =~= b@.take(i as int));
    }
    res
}

} // verus!
