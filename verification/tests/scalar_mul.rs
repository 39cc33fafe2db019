use ark_ec::PrimeGroup;
use ark_ed_on_bls12_381_bandersnatch::{EdwardsProjective, Fq, Fr};
use ark_ff::{BigInt, Field, PrimeField, Zero};
use wnaf_mul::digits::limbs_to_wnaf_data;
use wnaf_mul::gotti::WnafGottiContext;
use wnaf_mul::point::Point;
use wnaf_mul::scalar::{scalar_to_u64, Scalar};
use wnaf_mul::wnaf::WnafContext;

fn to_point(p: &EdwardsProjective) -> Point {
    Point { x: p.x.0 .0, y: p.y.0 .0, t: p.t.0 .0, z: p.z.0 .0 }
}

fn to_projective(p: &Point) -> EdwardsProjective {
    let f = |l: [u64; 4]| Fq::new_unchecked(BigInt(l));
    EdwardsProjective::new_unchecked(f(p.x), f(p.y), f(p.t), f(p.z))
}

fn to_scalar(f: &Fr) -> Scalar {
    Scalar { mont: f.0 .0 }
}

fn big_scalar(seed: u8) -> Fr {
    let bytes: Vec<u8> = (0..32u8).map(|i| i.wrapping_mul(37).wrapping_add(seed)).collect();
    Fr::from_le_bytes_mod_order(&bytes)
}

fn sample_scalars() -> Vec<Fr> {
    vec![
        Fr::from(0u64),
        Fr::from(1u64),
        Fr::from(2u64),
        Fr::from(12345u64),
        Fr::from(u64::MAX),
        -Fr::from(1u64),
        big_scalar(1),
        big_scalar(200),
    ]
}

fn signed_value(digits: &[i64], w: usize) -> i128 {
    // only for digit sequences short enough to fit
    digits.iter().rev().fold(0i128, |acc, d| (acc << w) + *d as i128)
}

#[test]
fn correctness_precompute_one_table_test() {
    let basic_g = vec![EdwardsProjective::generator()];
    let wnaf_gotti_context = WnafGottiContext::new(2, 8);
    let precompute = wnaf_gotti_context.table(to_point(&basic_g[0]));
    println!("precompute len: {:?}", precompute.len());
    // 253 bits in 2 columns: 127 entries per column, 16 windows of 8 bits, 256 entries each
    assert_eq!(precompute.len(), 16 * 256);
}

#[test]
fn wnaf_new_keeps_window_size() {
    let c = WnafContext::new(5);
    assert_eq!(c.window_size, 5);
}

#[test]
fn gotti_new_keeps_parameters() {
    let c = WnafGottiContext::new(3, 7);
    assert_eq!(c.t, 3);
    assert_eq!(c.b, 7);
}

#[test]
fn wnaf_table_layout() {
    let g = EdwardsProjective::generator();
    let c = WnafContext::new(3);
    let table = c.table(to_point(&g));
    // ceil(256 / 3) = 86 windows of 4 entries
    assert_eq!(table.len(), 86 * 4);
    for i in 0..86usize {
        let window_base = g * Fr::from(2u64).pow([(3 * i) as u64]);
        for j in 0..4usize {
            let expected = window_base * Fr::from((j + 1) as u64);
            assert_eq!(to_projective(&table[i * 4 + j]), expected);
        }
    }
}

#[test]
fn wnaf_mul_matches_scalar_multiplication() {
    let g = EdwardsProjective::generator();
    for w in [2usize, 4, 5, 8] {
        let c = WnafContext::new(w);
        for s in sample_scalars() {
            let r = c.mul(to_point(&g), &to_scalar(&s));
            assert_eq!(to_projective(&r), g * s, "w = {}", w);
        }
    }
}

#[test]
fn wnaf_mul_with_table_small_table_is_none() {
    let g = EdwardsProjective::generator();
    let c = WnafContext::new(4);
    let table = vec![to_point(&g); 7];
    assert!(c.mul_with_table(&table, &to_scalar(&Fr::from(3u64))).is_none());
    assert!(c.checked_mul_with_table(&table, &to_scalar(&Fr::from(3u64))).is_none());
}

#[test]
fn wnaf_mul_with_table_first_window_only() {
    // a table of one window serves scalars below 2^(w-1) + 1 in the first window
    let g = EdwardsProjective::generator();
    let c = WnafContext::new(4);
    let full = c.table(to_point(&g));
    let first: Vec<Point> = full[..8].to_vec();
    let s = Fr::from(7u64);
    let r = c.mul_with_table(&first, &to_scalar(&s)).unwrap();
    assert_eq!(to_projective(&r), g * s);
    let r = c.checked_mul_with_table(&first, &to_scalar(&s)).unwrap();
    assert_eq!(to_projective(&r), g * s);
    // 9 needs the second window: the checked form refuses it
    assert!(c.checked_mul_with_table(&first, &to_scalar(&Fr::from(9u64))).is_none());
}

#[test]
fn wnaf_checked_mul_with_table_full_table() {
    let g = EdwardsProjective::generator();
    let c = WnafContext::new(5);
    let table = c.table(to_point(&g));
    for s in sample_scalars() {
        let r = c.checked_mul_with_table(&table, &to_scalar(&s)).unwrap();
        assert_eq!(to_projective(&r), g * s);
    }
}

#[test]
fn wnaf_digits_reconstruct_small_values() {
    for w in [2usize, 3, 4, 7] {
        for v in [0u64, 1, 2, 3, 5, 8, 255, 1000, 65535, 0x1234_5678] {
            let digits = limbs_to_wnaf_data(&vec![v], w);
            assert_eq!(digits.len(), (64 + w - 1) / w, "v = {} w = {}", v, w);
            assert_eq!(signed_value(&digits, w), v as i128);
            let half = 1i64 << (w - 1);
            assert!(digits.iter().all(|d| -half < *d && *d <= half));
        }
    }
}

#[test]
fn wnaf_digits_exact_values() {
    // 7 = 8 - 1 in windows of 2 bits: 3 -> -1 with a carry, then 1 -> 2
    assert_eq!(limbs_to_wnaf_data(&vec![7], 2)[..3], [-1, 2, 0]);
    // 0xff in windows of 4 bits: 15 -> -1 carry, 15 + 1 = 16 -> 0 carry, 1
    assert_eq!(limbs_to_wnaf_data(&vec![0xff], 4)[..3], [-1, 0, 1]);
    // the top window overflows: a carry digit is appended
    let top = limbs_to_wnaf_data(&vec![u64::MAX], 4);
    assert_eq!(top.len(), 17);
    assert_eq!(top[16], 1);
    assert!(top[..16].iter().all(|d| *d == -1 || *d == 0));
    assert!(limbs_to_wnaf_data(&vec![], 4).is_empty());
}

#[test]
fn wnaf_digits_across_limbs() {
    // windows of 5 bits straddle the limb boundary at bit 64
    let limbs = vec![0xdead_beef_0123_4567u64, 0x89ab_cdef];
    let digits = limbs_to_wnaf_data(&limbs, 5);
    assert_eq!(digits.len(), (128 + 4) / 5);
    let value = (0x89ab_cdefu128 << 64) | 0xdead_beef_0123_4567u128;
    let mut acc: i128 = 0;
    for d in digits.iter().rev() {
        acc = acc * 32 + *d as i128;
    }
    assert_eq!(acc as u128, value);
}

#[test]
fn scalar_limbs_drop_high_zero_limbs() {
    assert!(scalar_to_u64(&to_scalar(&Fr::from(0u64))).is_empty());
    assert_eq!(scalar_to_u64(&to_scalar(&Fr::from(5u64))), vec![5]);
    let two_64 = Fr::from(u64::MAX) + Fr::from(1u64);
    assert_eq!(scalar_to_u64(&to_scalar(&two_64)), vec![0, 1]);
    let minus_one = -Fr::from(1u64);
    assert_eq!(scalar_to_u64(&to_scalar(&minus_one)), minus_one.into_bigint().0.to_vec());
}

#[test]
fn gotti_reverse_bits_values() {
    let c = WnafGottiContext::new(2, 8);
    assert_eq!(c.reverse_bits(0b0000_0001, 8), 0b1000_0000);
    assert_eq!(c.reverse_bits(0b1101, 4), 0b1011);
    assert_eq!(c.reverse_bits(6, 3), 3);
    assert_eq!(c.reverse_bits(0xffff_ffff, 0), 0);
    // bits past 32 shift out of the u32
    assert_eq!(c.reverse_bits(1, 33), 0);
    for x in 0..256u32 {
        assert_eq!(c.reverse_bits(c.reverse_bits(x, 8), 8), x);
    }
}

#[test]
fn gotti_rearrange_table_moves_by_reversed_index() {
    let c = WnafGottiContext::new(2, 3);
    let table: Vec<u32> = (10..18).collect();
    let r = c.rearrange_table(&table);
    assert_eq!(r, vec![10, 14, 12, 16, 11, 15, 13, 17]);
}

#[test]
fn gotti_mul_matches_scalar_multiplication() {
    let g = EdwardsProjective::generator();
    for (t, b) in [(2usize, 8usize), (4, 4), (3, 5)] {
        let c = WnafGottiContext::new(t, b);
        for s in sample_scalars() {
            let sc = to_scalar(&s);
            let big = s.into_bigint().0[3] != 0;
            let r = c.checked_mul(to_point(&g), &sc);
            if s.is_zero() || big {
                let r = r.unwrap();
                assert_eq!(to_projective(&r), g * s, "t = {} b = {}", t, b);
                assert_eq!(to_projective(&c.mul(to_point(&g), &sc)), g * s);
            } else {
                assert!(r.is_none());
            }
        }
    }
}

#[test]
fn gotti_mul_with_table_checks() {
    let g = EdwardsProjective::generator();
    let c = WnafGottiContext::new(2, 8);
    let table = c.table(to_point(&g));
    let s = big_scalar(9);
    let r = c.mul_with_table(&table, &to_scalar(&s)).unwrap();
    assert_eq!(to_projective(&r), g * s);
    let r = c.checked_mul_with_table(&table, &to_scalar(&s)).unwrap();
    assert_eq!(to_projective(&r), g * s);
    // fewer than 2^(b-1) entries
    assert!(c.mul_with_table(&table[..100], &to_scalar(&s)).is_none());
    // a small nonzero scalar cannot be read in full
    assert!(c.checked_mul_with_table(&table, &to_scalar(&Fr::from(3u64))).is_none());
    // the zero scalar gives the neutral element
    let z = c.checked_mul_with_table(&table, &to_scalar(&Fr::from(0u64))).unwrap();
    assert!(to_projective(&z).is_zero());
}

#[test]
fn gotti_window_columns() {
    let c = WnafGottiContext::new(2, 8);
    let s = big_scalar(3);
    let v = s.into_bigint();
    let w = c.checked_gotti_window(&to_scalar(&s)).unwrap();
    assert_eq!(w.len(), 2);
    for t_i in 0..2usize {
        // column t_i reads positions 2 c + 1 - t_i below 253
        let bits: Vec<u16> = (0..127usize)
            .map(|c| 2 * c + 1 - t_i)
            .filter(|p| *p < 253)
            .map(|p| ((v.0[p / 64] >> (p % 64)) & 1) as u16)
            .collect();
        let expected: Vec<u16> = bits
            .chunks(8)
            .map(|ch| ch.iter().enumerate().fold(0u16, |acc, (j, b)| acc | (b << j)))
            .collect();
        assert_eq!(w[t_i], expected);
    }
    let zero = c.checked_gotti_window(&to_scalar(&Fr::from(0u64))).unwrap();
    assert_eq!(zero, vec![Vec::<u16>::new(), Vec::new()]);
    assert!(c.checked_gotti_window(&to_scalar(&Fr::from(77u64))).is_none());
}

#[test]
fn point_zero_is_neutral() {
    let c = WnafContext::new(4);
    let g = EdwardsProjective::generator();
    let table = c.table(to_point(&g));
    let r = c.mul_with_table(&table, &to_scalar(&Fr::from(0u64))).unwrap();
    assert_eq!(r, to_point(&EdwardsProjective::zero()));
}

#[test]
fn gotti_window_columns_rebuild_scalar() {
    // the comb columns, weighted by 2^(t - 1 - t_i) and their entries by 2^(c t), give the scalar back
    for (t, b) in [(1usize, 4usize), (3, 5), (4, 8)] {
        let c = WnafGottiContext::new(t, b);
        for s in [big_scalar(9), -Fr::from(1u64)] {
            let w = c.checked_gotti_window(&to_scalar(&s)).unwrap();
            let mut acc = Fr::from(0u64);
            for t_i in 0..t {
                let mut entry = 0u64;
                for chunk in &w[t_i] {
                    for j in 0..b {
                        if (chunk >> j) & 1 == 1 {
                            let e = entry * t as u64 + (t - 1 - t_i) as u64;
                            acc += Fr::from(2u64).pow([e]);
                        }
                        entry += 1;
                    }
                }
            }
            assert_eq!(acc, s, "t = {} b = {}", t, b);
        }
    }
}

#[test]
fn gotti_rearrange_table_twice_gives_it_back() {
    for b in [2usize, 3, 5, 8] {
        let c = WnafGottiContext::new(3, b);
        let table: Vec<u64> = (0..(1u64 << b)).map(|i| i * 7 + 3).collect();
        let once = c.rearrange_table(&table);
        assert_ne!(once, table);
        assert_eq!(c.rearrange_table(&once), table);
    }
}

#[test]
fn scalar_limbs_of_montgomery_forms() {
    // the stored limbs are the value times 2^256 modulo the modulus; the canonical ones are the value
    let one = Fr::from(1u64);
    assert_ne!(one.0 .0, [1, 0, 0, 0]);
    assert_eq!(scalar_to_u64(&to_scalar(&one)), vec![1]);
    assert_eq!(scalar_to_u64(&Scalar { mont: [0, 0, 0, 0] }), Vec::<u64>::new());
}

#[test]
fn gotti_window_of_two_to_the_192() {
    let two_192 = Fr::from(2u64).pow([192u64]);
    let w = WnafGottiContext::new(1, 8).checked_gotti_window(&to_scalar(&two_192)).unwrap();
    assert_eq!(w.len(), 1);
    assert_eq!(w[0].len(), 32);
    for (q, chunk) in w[0].iter().enumerate() {
        assert_eq!(*chunk, if q == 24 { 1 } else { 0 }, "chunk {}", q);
    }
}
