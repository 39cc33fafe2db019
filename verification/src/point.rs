//! Points of the Bandersnatch curve, held by their coordinates, and the group
//! operations of the outside curve implementation that the tables and the
//! multiplications are built from.

use ark_ed_on_bls12_381_bandersnatch::{EdwardsProjective, Fq};
use ark_ff::{AdditiveGroup, BigInt, Zero};
use vstd::prelude::*;

verus! {

/// A point of the Bandersnatch curve in extended twisted Edwards coordinates
/// `(X : Y : T : Z)`, each coordinate held as the four little-endian
/// Montgomery limbs that the base field `Fq` stores.
#[derive(Clone, Copy, Debug, PartialEq, Eq)]
pub struct Point {
    pub x: [u64; 4],
    pub y: [u64; 4],
    pub t: [u64; 4],
    pub z: [u64; 4],
}

/// The coordinates that `EdwardsProjective += &EdwardsProjective` gives for `a` and `b`.
pub uninterp spec fn edwards_add(a: Point, b: Point) -> Point;

/// The coordinates that `EdwardsProjective -= &EdwardsProjective` gives for `a` and `b`.
pub uninterp spec fn edwards_sub(a: Point, b: Point) -> Point;

/// The coordinates that `AdditiveGroup::double` gives for `a`.
pub uninterp spec fn edwards_double(a: Point) -> Point;

/// Montgomery limbs of the element one of `Fq`.
pub open spec fn fq_one() -> [u64; 4] {
    [0x0000_0001_ffff_fffe, 0x5884_b7fa_0003_4802, 0x998c_4fef_ecbc_4ff5, 0x1824_b159_acc5_056f]
}

/// The neutral element `(0 : 1 : 0 : 1)`.
pub open spec fn identity_point() -> Point {
    Point { x: [0u64, 0, 0, 0], y: fq_one(), t: [0u64, 0, 0, 0], z: fq_one() }
}

/// `Zero::zero` of `EdwardsProjective`: the coordinates `(0 : 1 : 0 : 1)`.
#[verifier::external_body]
pub(crate) fn point_zero() -> (r: Point)
    ensures
        r == identity_point(),
{
    let p = EdwardsProjective::zero();
    Point { x: p.x.0 .0, y: p.y.0 .0, t: p.t.0 .0, z: p.z.0 .0 }
}

/// `AddAssign<&Self>` of `EdwardsProjective` (the unified addition of
/// Hisil, Wong, Carter and Dawson); its coordinates are named, not stated.
#[verifier::external_body]
pub(crate) fn point_add(a: &Point, b: &Point) -> (r: Point)
    ensures
        r == edwards_add(*a, *b),
{
    let f = |l: [u64; 4]| Fq::new_unchecked(BigInt(l));
    let mut p = EdwardsProjective::new_unchecked(f(a.x), f(a.y), f(a.t), f(a.z));
    p += &EdwardsProjective::new_unchecked(f(b.x), f(b.y), f(b.t), f(b.z));
    Point { x: p.x.0 .0, y: p.y.0 .0, t: p.t.0 .0, z: p.z.0 .0 }
}

/// `SubAssign<&Self>` of `EdwardsProjective` (the addition of the negated
/// point); its coordinates are named, not stated.
#[verifier::external_body]
pub(crate) fn point_sub(a: &Point, b: &Point) -> (r: Point)
    ensures
        r == edwards_sub(*a, *b),
{
    let f = |l: [u64; 4]| Fq::new_unchecked(BigInt(l));
    let mut p = EdwardsProjective::new_unchecked(f(a.x), f(a.y), f(a.t), f(a.z));
    p -= &EdwardsProjective::new_unchecked(f(b.x), f(b.y), f(b.t), f(b.z));
    Point { x: p.x.0 .0, y: p.y.0 .0, t: p.t.0 .0, z: p.z.0 .0 }
}

/// `AdditiveGroup::double` of `EdwardsProjective`; its coordinates are named, not stated.
#[verifier::external_body]
pub(crate) fn point_double(a: &Point) -> (r: Point)
    ensures
        r == edwards_double(*a),
{
    let f = |l: [u64; 4]| Fq::new_unchecked(BigInt(l));
    let p = EdwardsProjective::new_unchecked(f(a.x), f(a.y), f(a.t), f(a.z)).double();
    Point { x: p.x.0 .0, y: p.y.0 .0, t: p.t.0 .0, z: p.z.0 .0 }
}

} // verus!
