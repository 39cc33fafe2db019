//! Windowed scalar multiplication on the Bandersnatch curve: the signed
//! window (wNAF style) method and the Gotti comb method, with the scalar
//! decompositions and table layouts proved against their specifications.

pub mod digits;
pub mod point;
pub mod scalar;
pub mod wnaf;
pub mod gotti;
pub mod comb_laws;
