//! KZG polynomial commitments over BLS12-381 with single-point openings.
//!
//! A vector of `n` scalars is read as the values of a polynomial of degree
//! below `n` on a multiplicative domain of size `n`. The commitment is one
//! element of G1, an opening proof is one element of G1, and a proof is
//! checked with one pairing equation.
//!
//! Curve and field arithmetic are done by `fastcrypto`. Its scalars and
//! group elements are carried through as opaque values; the contracts speak
//! of the integer modulo the group order that each of them stands for.

pub mod error;
pub mod fft;
pub mod field;
pub mod group;
pub mod kzg_fk;
pub mod poly;
pub mod scalar;
