//! Scalars of BLS12-381 as `fastcrypto` holds them, and what they stand for.

use vstd::prelude::*;
use fastcrypto::groups::bls12381::Scalar;
use fastcrypto::groups::GroupElement;
use crate::field::{canonical, fadd, fmul, fpow, fsub, modulus};
use crate::field::{
    group_field_ranges, lemma_cong_canonical, lemma_cong_reduce, lemma_fadd, lemma_fmul,
    lemma_fpow_adds, lemma_fpow_one, lemma_fpow_zero,
};

verus! {

/// `fastcrypto::groups::bls12381::Scalar`, an element of the field of order `r`.
#[verifier::external_type_specification]
#[verifier::external_body]
pub struct ExScalar(Scalar);

/// `fastcrypto::error::FastCryptoError`, which the arithmetic traits of the
/// scalar type name in their signatures.
#[verifier::external_type_specification]
#[verifier::external_body]
pub struct ExFastCryptoError(fastcrypto::error::FastCryptoError);

/// The integer that a scalar holds.
pub uninterp spec fn scalar_residue(s: Scalar) -> int;

/// The field value of a scalar: its integer, in `[0, r)`.
pub open spec fn val(s: Scalar) -> int {
    scalar_residue(s) % modulus()
}

/// The field values of a sequence of scalars.
pub open spec fn values(s: Seq<Scalar>) -> Seq<int> {
    Seq::new(s.len(), |i: int| val(s[i]))
}

/// `Scalar::from(u128)`: the scalar that holds the given integer, which is
/// below `r` since `r` exceeds `2^128`.
#[verifier::external_body]
pub(crate) fn scalar_from_u128(x: u128) -> (r: Scalar)
    ensures
        scalar_residue(r) == x,
{
    Scalar::from(x)
}

/// `Scalar::zero()`: the additive identity of the field.
#[verifier::external_body]
pub(crate) fn scalar_zero() -> (r: Scalar)
    ensures
        scalar_residue(r) == 0,
{
    Scalar::zero()
}

/// `Add for Scalar`: addition modulo `r`.
#[verifier::external_body]
pub(crate) fn scalar_add(a: &Scalar, b: &Scalar) -> (r: Scalar)
    ensures
        val(r) == fadd(val(*a), val(*b)),
{
    *a + *b
}

/// `Sub for Scalar`: subtraction modulo `r`.
#[verifier::external_body]
pub(crate) fn scalar_sub(a: &Scalar, b: &Scalar) -> (r: Scalar)
    ensures
        val(r) == fsub(val(*a), val(*b)),
{
    *a - *b
}

/// `Mul<Scalar> for Scalar`: multiplication modulo `r`.
#[verifier::external_body]
pub(crate) fn scalar_mul(a: &Scalar, b: &Scalar) -> (r: Scalar)
    ensures
        val(r) == fmul(val(*a), val(*b)),
{
    *a * *b
}

/// `Scalar::rand` with `rand::thread_rng()`: a scalar drawn at random.
#[verifier::external_body]
pub(crate) fn scalar_rand() -> (r: Scalar) {
    <Scalar as fastcrypto::groups::Scalar>::rand(&mut rand::thread_rng())
}

/// Every field value is canonical.
pub proof fn lemma_val_canonical(s: Scalar)
    ensures
        canonical(val(s)),
{
    vstd::arithmetic::div_mod::lemma_mod_bound(scalar_residue(s), modulus());
}

/// The scalar that holds `hi * 2^128 + lo` modulo `r`.
pub fn scalar_from_halves(hi: u128, lo: u128) -> (r: Scalar)
    ensures
        val(r) == (hi * 0x1_0000_0000_0000_0000_0000_0000_0000_0000 + lo) % modulus(),
{
    broadcast use group_field_ranges;
    let shift = scalar_from_u128(0x1_0000_0000_0000_0000);
    let shift2 = scalar_mul(&shift, &shift);
    let top = scalar_mul(&scalar_from_u128(hi), &shift2);
    let r = scalar_add(&top, &scalar_from_u128(lo));
    proof {
        let b: int = 0x1_0000_0000_0000_0000;
        lemma_fmul(b, b, b, b);
        assert(b * b == 0x1_0000_0000_0000_0000_0000_0000_0000_0000) by (nonlinear_arith)
            requires
                b == 0x1_0000_0000_0000_0000,
        ;
        lemma_fmul(hi as int, hi as int, val(shift2), b * b);
        lemma_fadd(val(top), hi * (b * b), lo as int, lo as int);
        lemma_cong_reduce(hi * (b * b) + lo);
        lemma_cong_canonical(val(r), (hi * (b * b) + lo) % modulus());
    }
    r
}

/// `base` raised to `exp`, by squaring and multiplying.
pub fn scalar_pow(base: &Scalar, exp: usize) -> (r: Scalar)
    ensures
        val(r) == fpow(val(*base), exp as nat),
{
    broadcast use group_field_ranges;
    let mut acc = scalar_from_u128(1);
    let mut sq = *base;
    let mut e: usize = exp;
    let ghost mut done: nat = 0;
    let ghost mut weight: nat = 1;
    proof {
        lemma_val_canonical(*base);
        lemma_fpow_zero(val(*base));
        lemma_fpow_one(val(*base));
    }
    while e > 0
        invariant
            done + e * weight == exp,
            weight >= 1,
            val(acc) == fpow(val(*base), done),
            val(sq) == fpow(val(*base), weight),
        decreases e,
    {
        proof {
            assert(e == 2 * (e / 2) + e % 2);
            assert((2 * (e / 2) + e % 2) * weight == (e / 2) * (2 * weight) + (e % 2) * weight)
                by (nonlinear_arith);
        }
        if e % 2 == 1 {
            proof {
                lemma_fpow_adds(val(*base), done, weight);
                assert(1 * weight == weight);
            }
            acc = scalar_mul(&acc, &sq);
            proof {
                done = done + weight;
            }
        } else {
            assert(0 * weight == 0);
        }
        proof {
            lemma_fpow_adds(val(*base), weight, weight);
            weight = 2 * weight;
        }
        sq = scalar_mul(&sq, &sq);
        e = e / 2;
    }
    acc
}

} // verus!
