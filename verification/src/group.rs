//! The groups G1, G2 and GT of BLS12-381 as `fastcrypto` holds them.
//!
//! Each group is cyclic of prime order `r`, so every element is a unique
//! multiple `k * g` of the group's generator with `0 <= k < r`. The contracts
//! speak of that `k`, the element's exponent. The generator of GT is the
//! pairing of the generators of G1 and G2. All of this is said of elements of
//! the prime-order groups, which are the only ones that the checked
//! constructors and the operations of `fastcrypto` hand out.

use vstd::prelude::*;
use fastcrypto::error::FastCryptoError;
use fastcrypto::groups::bls12381::{G1Element, G2Element, GTElement, Scalar};
use fastcrypto::groups::{GroupElement, MultiScalarMul, Pairing};
use crate::field::{fadd, fmul, fsub, modulus};
use crate::poly::weighted_sum;
use crate::scalar::{val, values};

verus! {

/// `fastcrypto::groups::bls12381::G1Element`, an element of G1.
#[verifier::external_type_specification]
#[verifier::external_body]
pub struct ExG1Element(G1Element);

/// `fastcrypto::groups::bls12381::G2Element`, an element of G2.
#[verifier::external_type_specification]
#[verifier::external_body]
pub struct ExG2Element(G2Element);

/// `fastcrypto::groups::bls12381::GTElement`, an element of GT.
#[verifier::external_type_specification]
#[verifier::external_body]
pub struct ExGTElement(GTElement);

/// The `k` for which an element of G1 is `k` times the generator of G1.
pub uninterp spec fn g1_log(p: G1Element) -> int;

/// The `k` for which an element of G2 is `k` times the generator of G2.
pub uninterp spec fn g2_log(p: G2Element) -> int;

/// The `k` for which an element of GT is `k` times the pairing of the two
/// generators, with `0 <= k < r`.
pub uninterp spec fn gt_log(p: GTElement) -> int;

/// The exponent of an element of G1, in `[0, r)`.
pub open spec fn exp1(p: G1Element) -> int {
    g1_log(p) % modulus()
}

/// The exponent of an element of G2, in `[0, r)`.
pub open spec fn exp2(p: G2Element) -> int {
    g2_log(p) % modulus()
}

/// The exponents of a sequence of elements of G1.
pub open spec fn exps1(s: Seq<G1Element>) -> Seq<int> {
    Seq::new(s.len(), |i: int| exp1(s[i]))
}

/// `G1Element::generator()`: the generator of G1, whose exponent is one.
#[verifier::external_body]
pub(crate) fn g1_generator() -> (r: G1Element)
    ensures
        g1_log(r) == 1,
{
    G1Element::generator()
}

/// `Mul<Scalar> for G1Element`: the scalar multiple, whose exponent is the
/// product of the element's exponent and the scalar.
#[verifier::external_body]
pub(crate) fn g1_mul(p: &G1Element, s: &Scalar) -> (r: G1Element)
    ensures
        exp1(r) == fmul(exp1(*p), val(*s)),
{
    *p * *s
}

/// `Add for G1Element`: the group sum, whose exponent is the sum of the exponents.
#[verifier::external_body]
pub(crate) fn g1_add(a: &G1Element, b: &G1Element) -> (r: G1Element)
    ensures
        exp1(r) == fadd(exp1(*a), exp1(*b)),
{
    *a + *b
}

/// `Sub for G1Element`: the group difference, whose exponent is the
/// difference of the exponents.
#[verifier::external_body]
pub(crate) fn g1_sub(a: &G1Element, b: &G1Element) -> (r: G1Element)
    ensures
        exp1(r) == fsub(exp1(*a), exp1(*b)),
{
    *a - *b
}

/// `G1Element::multi_scalar_mul`: refused exactly when the two slices differ
/// in length or are empty; else the sum of the points, each multiplied by its
/// scalar, whose exponent is the sum of the products of scalar and exponent.
#[verifier::external_body]
pub(crate) fn g1_multi_scalar_mul(
    scalars: &[Scalar],
    points: &[G1Element],
) -> (r: Result<G1Element, FastCryptoError>)
    ensures
        r is Ok <==> (scalars@.len() == points@.len() && scalars@.len() > 0),
        r matches Ok(p) ==> exp1(p) == weighted_sum(values(scalars@), exps1(points@))
            % modulus(),
{
    G1Element::multi_scalar_mul(scalars, points)
}

/// `G2Element::generator()`: the generator of G2, whose exponent is one.
#[verifier::external_body]
pub(crate) fn g2_generator() -> (r: G2Element)
    ensures
        g2_log(r) == 1,
{
    G2Element::generator()
}

/// `Mul<Scalar> for G2Element`: the scalar multiple, whose exponent is the
/// product of the element's exponent and the scalar.
#[verifier::external_body]
pub(crate) fn g2_mul(p: &G2Element, s: &Scalar) -> (r: G2Element)
    ensures
        exp2(r) == fmul(exp2(*p), val(*s)),
{
    *p * *s
}

/// `Sub for G2Element`: the group difference, whose exponent is the
/// difference of the exponents.
#[verifier::external_body]
pub(crate) fn g2_sub(a: &G2Element, b: &G2Element) -> (r: G2Element)
    ensures
        exp2(r) == fsub(exp2(*a), exp2(*b)),
{
    *a - *b
}

/// `Pairing::pairing` of G1: the bilinear map into GT, under which the
/// exponents multiply.
#[verifier::external_body]
pub(crate) fn pairing(p: &G1Element, q: &G2Element) -> (r: GTElement)
    ensures
        gt_log(r) == fmul(exp1(*p), exp2(*q)),
{
    p.pairing(q)
}

/// `PartialEq for GTElement`: two elements of GT are equal exactly when
/// their exponents are.
#[verifier::external_body]
pub(crate) fn gt_eq(a: &GTElement, b: &GTElement) -> (r: bool)
    ensures
        r == (gt_log(*a) == gt_log(*b)),
{
    *a == *b
}

} // verus!
