//! Arithmetic modulo the order of the BLS12-381 groups, as specification.
//!
//! Field values are integers in `[0, modulus())`. The three operations are
//! opaque to the solver; proofs about them go through [`cong`], congruence of
//! plain integers, so that ring identities can be settled over the integers.

use vstd::prelude::*;
use vstd::arithmetic::div_mod::*;
use vstd::arithmetic::power::*;

verus! {

/// The order `r` of the groups G1, G2 and GT of BLS12-381, a prime of 255 bits.
pub open spec fn modulus() -> int {
    0x73eda753299d7d483339d80809a1d80553bda402fffe5bfeffffffff00000001int
}

/// `x` is the least non-negative residue of its class.
pub open spec fn canonical(x: int) -> bool {
    0 <= x < modulus()
}

/// Every entry of `s` is canonical.
pub open spec fn all_canonical(s: Seq<int>) -> bool {
    forall|i: int| 0 <= i < s.len() ==> canonical(#[trigger] s[i])
}

/// `a` and `b` leave the same remainder modulo `r`.
pub open spec fn cong(a: int, b: int) -> bool {
    a % modulus() == b % modulus()
}

/// `y` is an inverse of `x` in the field.
pub open spec fn is_inverse(x: int, y: int) -> bool {
    cong(x * y, 1)
}

/// `x` has an inverse in the field.
pub open spec fn invertible(x: int) -> bool {
    exists|y: int| is_inverse(x, y)
}

/// `d` divides `n`.
pub open spec fn divides(d: int, n: int) -> bool {
    d != 0 && n % d == 0
}

/// `p` has no divisor strictly between one and itself.
pub open spec fn is_prime(p: int) -> bool {
    p >= 2 && forall|d: int| 1 < d < p ==> !#[trigger] divides(d, p)
}

/// Sum in the field.
#[verifier::opaque]
pub open spec fn fadd(a: int, b: int) -> int {
    (a + b) % modulus()
}

/// Difference in the field.
#[verifier::opaque]
pub open spec fn fsub(a: int, b: int) -> int {
    (a - b) % modulus()
}

/// Product in the field.
#[verifier::opaque]
pub open spec fn fmul(a: int, b: int) -> int {
    (a * b) % modulus()
}

/// `x` raised to `e` in the field.
#[verifier::opaque]
pub open spec fn fpow(x: int, e: nat) -> int {
    pow(x, e) % modulus()
}

pub broadcast proof fn lemma_fadd_canonical(a: int, b: int)
    ensures
        canonical(#[trigger] fadd(a, b)),
{
    reveal(fadd);
    lemma_mod_bound(a + b, modulus());
}

pub broadcast proof fn lemma_fsub_canonical(a: int, b: int)
    ensures
        canonical(#[trigger] fsub(a, b)),
{
    reveal(fsub);
    lemma_mod_bound(a - b, modulus());
}

pub broadcast proof fn lemma_fmul_canonical(a: int, b: int)
    ensures
        canonical(#[trigger] fmul(a, b)),
{
    reveal(fmul);
    lemma_mod_bound(a * b, modulus());
}

pub broadcast proof fn lemma_fpow_canonical(x: int, e: nat)
    ensures
        canonical(#[trigger] fpow(x, e)),
{
    reveal(fpow);
    lemma_mod_bound(pow(x, e), modulus());
}

pub broadcast group group_field_ranges {
    lemma_fadd_canonical,
    lemma_fsub_canonical,
    lemma_fmul_canonical,
    lemma_fpow_canonical,
}

/// Two canonical values in one class are equal.
pub proof fn lemma_cong_canonical(a: int, b: int)
    requires
        canonical(a),
        canonical(b),
        cong(a, b),
    ensures
        a == b,
{
    lemma_small_mod(a as nat, modulus() as nat);
    lemma_small_mod(b as nat, modulus() as nat);
}

/// Reducing a value keeps its class.
pub proof fn lemma_cong_reduce(a: int)
    ensures
        cong(a % modulus(), a),
        canonical(a % modulus()),
{
    lemma_mod_twice(a, modulus());
    lemma_mod_bound(a, modulus());
}

/// Congruence is kept by sums.
pub proof fn lemma_cong_add(a: int, x: int, b: int, y: int)
    requires
        cong(a, x),
        cong(b, y),
    ensures
        cong(a + b, x + y),
{
    lemma_add_mod_noop(a, b, modulus());
    lemma_add_mod_noop(x, y, modulus());
}

/// Congruence is kept by differences.
pub proof fn lemma_cong_sub(a: int, x: int, b: int, y: int)
    requires
        cong(a, x),
        cong(b, y),
    ensures
        cong(a - b, x - y),
{
    lemma_sub_mod_noop(a, b, modulus());
    lemma_sub_mod_noop(x, y, modulus());
}

/// Congruence is kept by products.
pub proof fn lemma_cong_mul(a: int, x: int, b: int, y: int)
    requires
        cong(a, x),
        cong(b, y),
    ensures
        cong(a * b, x * y),
{
    lemma_mul_mod_noop_general(a, b, modulus());
    lemma_mul_mod_noop_general(x, y, modulus());
}

/// Congruence is kept by powers.
pub proof fn lemma_cong_pow(a: int, x: int, e: nat)
    requires
        cong(a, x),
    ensures
        cong(pow(a, e), pow(x, e)),
{
    lemma_pow_mod_noop(a, e, modulus());
    lemma_pow_mod_noop(x, e, modulus());
}

/// A field sum stands for the sum of what its arguments stand for.
pub proof fn lemma_fadd(a: int, x: int, b: int, y: int)
    requires
        cong(a, x),
        cong(b, y),
    ensures
        cong(fadd(a, b), x + y),
{
    reveal(fadd);
    lemma_cong_add(a, x, b, y);
    lemma_cong_reduce(a + b);
}

/// A field difference stands for the difference of what its arguments stand for.
pub proof fn lemma_fsub(a: int, x: int, b: int, y: int)
    requires
        cong(a, x),
        cong(b, y),
    ensures
        cong(fsub(a, b), x - y),
{
    reveal(fsub);
    lemma_cong_sub(a, x, b, y);
    lemma_cong_reduce(a - b);
}

/// A field product stands for the product of what its arguments stand for.
pub proof fn lemma_fmul(a: int, x: int, b: int, y: int)
    requires
        cong(a, x),
        cong(b, y),
    ensures
        cong(fmul(a, b), x * y),
{
    reveal(fmul);
    lemma_cong_mul(a, x, b, y);
    lemma_cong_reduce(a * b);
}

/// A field power stands for the integer power of what its base stands for.
pub proof fn lemma_fpow(a: int, x: int, e: nat)
    requires
        cong(a, x),
    ensures
        cong(fpow(a, e), pow(x, e)),
{
    reveal(fpow);
    lemma_cong_pow(a, x, e);
    lemma_cong_reduce(pow(a, e));
}

/// The power with exponent zero is one.
pub proof fn lemma_fpow_zero(x: int)
    ensures
        fpow(x, 0) == 1,
{
    reveal(fpow);
    lemma_pow0(x);
    lemma_small_mod(1, modulus() as nat);
}

/// The power with exponent one is the base.
pub proof fn lemma_fpow_one(x: int)
    requires
        canonical(x),
    ensures
        fpow(x, 1) == x,
{
    reveal(fpow);
    lemma_pow1(x);
    lemma_small_mod(x as nat, modulus() as nat);
}

/// One more factor raises the exponent by one.
pub proof fn lemma_fpow_succ(x: int, e: nat)
    ensures
        fpow(x, e + 1) == fmul(fpow(x, e), x),
{
    broadcast use group_field_ranges;
    lemma_fpow(x, x, e);
    lemma_fmul(fpow(x, e), pow(x, e), x, x);
    lemma_fpow(x, x, e + 1);
    assert(pow(x, e + 1) == pow(x, e) * x) by {
        lemma_pow_adds(x, e, 1);
        lemma_pow1(x);
    }
    lemma_cong_canonical(fpow(x, e + 1), fmul(fpow(x, e), x));
}

/// Exponents add when powers of one base are multiplied.
pub proof fn lemma_fpow_adds(x: int, a: nat, b: nat)
    ensures
        fpow(x, a + b) == fmul(fpow(x, a), fpow(x, b)),
{
    broadcast use group_field_ranges;
    lemma_fpow(x, x, a);
    lemma_fpow(x, x, b);
    lemma_fpow(x, x, a + b);
    lemma_fmul(fpow(x, a), pow(x, a), fpow(x, b), pow(x, b));
    lemma_pow_adds(x, a, b);
    lemma_cong_canonical(fpow(x, a + b), fmul(fpow(x, a), fpow(x, b)));
}

/// A power of a power multiplies the exponents.
pub proof fn lemma_fpow_multiplies(x: int, a: nat, b: nat)
    ensures
        fpow(fpow(x, a), b) == fpow(x, a * b),
{
    broadcast use group_field_ranges;
    lemma_fpow(x, x, a);
    lemma_fpow(fpow(x, a), pow(x, a), b);
    lemma_fpow(x, x, a * b);
    lemma_pow_multiplies(x, a, b);
    lemma_cong_canonical(fpow(fpow(x, a), b), fpow(x, a * b));
}

/// A product raised to a power is the product of the powers.
pub proof fn lemma_fpow_distributes(x: int, y: int, e: nat)
    ensures
        fpow(fmul(x, y), e) == fmul(fpow(x, e), fpow(y, e)),
{
    broadcast use group_field_ranges;
    lemma_fmul(x, x, y, y);
    lemma_fpow(fmul(x, y), x * y, e);
    lemma_fpow(x, x, e);
    lemma_fpow(y, y, e);
    lemma_fmul(fpow(x, e), pow(x, e), fpow(y, e), pow(y, e));
    lemma_pow_distributes(x, y, e);
    lemma_cong_canonical(fpow(fmul(x, y), e), fmul(fpow(x, e), fpow(y, e)));
}

/// Every power of one is one.
pub proof fn lemma_fpow_of_one(e: nat)
    ensures
        fpow(1, e) == 1,
{
    reveal(fpow);
    lemma1_pow(e);
    lemma_small_mod(1, modulus() as nat);
}

/// The product of two invertible values is invertible.
pub proof fn lemma_invertible_product(x: int, y: int)
    requires
        invertible(x),
        invertible(y),
    ensures
        invertible(x * y),
{
    let u = choose|u: int| is_inverse(x, u);
    let v = choose|v: int| is_inverse(y, v);
    lemma_cong_mul(x * u, 1, y * v, 1);
    assert((x * u) * (y * v) == (x * y) * (u * v)) by (nonlinear_arith);
    assert(1 * 1 == 1);
    assert(is_inverse(x * y, u * v));
}

/// Invertibility belongs to the class, not to the integer that stands for it.
pub proof fn lemma_invertible_cong(x: int, y: int)
    requires
        invertible(x),
        cong(x, y),
    ensures
        invertible(y),
{
    let u = choose|u: int| is_inverse(x, u);
    lemma_cong_mul(x, y, u, u);
    assert(is_inverse(y, u));
}

/// Bezout's identity: the greatest common divisor `g` of `a` and `b` is an
/// integer combination `u * a + v * b` of them. The result is `(u, v, g)`.
pub proof fn lemma_bezout(a: int, b: int) -> (r: (int, int, int))
    requires
        0 <= a,
        0 <= b,
        a + b > 0,
    ensures
        r.2 > 0,
        a % r.2 == 0,
        b % r.2 == 0,
        r.0 * a + r.1 * b == r.2,
    decreases b,
{
    if b == 0 {
        lemma_mod_self_0(a);
        assert(1 * a + 0 * b == a);
        (1, 0, a)
    } else {
        let q = a / b;
        let m = a % b;
        lemma_fundamental_div_mod(a, b);
        lemma_mod_bound(a, b);
        let (u, v, g) = lemma_bezout(b, m);
        lemma_fundamental_div_mod(b, g);
        lemma_fundamental_div_mod(m, g);
        let k = (b / g) * q + m / g;
        assert(a == k * g) by (nonlinear_arith)
            requires
                a == b * q + m,
                b == g * (b / g),
                m == g * (m / g),
                k == (b / g) * q + m / g,
        ;
        lemma_mod_multiples_basic(k, g);
        assert(v * a + (u - v * q) * b == g) by (nonlinear_arith)
            requires
                a == b * q + m,
                u * b + v * m == g,
        ;
        (v, u - v * q, g)
    }
}

/// In a field of prime order everything but zero has an inverse: if the
/// modulus is prime, every value outside the class of zero is invertible.
pub proof fn lemma_nonzero_invertible(x: int)
    requires
        is_prime(modulus()),
        !cong(x, 0),
    ensures
        invertible(x),
{
    let r = modulus();
    let x0 = x % r;
    lemma_cong_reduce(x);
    lemma_small_mod(0, r as nat);
    let (u, v, g) = lemma_bezout(x0, r);
    if g > x0 {
        lemma_small_mod(x0 as nat, g as nat);
    }
    if g > 1 {
        assert(divides(g, r));
    }
    assert(g == 1);
    lemma_mod_multiples_vanish(v, x0 * u, r);
    assert(r * v + x0 * u == 1) by (nonlinear_arith)
        requires
            u * x0 + v * r == 1,
    ;
    lemma_cong_mul(x, x0, u, u);
    assert(is_inverse(x, u));
}

} // verus!
