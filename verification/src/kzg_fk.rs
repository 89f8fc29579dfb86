//! KZG commitments to vectors, with single-point openings.
//!
//! The setup fixes a secret scalar `tau` and publishes the elements
//! `tau^i * g1` and `tau^i * g2` for `i` below the domain size; `tau` itself
//! is dropped. Every size that has a domain can be set up; on the domain of
//! a single point vectors can be committed to, but nothing can be opened. A vector `v` is committed to as `p(tau) * g1`, where `p` is the
//! polynomial that takes the value `v[i]` at the `i`-th domain point `z_i`.
//! The opening at index `i` is `q(tau) * g1` for the quotient `q` of
//! `p(X) - p(z_i)` by `X - z_i`. The verifier accepts `(i, y, c, pi)` when
//! `e(c - y * g1, g2) == e(pi, tau * g2 - z_i * g2)`.

use vstd::prelude::*;
use vstd::assert_by_contradiction;
use vstd::slice::slice_subrange;
use fastcrypto::groups::bls12381::{G1Element, G2Element, Scalar};
use crate::error::KzgError;
use crate::fft::{supported_size, BLS12381Domain};
use crate::field::{
    all_canonical, canonical, cong, fadd, fmul, fpow, fsub, invertible, is_inverse, modulus,
};
use crate::field::{
    group_field_ranges, lemma_cong_add, lemma_cong_canonical, lemma_cong_mul, lemma_cong_reduce,
    lemma_cong_sub, lemma_fadd, lemma_fmul, lemma_fpow, lemma_fpow_one, lemma_fpow_succ,
    lemma_fpow_zero, lemma_fsub, lemma_invertible_product,
};
use crate::group::{
    exp1, exp2, exps1, g1_add, g1_generator, g1_mul, g1_multi_scalar_mul, g1_sub, g2_generator,
    g2_mul, g2_sub, gt_eq, gt_log, pairing,
};
use crate::poly::{
    axpy, eval, eval_mod, lemma_eval_mod_linear, lemma_quotient_identity, lemma_quotient_linear,
    lemma_weighted_sum_powers, quotient, quotient_coefficients, unit, weighted_sum,
};
use crate::scalar::{
    lemma_val_canonical, scalar_from_u128, scalar_rand, scalar_sub, scalar_zero, val, values,
};

verus! {

/// `itertools::iterate(first, f).take(n).collect()`: the `n` values `first`,
/// `f(first)`, `f(f(first))` and so on, each the image of the one before.
#[verifier::external_body]
fn iterate_take<T, F: Fn(&T) -> T>(first: T, f: F, n: usize) -> (r: Vec<T>)
    requires
        forall|x: &T| #[trigger] f.requires((x,)),
    ensures
        r@.len() == n,
        n > 0 ==> r@[0] == first,
        forall|i: int, j: int|
            #![trigger r@[i], r@[j]]
            0 <= i && j == i + 1 && j < n ==> f.ensures((&r@[i],), r@[j]),
{
    itertools::iterate(first, f).take(n).collect()
}

/// A sequence that starts at one and grows by the factor `t` holds the powers of `t`.
proof fn lemma_powers_from_steps(e: Seq<int>, t: int, i: int)
    requires
        e.len() > 0,
        e[0] == 1,
        forall|a: int, b: int|
            0 <= a && b == a + 1 && b < e.len() ==> #[trigger] e[b] == fmul(#[trigger] e[a], t),
        0 <= i < e.len(),
    ensures
        e[i] == fpow(t, i as nat),
    decreases i,
{
    if i == 0 {
        lemma_fpow_zero(t);
    } else {
        lemma_powers_from_steps(e, t, i - 1);
        lemma_fpow_succ(t, (i - 1) as nat);
        assert(e[i] == fmul(e[i - 1], t));
    }
}

/// The vector of `n` scalars that holds one at `index` and zero elsewhere.
fn unit_vector(n: usize, index: usize) -> (r: Vec<Scalar>)
    ensures
        values(r@) == unit(n as nat, index as nat),
{
    let mut r: Vec<Scalar> = Vec::new();
    let mut j: usize = 0;
    while j < n
        invariant
            j <= n,
            r@.len() == j,
            forall|m: int| 0 <= m < j ==> val(#[trigger] r@[m]) == unit(n as nat, index as nat)[m],
        decreases n - j,
    {
        if j == index {
            r.push(scalar_from_u128(1));
        } else {
            r.push(scalar_zero());
        }
        j = j + 1;
    }
    assert(values(r@) =~= unit(n as nat, index as nat));
    r
}

/// Changing one entry of a vector adds a multiple of a unit vector.
proof fn lemma_update_as_axpy(v: Seq<int>, i: nat, new: int)
    requires
        all_canonical(v),
        canonical(new),
        i < v.len(),
    ensures
        v.update(i as int, new) == axpy(v, fsub(new, v[i as int]), unit(v.len(), i)),
{
    broadcast use group_field_ranges;
    let d = fsub(new, v[i as int]);
    let l = v.update(i as int, new);
    let r = axpy(v, d, unit(v.len(), i));
    assert forall|j: int| 0 <= j < v.len() implies l[j] == r[j] by {
        if j == i {
            lemma_fsub(new, new, v[j], v[j]);
            lemma_fmul(d, new - v[j], 1, 1);
            lemma_fadd(v[j], v[j], fmul(d, 1), (new - v[j]) * 1);
            assert(v[j] + (new - v[j]) * 1 == new);
            lemma_cong_canonical(r[j], new);
        } else {
            lemma_fmul(d, d, 0, 0);
            assert(d * 0 == 0);
            lemma_fadd(v[j], v[j], fmul(d, 0), 0);
            lemma_cong_canonical(r[j], v[j]);
        }
    }
    assert(l =~= r);
}

/// The public parameters of the scheme for one domain size.
pub struct KZGFK {
    domain: BLS12381Domain,
    tau_powers_g1: Vec<G1Element>,
    tau_powers_g2: Vec<G2Element>,
}

impl KZGFK {
    /// The evaluation domain.
    pub closed spec fn domain(&self) -> BLS12381Domain {
        self.domain
    }

    /// The published elements of G1.
    pub closed spec fn tau_powers_g1(&self) -> Seq<G1Element> {
        self.tau_powers_g1@
    }

    /// The published elements of G2.
    pub closed spec fn tau_powers_g2(&self) -> Seq<G2Element> {
        self.tau_powers_g2@
    }

    /// The number of entries of the vectors that can be committed to.
    pub open spec fn len(&self) -> nat {
        self.domain().len()
    }

    /// The secret of the setup, which only the published elements still
    /// determine: the exponent of the second of them. Where a single
    /// element is published it is some fixed value that nothing depends on.
    pub closed spec fn secret(&self) -> int {
        exp1(self.tau_powers_g1@[1])
    }

    /// The parameters are what [`KZGFK::new`] builds: one element per domain
    /// point in each group, and in both groups the `i`-th of them is the
    /// generator times the `i`-th power of the secret.
    pub open spec fn wf(&self) -> bool {
        &&& self.domain().wf()
        &&& self.tau_powers_g1().len() == self.len()
        &&& self.tau_powers_g2().len() == self.len()
        &&& forall|i: int|
            0 <= i < self.len() ==> exp1(#[trigger] self.tau_powers_g1()[i]) == fpow(
                self.secret(),
                i as nat,
            )
        &&& forall|i: int|
            0 <= i < self.len() ==> exp2(#[trigger] self.tau_powers_g2()[i]) == fpow(
                self.secret(),
                i as nat,
            )
    }

    /// The exponent of the commitment to the vector with field values `v`:
    /// the value at the secret of the polynomial that interpolates `v`.
    pub open spec fn commitment(&self, v: Seq<int>) -> int {
        eval_mod(self.domain().coefficients(v), self.secret())
    }

    /// The exponent of the opening of `v` at `index`: the value at the secret
    /// of the quotient of `p(X) - p(z)` by `X - z`, for the polynomial `p`
    /// that interpolates `v` and the domain point `z` of that index.
    pub open spec fn opening(&self, v: Seq<int>, index: nat) -> int {
        eval_mod(
            quotient(self.domain().coefficients(v), self.domain().point(index)),
            self.secret(),
        )
    }

    /// The verifier's equation in the exponent: the domain has at least two
    /// points, the index names one of them, `z`, and `c - value` is
    /// `proof * (secret - z)` in the field.
    pub open spec fn accepts(&self, index: nat, value: int, c: int, proof: int) -> bool {
        &&& self.len() >= 2
        &&& index < self.len()
        &&& cong(c - value, proof * (self.secret() - self.domain().point(index)))
    }

    /// The exponent of the commitment `c` after the entry at `index` went
    /// from `old` to `new`: `c` plus the change times the commitment to the
    /// unit vector of that index, which stands for the Lagrange polynomial
    /// of the index.
    pub open spec fn updated_commitment(&self, c: int, index: nat, old: int, new: int) -> int {
        fadd(c, fmul(self.commitment(unit(self.len(), index)), fsub(new, old)))
    }

    /// The exponent of the opening `proof` at `index` after the entry at that
    /// same `index` went from `old` to `new`: `proof` plus the change times
    /// the opening of the unit vector of the index at the index.
    pub open spec fn updated_opening(&self, proof: int, index: nat, old: int, new: int) -> int {
        fadd(proof, fmul(self.opening(unit(self.len(), index), index), fsub(new, old)))
    }

    /// The secret is a field value.
    pub proof fn lemma_secret_canonical(&self)
        ensures
            canonical(self.secret()),
    {
        vstd::arithmetic::div_mod::lemma_mod_bound(
            crate::group::g1_log(self.tau_powers_g1@[1]),
            modulus(),
        );
    }

    /// What well-formed parameters hold: a domain of a supported size; as
    /// first published elements the two generators; and, where there is a
    /// second one, the secret as its exponent in both groups.
    pub proof fn lemma_wf(&self)
        requires
            self.wf(),
        ensures
            self.domain().wf(),
            supported_size(self.len() as int),
            self.len() >= 1,
            canonical(self.secret()),
            exp1(self.tau_powers_g1()[0]) == 1,
            exp2(self.tau_powers_g2()[0]) == 1,
            self.len() >= 2 ==> exp1(self.tau_powers_g1()[1]) == self.secret() && exp2(
                self.tau_powers_g2()[1],
            ) == self.secret(),
    {
        self.domain().lemma_generator();
        self.lemma_secret_canonical();
        lemma_fpow_zero(self.secret());
        lemma_fpow_one(self.secret());
        reveal(vstd::arithmetic::power2::is_pow2);
    }

    /// Sets the scheme up for vectors of `n` entries with the given secret,
    /// for every size `n` that has a domain: the powers of two up to `2^32`.
    /// Whoever knows the secret can open any commitment to any value, so
    /// outside of tests the secret has to be drawn at random and dropped, as
    /// [`KZGFK::new`] does.
    pub fn from_secret(n: usize, tau: &Scalar) -> (r: Result<Self, KzgError>)
        ensures
            r is Ok <==> supported_size(n as int),
            r matches Ok(k) ==> k.wf() && k.len() == n && (n >= 2 ==> k.secret() == val(*tau)),
            r matches Err(e) ==> e == KzgError::UnsupportedSize,
    {
        broadcast use group_field_ranges;
        let domain = match BLS12381Domain::new(n) {
            Ok(d) => d,
            Err(e) => {
                return Err(e);
            },
        };
        let step_g1 = |g: &G1Element| -> (out: G1Element)
            ensures
                exp1(out) == fmul(exp1(*g), val(*tau)),
            { g1_mul(g, tau) };
        let tau_powers_g1 = iterate_take(g1_generator(), step_g1, n);
        let step_g2 = |g: &G2Element| -> (out: G2Element)
            ensures
                exp2(out) == fmul(exp2(*g), val(*tau)),
            { g2_mul(g, tau) };
        let tau_powers_g2 = iterate_take(g2_generator(), step_g2, n);
        let r = KZGFK { domain, tau_powers_g1, tau_powers_g2 };
        proof {
            let t = val(*tau);
            let e1 = exps1(r.tau_powers_g1@);
            let e2 = Seq::new(r.tau_powers_g2@.len(), |i: int| exp2(r.tau_powers_g2@[i]));
            r.domain.lemma_generator();
            reveal(vstd::arithmetic::power2::is_pow2);
            assert(n >= 1);
            lemma_val_canonical(*tau);
            assert forall|a: int, b: int| 0 <= a && b == a + 1 && b < e1.len() implies #[trigger] e1[b]
                == fmul(#[trigger] e1[a], t) by {
                assert(step_g1.ensures((&r.tau_powers_g1@[a],), r.tau_powers_g1@[b]));
            }
            assert forall|a: int, b: int| 0 <= a && b == a + 1 && b < e2.len() implies #[trigger] e2[b]
                == fmul(#[trigger] e2[a], t) by {
                assert(step_g2.ensures((&r.tau_powers_g2@[a],), r.tau_powers_g2@[b]));
            }
            if n >= 2 {
                lemma_powers_from_steps(e1, t, 1);
                lemma_fpow_one(t);
                assert(r.secret() == t);
            }
            assert forall|i: int| 0 <= i < r.len() implies exp1(#[trigger] r.tau_powers_g1()[i])
                == fpow(r.secret(), i as nat) by {
                lemma_powers_from_steps(e1, t, i);
                assert(e1[i] == exp1(r.tau_powers_g1@[i]));
                if n < 2 {
                    lemma_fpow_zero(t);
                    lemma_fpow_zero(r.secret());
                }
            }
            assert forall|i: int| 0 <= i < r.len() implies exp2(#[trigger] r.tau_powers_g2()[i])
                == fpow(r.secret(), i as nat) by {
                lemma_powers_from_steps(e2, t, i);
                assert(e2[i] == exp2(r.tau_powers_g2@[i]));
                if n < 2 {
                    lemma_fpow_zero(t);
                    lemma_fpow_zero(r.secret());
                }
            }
        }
        Ok(r)
    }

    /// Sets the scheme up for vectors of `n` entries, with a fresh random
    /// secret that is dropped on return. Refused exactly for the sizes that
    /// have no domain.
    pub fn new(n: usize) -> (r: Result<Self, KzgError>)
        ensures
            r is Ok <==> supported_size(n as int),
            r matches Ok(k) ==> k.wf() && k.len() == n,
            r matches Err(e) ==> e == KzgError::UnsupportedSize,
    {
        let tau = scalar_rand();
        Self::from_secret(n, &tau)
    }

    /// The number of entries of the vectors that can be committed to.
    pub fn size(&self) -> (n: usize)
        ensures
            n == self.len(),
    {
        self.domain.size()
    }

    /// The published powers of the secret stand for the value of a
    /// polynomial at the secret, when weighted with its coefficients.
    proof fn lemma_powers_weigh(&self, c: Seq<int>, points: Seq<G1Element>)
        requires
            self.wf(),
            c.len() == points.len(),
            points.len() <= self.len(),
            points == self.tau_powers_g1@.subrange(0, points.len() as int),
        ensures
            weighted_sum(c, exps1(points)) % modulus() == eval_mod(c, self.secret()),
    {
        let t = self.secret();
        let e = exps1(points);
        assert forall|i: int| 0 <= i < e.len() implies cong(
            #[trigger] e[i],
            1 * vstd::arithmetic::power::pow(t, i as nat),
        ) by {
            assert(points[i] == self.tau_powers_g1@[i]);
            lemma_fpow(t, t, i as nat);
        }
        lemma_weighted_sum_powers(c, e, t, 1);
        assert(1 * eval(c, t) == eval(c, t));
    }

    /// The commitment to `v`: one element of G1 that stands for the
    /// polynomial interpolating `v`. Refused unless `v` has one entry per
    /// domain point.
    pub fn commit(&self, v: &[Scalar]) -> (r: Result<G1Element, KzgError>)
        requires
            self.wf(),
        ensures
            r is Ok <==> v@.len() == self.len(),
            r matches Ok(c) ==> exp1(c) == self.commitment(values(v@)),
            r matches Err(e) ==> e == KzgError::LengthMismatch,
    {
        if v.len() != self.domain.size() {
            return Err(KzgError::LengthMismatch);
        }
        let poly = self.domain.ifft(v);
        proof {
            self.lemma_wf();
            assert(self.tau_powers_g1@.subrange(0, self.tau_powers_g1@.len() as int)
                =~= self.tau_powers_g1@);
            self.lemma_powers_weigh(values(poly@), self.tau_powers_g1@);
        }
        match g1_multi_scalar_mul(poly.as_slice(), self.tau_powers_g1.as_slice()) {
            Ok(c) => Ok(c),
            Err(_) => Err(KzgError::LengthMismatch),
        }
    }

    /// The proof that `v` holds `v[index]` at `index`: one element of G1 that
    /// stands for the quotient polynomial. Refused unless `v` has one entry
    /// per domain point, `index` names one of them, and there are at least
    /// two of them.
    pub fn open(&self, v: &[Scalar], index: usize) -> (r: Result<G1Element, KzgError>)
        requires
            self.wf(),
        ensures
            r is Ok <==> (v@.len() == self.len() && index < self.len() && self.len() >= 2),
            r matches Ok(p) ==> exp1(p) == self.opening(values(v@), index as nat),
            r matches Err(e) ==> e == if v@.len() != self.len() {
                KzgError::LengthMismatch
            } else if index >= self.len() {
                KzgError::IndexOutOfRange
            } else {
                KzgError::DegenerateDomain
            },
    {
        if v.len() != self.domain.size() {
            return Err(KzgError::LengthMismatch);
        }
        if index >= self.domain.size() {
            return Err(KzgError::IndexOutOfRange);
        }
        if self.domain.size() < 2 {
            return Err(KzgError::DegenerateDomain);
        }
        let poly = self.domain.ifft(v);
        let z = self.domain.element(index);
        let quotient_coeffs = quotient_coefficients(poly.as_slice(), &z);
        assert(quotient_coeffs@.len() == values(quotient_coeffs@).len());
        assert(values(poly@).len() == poly@.len());
        let points = slice_subrange(self.tau_powers_g1.as_slice(), 0, quotient_coeffs.len());
        proof {
            self.lemma_powers_weigh(values(quotient_coeffs@), points@);
        }
        match g1_multi_scalar_mul(quotient_coeffs.as_slice(), points) {
            Ok(p) => Ok(p),
            Err(_) => Err(KzgError::DegenerateDomain),
        }
    }

    /// Whether `open_i` proves that the vector committed to in `commitment`
    /// holds `v_i` at `index`. An index that names no domain point is not
    /// accepted, and on the domain of a single point nothing is.
    pub fn verify(
        &self,
        index: usize,
        v_i: &Scalar,
        commitment: &G1Element,
        open_i: &G1Element,
    ) -> (ok: bool)
        requires
            self.wf(),
        ensures
            ok == self.accepts(index as nat, val(*v_i), exp1(*commitment), exp1(*open_i)),
    {
        broadcast use group_field_ranges;
        if index >= self.domain.size() || self.domain.size() < 2 {
            return false;
        }
        let z = self.domain.element(index);
        let claimed = g1_mul(&self.tau_powers_g1[0], v_i);
        let lhs = g1_sub(commitment, &claimed);
        let shift = g2_mul(&self.tau_powers_g2[0], &z);
        let rhs = g2_sub(&self.tau_powers_g2[1], &shift);
        let lhs_pairing = pairing(&lhs, &self.tau_powers_g2[0]);
        let rhs_pairing = pairing(open_i, &rhs);
        let ok = gt_eq(&lhs_pairing, &rhs_pairing);
        proof {
            let t = self.secret();
            let c = exp1(*commitment);
            let y = val(*v_i);
            let pi = exp1(*open_i);
            let zv = val(z);
            self.lemma_secret_canonical();
            lemma_fpow_zero(t);
            lemma_fpow_one(t);
            assert(exp1(self.tau_powers_g1@[0]) == 1);
            assert(exp2(self.tau_powers_g2@[0]) == 1);
            assert(exp2(self.tau_powers_g2@[1]) == t);
            // left: (c - 1 * y) * 1
            lemma_fmul(1, 1, y, y);
            lemma_fsub(c, c, exp1(claimed), 1 * y);
            lemma_fmul(exp1(lhs), c - 1 * y, 1, 1);
            assert((c - 1 * y) * 1 == c - y);
            // right: pi * (t - 1 * zv)
            lemma_fmul(1, 1, zv, zv);
            lemma_fsub(t, t, exp2(shift), 1 * zv);
            lemma_fmul(pi, pi, exp2(rhs), t - 1 * zv);
            assert(t - 1 * zv == t - zv);
            let a = gt_log(lhs_pairing);
            let b = gt_log(rhs_pairing);
            assert(cong(a, c - y));
            assert(cong(b, pi * (t - zv)));
            if cong(c - y, pi * (t - zv)) {
                lemma_cong_canonical(a, b);
            }
        }
        ok
    }

    /// The commitment to the vector that was committed to in `commitment`,
    /// with the entry at `index` changed from `old_v_i` to `new_v_i`. It is
    /// returned and also put in place of `commitment`. Refused, with
    /// `commitment` left as it was, unless `index` names a domain point.
    pub fn update(
        &self,
        commitment: &mut G1Element,
        index: usize,
        old_v_i: &Scalar,
        new_v_i: &Scalar,
    ) -> (r: Result<G1Element, KzgError>)
        requires
            self.wf(),
        ensures
            r is Ok <==> index < self.len(),
            r matches Ok(c) ==> *final(commitment) == c && exp1(c) == self.updated_commitment(
                exp1(*old(commitment)),
                index as nat,
                val(*old_v_i),
                val(*new_v_i),
            ),
            r matches Err(e) ==> e == KzgError::IndexOutOfRange && *final(commitment) == *old(
                commitment,
            ),
    {
        let n = self.domain.size();
        if index >= n {
            return Err(KzgError::IndexOutOfRange);
        }
        let basis = unit_vector(n, index);
        assert(values(basis@).len() == basis@.len());
        let lagrange = match self.commit(basis.as_slice()) {
            Ok(l) => l,
            Err(_) => {
                return Err(KzgError::IndexOutOfRange);
            },
        };
        let delta = scalar_sub(new_v_i, old_v_i);
        let change = g1_mul(&lagrange, &delta);
        let updated = g1_add(commitment, &change);
        *commitment = updated;
        Ok(updated)
    }

    /// The opening at `index` of the vector that `open` was made for, with
    /// the entry at that same `index` changed from `old_v_i` to `new_v_i`. It
    /// is returned and also put in place of `open`. Refused, with `open`
    /// left as it was, unless `index` names a domain point and there are at
    /// least two of them.
    pub fn update_open_i(
        &self,
        open: &mut G1Element,
        index: usize,
        old_v_i: &Scalar,
        new_v_i: &Scalar,
    ) -> (r: Result<G1Element, KzgError>)
        requires
            self.wf(),
        ensures
            r is Ok <==> (index < self.len() && self.len() >= 2),
            r matches Ok(p) ==> *final(open) == p && exp1(p) == self.updated_opening(
                exp1(*old(open)),
                index as nat,
                val(*old_v_i),
                val(*new_v_i),
            ),
            r matches Err(e) ==> *final(open) == *old(open) && e == if index >= self.len() {
                KzgError::IndexOutOfRange
            } else {
                KzgError::DegenerateDomain
            },
    {
        let n = self.domain.size();
        if index >= n {
            return Err(KzgError::IndexOutOfRange);
        }
        let basis = unit_vector(n, index);
        assert(values(basis@).len() == basis@.len());
        let lagrange = match self.open(basis.as_slice(), index) {
            Ok(l) => l,
            Err(e) => {
                return Err(e);
            },
        };
        let delta = scalar_sub(new_v_i, old_v_i);
        let change = g1_mul(&lagrange, &delta);
        let updated = g1_add(open, &change);
        *open = updated;
        Ok(updated)
    }

    /// Every genuine opening is accepted: on a domain of at least two
    /// points, for a vector `v` of field values and an index `i`, the
    /// verifier's equation holds of `i`, `v[i]`, the commitment to `v` and
    /// the opening of `v` at `i`.
    pub proof fn lemma_opening_accepted(&self, v: Seq<int>, i: nat)
        requires
            self.wf(),
            self.len() >= 2,
            v.len() == self.len(),
            all_canonical(v),
            i < v.len(),
        ensures
            self.accepts(i, v[i as int], self.commitment(v), self.opening(v, i)),
    {
        let t = self.secret();
        let z = self.domain().point(i);
        let p = self.domain().coefficients(v);
        let q = quotient(p, z);
        self.domain().lemma_coefficients(v, i as int);
        lemma_quotient_identity(p, z, t);
        lemma_cong_reduce(eval(p, t));
        lemma_cong_reduce(eval(p, z));
        lemma_cong_reduce(eval(q, t));
        lemma_cong_sub(self.commitment(v), eval(p, t), v[i as int], eval(p, z));
        lemma_cong_mul(self.opening(v, i), eval(q, t), t - z, t - z);
        assert(eval(q, t) * (t - z) == (t - z) * eval(q, t)) by (nonlinear_arith);
    }

    /// The commitment is a function of the vector: two elements that both
    /// meet the contract of [`KZGFK::commit`] for vectors with the same field
    /// values have the same exponent.
    pub proof fn lemma_commit_deterministic(&self, v: Seq<int>, c1: G1Element, c2: G1Element)
        requires
            exp1(c1) == self.commitment(v),
            exp1(c2) == self.commitment(v),
        ensures
            exp1(c1) == exp1(c2),
    {
    }

    /// The opening is a function of the vector and the index: two elements
    /// that both meet the contract of [`KZGFK::open`] for the same index and
    /// vectors with the same field values have the same exponent.
    pub proof fn lemma_open_deterministic(
        &self,
        v: Seq<int>,
        index: nat,
        p1: G1Element,
        p2: G1Element,
    )
        requires
            exp1(p1) == self.opening(v, index),
            exp1(p2) == self.opening(v, index),
        ensures
            exp1(p1) == exp1(p2),
    {
    }

    /// With index, commitment and proof fixed, at most one value is
    /// accepted: a claimed value other than the genuine one is rejected.
    pub proof fn lemma_accepts_one_value(&self, index: nat, a: int, b: int, c: int, proof: int)
        requires
            canonical(a),
            canonical(b),
            self.accepts(index, a, c, proof),
            self.accepts(index, b, c, proof),
        ensures
            a == b,
    {
        lemma_cong_sub(c, c, c - a, c - b);
        assert(c - (c - a) == a);
        assert(c - (c - b) == b);
        lemma_cong_canonical(a, b);
    }

    /// With index, value and proof fixed, at most one commitment is
    /// accepted: a commitment other than the genuine one is rejected.
    pub proof fn lemma_accepts_one_commitment(
        &self,
        index: nat,
        value: int,
        c1: int,
        c2: int,
        proof: int,
    )
        requires
            canonical(c1),
            canonical(c2),
            self.accepts(index, value, c1, proof),
            self.accepts(index, value, c2, proof),
        ensures
            c1 == c2,
    {
        lemma_cong_add(c1 - value, c2 - value, value, value);
        assert((c1 - value) + value == c1);
        assert((c2 - value) + value == c2);
        lemma_cong_canonical(c1, c2);
    }

    /// With index, value and commitment fixed, at most one proof is
    /// accepted, provided the secret is no domain point, or more exactly
    /// that its distance `secret - z` from the point of the index is
    /// invertible: a proof other than the genuine one is rejected.
    pub proof fn lemma_accepts_one_proof(&self, index: nat, value: int, c: int, p1: int, p2: int)
        requires
            canonical(p1),
            canonical(p2),
            self.accepts(index, value, c, p1),
            self.accepts(index, value, c, p2),
            invertible(self.secret() - self.domain().point(index)),
        ensures
            p1 == p2,
    {
        let g = self.secret() - self.domain().point(index);
        let inv = choose|y: int| is_inverse(g, y);
        lemma_cong_mul(p1 * g, p2 * g, inv, inv);
        lemma_cong_mul(p1, p1, g * inv, 1);
        lemma_cong_mul(p2, p2, g * inv, 1);
        assert((p1 * g) * inv == p1 * (g * inv)) by (nonlinear_arith);
        assert((p2 * g) * inv == p2 * (g * inv)) by (nonlinear_arith);
        assert(p1 * 1 == p1);
        assert(p2 * 1 == p2);
        lemma_cong_canonical(p1, p2);
    }

    /// A proof that is accepted at one index is rejected at every other,
    /// with value and commitment fixed, provided the proof is not the
    /// identity, or more exactly that its exponent is invertible.
    pub proof fn lemma_accepts_one_index(&self, i: nat, j: nat, value: int, c: int, proof: int)
        requires
            self.wf(),
            self.accepts(i, value, c, proof),
            i != j,
            invertible(proof),
        ensures
            !self.accepts(j, value, c, proof),
    {
        let t = self.secret();
        let zi = self.domain().point(i);
        let zj = self.domain().point(j);
        // else proof * (zi - zj) would stand for zero, yet both factors have inverses
        assert_by_contradiction!(!self.accepts(j, value, c, proof), {
            self.domain().lemma_points_apart(i, j);
            lemma_invertible_product(proof, zi - zj);
            let x = proof * (zi - zj);
            let y = choose|y: int| is_inverse(x, y);
            lemma_cong_sub(proof * (t - zj), c - value, proof * (t - zi), c - value);
            assert(proof * (t - zj) - proof * (t - zi) == proof * (zi - zj)) by (nonlinear_arith);
            assert((c - value) - (c - value) == 0);
            lemma_cong_mul(proof * (zi - zj), 0, y, y);
            assert(0 * y == 0);
            assert(cong(1, 0));
        });
    }

    /// Updating a commitment gives the commitment to the changed vector:
    /// for a vector `v` of field values, [`KZGFK::updated_commitment`] of the
    /// commitment to `v`, for the entry at `i` going from `v[i]` to `new`, is
    /// the commitment to `v` with `new` at `i`.
    pub proof fn lemma_update_commitment(&self, v: Seq<int>, i: nat, new: int)
        requires
            self.wf(),
            v.len() == self.len(),
            all_canonical(v),
            canonical(new),
            i < v.len(),
        ensures
            self.updated_commitment(self.commitment(v), i, v[i as int], new) == self.commitment(
                v.update(i as int, new),
            ),
    {
        broadcast use group_field_ranges;
        let d = fsub(new, v[i as int]);
        let u = unit(self.len(), i);
        let t = self.secret();
        lemma_update_as_axpy(v, i, new);
        self.domain().lemma_coefficients_linear(v, d, u);
        lemma_eval_mod_linear(self.domain().coefficients(v), d, self.domain().coefficients(u), t);
        lemma_fmul(d, d, self.commitment(u), self.commitment(u));
        lemma_fmul(self.commitment(u), self.commitment(u), d, d);
        assert(d * self.commitment(u) == self.commitment(u) * d) by (nonlinear_arith);
        lemma_cong_canonical(fmul(d, self.commitment(u)), fmul(self.commitment(u), d));
    }

    /// Updating an opening gives the opening of the changed vector: for a
    /// vector `v` of field values, [`KZGFK::updated_opening`] of the opening
    /// of `v` at `i`, for the entry at `i` going from `v[i]` to `new`, is the
    /// opening at `i` of `v` with `new` at `i`.
    pub proof fn lemma_update_opening(&self, v: Seq<int>, i: nat, new: int)
        requires
            self.wf(),
            v.len() == self.len(),
            all_canonical(v),
            canonical(new),
            i < v.len(),
        ensures
            self.updated_opening(self.opening(v, i), i, v[i as int], new) == self.opening(
                v.update(i as int, new),
                i,
            ),
    {
        broadcast use group_field_ranges;
        let d = fsub(new, v[i as int]);
        let u = unit(self.len(), i);
        let t = self.secret();
        let z = self.domain().point(i);
        let pv = self.domain().coefficients(v);
        let pu = self.domain().coefficients(u);
        lemma_update_as_axpy(v, i, new);
        self.domain().lemma_coefficients_linear(v, d, u);
        lemma_quotient_linear(pv, d, pu, z);
        lemma_eval_mod_linear(quotient(pv, z), d, quotient(pu, z), t);
        lemma_fmul(d, d, self.opening(u, i), self.opening(u, i));
        lemma_fmul(self.opening(u, i), self.opening(u, i), d, d);
        assert(d * self.opening(u, i) == self.opening(u, i) * d) by (nonlinear_arith);
        lemma_cong_canonical(fmul(d, self.opening(u, i)), fmul(self.opening(u, i), d));
    }
}

} // verus!
