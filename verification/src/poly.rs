//! Polynomials by their coefficient sequences, lowest degree first.

use vstd::prelude::*;
use fastcrypto::groups::bls12381::Scalar;
use crate::field::{cong, fadd, fmul, modulus};
use crate::field::{
    group_field_ranges, lemma_cong_add, lemma_cong_canonical, lemma_cong_mul, lemma_cong_reduce,
    lemma_fadd, lemma_fmul,
};
use crate::scalar::{lemma_val_canonical, scalar_add, scalar_mul, scalar_zero, val, values};
use vstd::arithmetic::power::{lemma_pow0, lemma_pow_adds, lemma_pow1, pow};

verus! {

/// The value at `x` of the polynomial with coefficients `c`, over the integers.
pub open spec fn eval(c: Seq<int>, x: int) -> int
    decreases c.len(),
{
    if c.len() == 0 {
        0
    } else {
        c[0] + x * eval(c.skip(1), x)
    }
}

/// The value at `x` of the polynomial with coefficients `c`, in the field.
pub open spec fn eval_mod(c: Seq<int>, x: int) -> int {
    eval(c, x) % modulus()
}

/// The sum of the products `s[i] * e[i]`, over the integers.
pub open spec fn weighted_sum(s: Seq<int>, e: Seq<int>) -> int
    decreases s.len(),
{
    if s.len() == 0 || e.len() == 0 {
        0
    } else {
        s[0] * e[0] + weighted_sum(s.skip(1), e.skip(1))
    }
}

/// The quotient of `p(X) - p(z)` by `X - z`: one coefficient fewer than `p`,
/// and coefficient `j` is the value at `z` of `p` with its `j + 1` lowest
/// terms dropped and the rest shifted down.
pub open spec fn quotient(p: Seq<int>, z: int) -> Seq<int> {
    Seq::new(
        if p.len() == 0 {
            0
        } else {
            (p.len() - 1) as nat
        },
        |j: int| eval_mod(p.skip(j + 1), z),
    )
}

/// The sequence that holds `e` at its even and `o` at its odd positions.
pub open spec fn interleave(e: Seq<int>, o: Seq<int>) -> Seq<int> {
    Seq::new(
        e.len() + o.len(),
        |j: int|
            if j % 2 == 0 {
                e[j / 2]
            } else {
                o[j / 2]
            },
    )
}

/// The sequence `a + d * b`, entry by entry in the field.
pub open spec fn axpy(a: Seq<int>, d: int, b: Seq<int>) -> Seq<int> {
    Seq::new(a.len(), |j: int| fadd(a[j], fmul(d, b[j])))
}

/// The sequence of length `n` that holds one at `i` and zero elsewhere.
pub open spec fn unit(n: nat, i: nat) -> Seq<int> {
    Seq::new(
        n,
        |j: int|
            if j == i {
                1int
            } else {
                0int
            },
    )
}

/// One step of Horner's rule at position `k`.
pub proof fn lemma_eval_unfold(p: Seq<int>, k: int, x: int)
    requires
        0 <= k < p.len(),
    ensures
        eval(p.skip(k), x) == p[k] + x * eval(p.skip(k + 1), x),
{
    assert(p.skip(k).skip(1) =~= p.skip(k + 1));
}

/// The quotient of a polynomial is its first quotient coefficient followed by
/// the quotient of the polynomial without its constant term.
pub proof fn lemma_quotient_tail(p: Seq<int>, z: int)
    requires
        p.len() >= 2,
    ensures
        quotient(p, z).skip(1) == quotient(p.skip(1), z),
        quotient(p, z)[0] == eval_mod(p.skip(1), z),
{
    let a = quotient(p, z).skip(1);
    let b = quotient(p.skip(1), z);
    assert(a.len() == b.len());
    assert forall|j: int| 0 <= j < a.len() implies a[j] == b[j] by {
        assert(p.skip(1).skip(j + 1) =~= p.skip(j + 2));
    }
    assert(a =~= b);
}

/// Division with remainder by `X - z`, at any point `x`:
/// `p(x) - p(z)` is `(x - z)` times the value of the quotient at `x`.
pub proof fn lemma_quotient_identity(p: Seq<int>, z: int, x: int)
    ensures
        cong(eval(p, x) - eval(p, z), (x - z) * eval(quotient(p, z), x)),
    decreases p.len(),
{
    if p.len() <= 1 {
        let q = quotient(p, z);
        assert(q.len() == 0);
        assert(eval(q, x) == 0);
        assert((x - z) * 0 == 0);
        if p.len() == 1 {
            assert(p.skip(1).len() == 0);
            assert(eval(p.skip(1), x) == 0);
            assert(eval(p.skip(1), z) == 0);
            assert(x * 0 == 0);
            assert(z * 0 == 0);
        }
        assert(eval(p, x) - eval(p, z) == 0);
    } else {
        let t = p.skip(1);
        let q = quotient(p, z);
        let tq = quotient(t, z);
        let tx = eval(t, x);
        let tz = eval(t, z);
        let qx = eval(tq, x);
        lemma_quotient_tail(p, z);
        lemma_quotient_identity(t, z, x);
        // eval(q, x) == q[0] + x * qx, and q[0] stands for tz
        lemma_cong_reduce(tz);
        assert(eval(q, x) == q[0] + x * qx);
        assert(eval(p, x) - eval(p, z) == x * (tx - tz) + (x - z) * tz) by (nonlinear_arith)
            requires
                eval(p, x) == p[0] + x * tx,
                eval(p, z) == p[0] + z * tz,
        ;
        lemma_cong_mul(x, x, tx - tz, (x - z) * qx);
        lemma_cong_mul(x - z, x - z, tz, q[0]);
        lemma_cong_add(x * (tx - tz), x * ((x - z) * qx), (x - z) * tz, (x - z) * q[0]);
        assert(x * ((x - z) * qx) + (x - z) * q[0] == (x - z) * (q[0] + x * qx))
            by (nonlinear_arith);
    }
}

/// A polynomial takes congruent values at congruent points.
pub proof fn lemma_eval_cong_point(c: Seq<int>, x: int, y: int)
    requires
        cong(x, y),
    ensures
        cong(eval(c, x), eval(c, y)),
    decreases c.len(),
{
    if c.len() > 0 {
        lemma_eval_cong_point(c.skip(1), x, y);
        lemma_cong_mul(x, y, eval(c.skip(1), x), eval(c.skip(1), y));
        lemma_cong_add(c[0], c[0], x * eval(c.skip(1), x), y * eval(c.skip(1), y));
    }
}

/// The polynomial with even part `e` and odd part `o`:
/// its value at `x` is `e(x^2) + x * o(x^2)`.
pub proof fn lemma_eval_interleave(e: Seq<int>, o: Seq<int>, x: int)
    requires
        e.len() == o.len(),
    ensures
        eval(interleave(e, o), x) == eval(e, x * x) + x * eval(o, x * x),
    decreases e.len(),
{
    let s = interleave(e, o);
    if e.len() == 0 {
        assert(x * 0 == 0);
    } else {
        let et = e.skip(1);
        let ot = o.skip(1);
        let st = interleave(et, ot);
        assert(s.skip(1).skip(1) =~= st) by {
            assert forall|j: int| 0 <= j < st.len() implies s.skip(1).skip(1)[j] == st[j] by {
                assert(s.skip(1).skip(1)[j] == s[j + 2]);
                assert((j + 2) / 2 == j / 2 + 1);
                assert((j + 2) % 2 == j % 2);
            }
        }
        lemma_eval_interleave(et, ot, x);
        assert(s[0] == e[0]);
        assert(s.skip(1)[0] == o[0]);
        assert(eval(s.skip(1), x) == o[0] + x * eval(st, x));
        assert(eval(s, x) == e[0] + x * eval(s.skip(1), x));
        assert(e[0] + x * (o[0] + x * (eval(et, x * x) + x * eval(ot, x * x))) == (e[0] + (x * x)
            * eval(et, x * x)) + x * (o[0] + (x * x) * eval(ot, x * x))) by (nonlinear_arith);
    }
}

/// Evaluation is linear in the coefficients.
pub proof fn lemma_eval_linear(a: Seq<int>, d: int, b: Seq<int>, x: int)
    requires
        a.len() == b.len(),
    ensures
        cong(eval(axpy(a, d, b), x), eval(a, x) + d * eval(b, x)),
    decreases a.len(),
{
    let s = axpy(a, d, b);
    if a.len() == 0 {
        assert(d * 0 == 0);
    } else {
        let at = a.skip(1);
        let bt = b.skip(1);
        assert(s.skip(1) =~= axpy(at, d, bt));
        lemma_eval_linear(at, d, bt, x);
        lemma_fmul(d, d, b[0], b[0]);
        lemma_fadd(a[0], a[0], fmul(d, b[0]), d * b[0]);
        lemma_cong_mul(x, x, eval(s.skip(1), x), eval(at, x) + d * eval(bt, x));
        lemma_cong_add(
            s[0],
            a[0] + d * b[0],
            x * eval(s.skip(1), x),
            x * (eval(at, x) + d * eval(bt, x)),
        );
        assert((a[0] + d * b[0]) + x * (eval(at, x) + d * eval(bt, x)) == (a[0] + x * eval(at, x))
            + d * (b[0] + x * eval(bt, x))) by (nonlinear_arith);
    }
}

/// The value in the field is linear in the coefficients.
pub proof fn lemma_eval_mod_linear(a: Seq<int>, d: int, b: Seq<int>, x: int)
    requires
        a.len() == b.len(),
    ensures
        eval_mod(axpy(a, d, b), x) == fadd(eval_mod(a, x), fmul(d, eval_mod(b, x))),
{
    broadcast use group_field_ranges;
    lemma_eval_linear(a, d, b, x);
    lemma_cong_reduce(eval(a, x));
    lemma_cong_reduce(eval(b, x));
    lemma_cong_reduce(eval(axpy(a, d, b), x));
    lemma_fmul(d, d, eval_mod(b, x), eval(b, x));
    lemma_fadd(eval_mod(a, x), eval(a, x), fmul(d, eval_mod(b, x)), d * eval(b, x));
    lemma_cong_canonical(
        eval_mod(axpy(a, d, b), x),
        fadd(eval_mod(a, x), fmul(d, eval_mod(b, x))),
    );
}

/// The quotient by `X - z` is linear in the coefficients.
pub proof fn lemma_quotient_linear(p: Seq<int>, d: int, u: Seq<int>, z: int)
    requires
        p.len() == u.len(),
    ensures
        quotient(axpy(p, d, u), z) == axpy(quotient(p, z), d, quotient(u, z)),
{
    let l = quotient(axpy(p, d, u), z);
    let r = axpy(quotient(p, z), d, quotient(u, z));
    assert(l.len() == r.len());
    assert forall|j: int| 0 <= j < l.len() implies l[j] == r[j] by {
        assert(axpy(p, d, u).skip(j + 1) =~= axpy(p.skip(j + 1), d, u.skip(j + 1)));
        lemma_eval_mod_linear(p.skip(j + 1), d, u.skip(j + 1), z);
    }
    assert(l =~= r);
}

/// A weighted sum against the powers of `x`, each times `m`, is `m` times the
/// value of the polynomial at `x`.
pub proof fn lemma_weighted_sum_powers(c: Seq<int>, e: Seq<int>, x: int, m: int)
    requires
        c.len() == e.len(),
        forall|i: int| 0 <= i < e.len() ==> cong(#[trigger] e[i], m * pow(x, i as nat)),
    ensures
        cong(weighted_sum(c, e), m * eval(c, x)),
    decreases c.len(),
{
    if c.len() == 0 {
        assert(m * 0 == 0);
    } else {
        let ct = c.skip(1);
        let et = e.skip(1);
        assert forall|i: int| 0 <= i < et.len() implies cong(
            #[trigger] et[i],
            (m * x) * pow(x, i as nat),
        ) by {
            assert(et[i] == e[i + 1]);
            lemma_pow_adds(x, 1, i as nat);
            lemma_pow1(x);
            assert(m * pow(x, (i + 1) as nat) == (m * x) * pow(x, i as nat)) by (nonlinear_arith)
                requires
                    pow(x, (i + 1) as nat) == x * pow(x, i as nat),
            ;
        }
        lemma_weighted_sum_powers(ct, et, x, m * x);
        lemma_pow0(x);
        assert(m * pow(x, 0) == m) by (nonlinear_arith)
            requires
                pow(x, 0) == 1,
        ;
        lemma_cong_mul(c[0], c[0], e[0], m);
        lemma_cong_add(c[0] * e[0], c[0] * m, weighted_sum(ct, et), (m * x) * eval(ct, x));
        assert(c[0] * m + (m * x) * eval(ct, x) == m * (c[0] + x * eval(ct, x)))
            by (nonlinear_arith);
    }
}

/// A vector of `n` zero scalars.
fn zeros(n: usize) -> (v: Vec<Scalar>)
    ensures
        v@.len() == n,
        forall|i: int| 0 <= i < n ==> val(#[trigger] v@[i]) == 0,
{
    let mut v: Vec<Scalar> = Vec::new();
    while v.len() < n
        invariant
            v@.len() <= n,
            forall|i: int| 0 <= i < v@.len() ==> val(#[trigger] v@[i]) == 0,
        decreases n - v@.len(),
    {
        v.push(scalar_zero());
    }
    v
}

/// The coefficients of the quotient of `p(X) - p(z)` by `X - z`, for the
/// polynomial `p` with coefficients `poly`, by synthetic division from the
/// leading coefficient down. A polynomial with fewer than two coefficients
/// has the empty quotient.
pub fn quotient_coefficients(poly: &[Scalar], z: &Scalar) -> (q: Vec<Scalar>)
    ensures
        values(q@) == quotient(values(poly@), val(*z)),
{
    broadcast use group_field_ranges;
    let n = poly.len();
    let ghost p = values(poly@);
    let ghost zv = val(*z);
    if n < 2 {
        let q: Vec<Scalar> = Vec::new();
        assert(values(q@) =~= quotient(p, zv));
        return q;
    }
    let mut q = zeros(n - 1);
    q.set(n - 2, poly[n - 1]);
    proof {
        lemma_val_canonical(poly@[n - 1]);
        lemma_eval_unfold(p, n - 1, zv);
        assert(p.skip(n as int).len() == 0);
        assert(zv * 0 == 0);
        vstd::arithmetic::div_mod::lemma_small_mod(p[n - 1] as nat, modulus() as nat);
    }
    let mut j: usize = n - 2;
    while j > 0
        invariant
            n == poly@.len(),
            n >= 2,
            j <= n - 2,
            q@.len() == n - 1,
            p == values(poly@),
            zv == val(*z),
            forall|k: int| j <= k < n - 1 ==> val(#[trigger] q@[k]) == eval_mod(p.skip(k + 1), zv),
        decreases j,
    {
        j = j - 1;
        let carried = scalar_mul(&q[j + 1], z);
        let next = scalar_add(&poly[j + 1], &carried);
        proof {
            let above = eval(p.skip(j + 2), zv);
            lemma_cong_reduce(above);
            lemma_fmul(val(q@[j + 1]), above, zv, zv);
            lemma_fadd(p[j + 1], p[j + 1], val(carried), above * zv);
            lemma_eval_unfold(p, j + 1, zv);
            assert(above * zv == zv * above) by (nonlinear_arith);
            lemma_cong_reduce(eval(p.skip(j + 1), zv));
            lemma_cong_canonical(val(next), eval_mod(p.skip(j + 1), zv));
        }
        q.set(j, next);
    }
    assert(values(q@) =~= quotient(p, zv));
    q
}

} // verus!
