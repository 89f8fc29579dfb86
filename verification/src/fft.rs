//! The multiplicative domains of BLS12-381's scalar field whose size is a
//! power of two, and interpolation on them.
//!
//! The field has a multiplicative subgroup of order `2^32`. The domain of
//! size `n = 2^k` is the subgroup of order `n`, generated by the fixed root of
//! unity of order `2^32` raised to `2^(32 - k)`; its `i`-th point is the `i`-th
//! power of that generator.

use vstd::prelude::*;
use vstd::assert_by_contradiction;
use vstd::arithmetic::power2::{
    is_pow2, is_pow2_equiv, is_pow2_exists, lemma2_to64, lemma_pow2, lemma_pow2_adds,
    lemma_pow2_pos, lemma_pow2_strictly_increases, lemma_pow2_unfold, pow2,
};
use fastcrypto::groups::bls12381::Scalar;
use crate::error::KzgError;
use crate::field::{
    all_canonical, canonical, cong, fadd, fmul, fpow, fsub, invertible, is_inverse, modulus,
};
use crate::field::{
    group_field_ranges, lemma_cong_add, lemma_cong_canonical, lemma_cong_mul, lemma_cong_reduce,
    lemma_cong_sub, lemma_fadd, lemma_fmul, lemma_fpow, lemma_fpow_adds, lemma_fpow_distributes,
    lemma_fpow_multiplies, lemma_fpow_of_one, lemma_fpow_one, lemma_fpow_succ, lemma_fpow_zero,
    lemma_fsub, lemma_invertible_cong, lemma_invertible_product,
};
use vstd::arithmetic::power::{lemma_pow0, lemma_pow_adds, lemma_pow1, pow};
use crate::poly::{
    axpy, eval, eval_mod, interleave, lemma_eval_cong_point, lemma_eval_interleave,
};
use crate::scalar::{
    lemma_val_canonical, scalar_add, scalar_from_halves, scalar_from_u128, scalar_mul, scalar_pow,
    scalar_sub, val, values,
};

verus! {

/// A root of unity of order exactly `2^32` in the field: `7` raised to `(r - 1) / 2^32`.
pub open spec fn root_of_unity() -> int {
    10238227357739495823651030575849232062558860180284477541189508159991286009131int
}

/// The inverse of two in the field, `(r + 1) / 2`.
pub open spec fn half() -> int {
    26217937587563095239723870254092982918845276250263818911301829349969290592257int
}

/// The largest domain size, `2^32`.
pub open spec fn max_size() -> int {
    0x1_0000_0000
}

/// The sizes for which a domain exists: the powers of two up to `2^32`.
pub open spec fn supported_size(n: int) -> bool {
    is_pow2(n) && n <= max_size()
}

/// Half the sums of the entries that lie half the length apart: the values,
/// on the squared domain, of the even part of the interpolating polynomial.
pub open spec fn fold_sum(v: Seq<int>) -> Seq<int> {
    Seq::new(v.len() / 2, |i: int| fmul(fadd(v[i], v[i + v.len() / 2]), half()))
}

/// Half the differences of the entries that lie half the length apart, each
/// divided by its domain point: the values, on the squared domain, of the odd
/// part of the interpolating polynomial. `winv` is the inverse of the
/// domain's generator.
pub open spec fn fold_diff(v: Seq<int>, winv: int) -> Seq<int> {
    Seq::new(
        v.len() / 2,
        |i: int| fmul(fmul(fsub(v[i], v[i + v.len() / 2]), half()), fpow(winv, i as nat)),
    )
}

/// The coefficients of the polynomial of degree below `v.len()` that takes
/// the value `v[i]` at the `i`-th power of the domain's generator, whose
/// inverse is `winv`; `v.len()` is a power of two. The even and the odd
/// coefficients are those of two polynomials of half the length on the
/// squared domain.
pub open spec fn interpolate(v: Seq<int>, winv: int) -> Seq<int>
    decreases v.len(),
{
    if v.len() < 2 {
        v
    } else {
        interleave(
            interpolate(fold_sum(v), fmul(winv, winv)),
            interpolate(fold_diff(v, winv), fmul(winv, winv)),
        )
    }
}

proof fn lemma_square_step(c: int, d: int, j: nat)
    requires
        fpow(root_of_unity(), pow2(j)) == c,
        (c * c) % modulus() == d,
    ensures
        fpow(root_of_unity(), pow2(j + 1)) == d,
{
    lemma_pow2_unfold(j + 1);
    lemma_fpow_adds(root_of_unity(), pow2(j), pow2(j));
    reveal(fmul);
}

/// The fixed root of unity has order `2^32`: raised to `2^31` it is `-1`,
/// raised to `2^32` it is `1`.
pub proof fn lemma_root_order()
    ensures
        fpow(root_of_unity(), pow2(31)) == modulus() - 1,
        fpow(root_of_unity(), pow2(32)) == 1,
{
    lemma2_to64();
    lemma_fpow_one(root_of_unity());
    lemma_square_step(
        10238227357739495823651030575849232062558860180284477541189508159991286009131int,
        34070893824967080313820779135880760772780807222436853681508667398599787661631int,
        0,
    );
    lemma_square_step(
        34070893824967080313820779135880760772780807222436853681508667398599787661631int,
        20094891866007995289136270587723853997043774683345353712639419774914899074390int,
        1,
    );
    lemma_square_step(
        20094891866007995289136270587723853997043774683345353712639419774914899074390int,
        5660829372603820951332104046316074966592589311213397907344198301300676239643int,
        2,
    );
    lemma_square_step(
        5660829372603820951332104046316074966592589311213397907344198301300676239643int,
        37480612446576615530266821837655054090426372233228960378061628060638903214217int,
        3,
    );
    lemma_square_step(
        37480612446576615530266821837655054090426372233228960378061628060638903214217int,
        15932505959375582308231798849995567447410469395474322018100309999481287547373int,
        4,
    );
    lemma_square_step(
        15932505959375582308231798849995567447410469395474322018100309999481287547373int,
        4541622677469846713471916119560591929733417256448031920623614406126544048514int,
        5,
    );
    lemma_square_step(
        4541622677469846713471916119560591929733417256448031920623614406126544048514int,
        734830308204920577628633053915970695663549910788964686411700880930222744862int,
        6,
    );
    lemma_square_step(
        734830308204920577628633053915970695663549910788964686411700880930222744862int,
        18596002123094854211120822350746157678791770803088570110573239418060655130524int,
        7,
    );
    lemma_square_step(
        18596002123094854211120822350746157678791770803088570110573239418060655130524int,
        52167942466760591552294394977846462646742207006759917080697723404762651336366int,
        8,
    );
    lemma_square_step(
        52167942466760591552294394977846462646742207006759917080697723404762651336366int,
        4859563557044021881916617240989566298388494151979623102977292742331120628579int,
        9,
    );
    lemma_square_step(
        4859563557044021881916617240989566298388494151979623102977292742331120628579int,
        32468834368094611004052562760214251466632493208153926274007662173556188291130int,
        10,
    );
    lemma_square_step(
        32468834368094611004052562760214251466632493208153926274007662173556188291130int,
        1755840822790712607783180844474754741366353396308200820563736496551326485835int,
        11,
    );
    lemma_square_step(
        1755840822790712607783180844474754741366353396308200820563736496551326485835int,
        37115000097562964541269718788523040559386243094666416358585267518228781043101int,
        12,
    );
    lemma_square_step(
        37115000097562964541269718788523040559386243094666416358585267518228781043101int,
        20439484849038267462774237595151440867617792718791690563928621375157525968123int,
        13,
    );
    lemma_square_step(
        20439484849038267462774237595151440867617792718791690563928621375157525968123int,
        15495926509001846844474268026226183818445427694968626800913907911890390421264int,
        14,
    );
    lemma_square_step(
        15495926509001846844474268026226183818445427694968626800913907911890390421264int,
        15076889834420168339092859836519192632846122361203618639585008852351569017005int,
        15,
    );
    lemma_square_step(
        15076889834420168339092859836519192632846122361203618639585008852351569017005int,
        22872204467218851938836547481240843888453165451755431061227190987689039608686int,
        16,
    );
    lemma_square_step(
        22872204467218851938836547481240843888453165451755431061227190987689039608686int,
        39072540533732477250409069030641316533649120504872707460480262653418090977761int,
        17,
    );
    lemma_square_step(
        39072540533732477250409069030641316533649120504872707460480262653418090977761int,
        32731401973776920074999878620293785439674386180695720638377027142500196583783int,
        18,
    );
    lemma_square_step(
        32731401973776920074999878620293785439674386180695720638377027142500196583783int,
        39033254847818212395286706435128746857159659164139250548781411570340225835782int,
        19,
    );
    lemma_square_step(
        39033254847818212395286706435128746857159659164139250548781411570340225835782int,
        49307615728544765012166121802278658070711169839041683575071795236746050763237int,
        20,
    );
    lemma_square_step(
        49307615728544765012166121802278658070711169839041683575071795236746050763237int,
        22781213702924172180523978385542388841346373992886390990881355510284839737428int,
        21,
    );
    lemma_square_step(
        22781213702924172180523978385542388841346373992886390990881355510284839737428int,
        4214636447306890335450803789410475782380792963881561516561680164772024173390int,
        22,
    );
    lemma_square_step(
        4214636447306890335450803789410475782380792963881561516561680164772024173390int,
        36007022166693598376559747923784822035233416720563672082740011604939309541707int,
        23,
    );
    lemma_square_step(
        36007022166693598376559747923784822035233416720563672082740011604939309541707int,
        47309214877430199588914062438791732591241783999377560080318349803002842391998int,
        24,
    );
    lemma_square_step(
        47309214877430199588914062438791732591241783999377560080318349803002842391998int,
        31519469946562159605140591558550197856588417350474800936898404023113662197331int,
        25,
    );
    lemma_square_step(
        31519469946562159605140591558550197856588417350474800936898404023113662197331int,
        36581797046584068049060372878520385032448812009597153775348195406694427778894int,
        26,
    );
    lemma_square_step(
        36581797046584068049060372878520385032448812009597153775348195406694427778894int,
        14788168760825820622209131888203028446852016562542525606630160374691593895118int,
        27,
    );
    lemma_square_step(
        14788168760825820622209131888203028446852016562542525606630160374691593895118int,
        23674694431658770659612952115660802947967373701506253797663184111817857449850int,
        28,
    );
    lemma_square_step(
        23674694431658770659612952115660802947967373701506253797663184111817857449850int,
        3465144826073652318776269530687742778270252468765361963008int,
        29,
    );
    lemma_square_step(
        3465144826073652318776269530687742778270252468765361963008int,
        52435875175126190479447740508185965837690552500527637822603658699938581184512int,
        30,
    );
    lemma_square_step(
        52435875175126190479447740508185965837690552500527637822603658699938581184512int,
        1,
        31,
    );
}

/// Two times the inverse of two is one.
pub proof fn lemma_half()
    ensures
        cong(2 * half(), 1),
        canonical(half()),
{
}

/// Minus one is its own inverse.
pub proof fn lemma_minus_one()
    ensures
        cong(modulus() - 1, -1),
        cong((modulus() - 1) * (modulus() - 1), 1),
{
    let m = modulus();
    assert((m - 1) * (m - 1) == m * (m - 2) + 1) by (nonlinear_arith);
    vstd::arithmetic::div_mod::lemma_mod_multiples_vanish(m - 2, 1, m);
}

/// Minus one raised to `d` is one for even `d` and minus one for odd `d`.
pub proof fn lemma_minus_one_pow(d: nat)
    ensures
        fpow(modulus() - 1, d) == if d % 2 == 0 {
            1
        } else {
            modulus() - 1
        },
    decreases d,
{
    broadcast use group_field_ranges;
    let m = modulus() - 1;
    if d == 0 {
        lemma_fpow_zero(m);
    } else {
        lemma_minus_one_pow((d - 1) as nat);
        lemma_fpow_succ(m, (d - 1) as nat);
        lemma_minus_one();
        lemma_fmul(m, m, m, m);
        lemma_cong_canonical(fmul(m, m), 1);
        lemma_fmul(1, 1, m, m);
        assert(1 * m == m);
        lemma_cong_canonical(fmul(1, m), m);
    }
}

/// The square raised to `m` is the base raised to `2 * m`.
pub proof fn lemma_fpow_square(x: int, m: nat)
    ensures
        fpow(fmul(x, x), m) == fpow(x, 2 * m),
{
    lemma_fpow_distributes(x, x, m);
    lemma_fpow_adds(x, m, m);
}

/// The squares of two inverses are inverses.
pub proof fn lemma_inverse_square(w: int, winv: int)
    requires
        fmul(w, winv) == 1,
    ensures
        fmul(fmul(w, w), fmul(winv, winv)) == 1,
{
    broadcast use group_field_ranges;
    lemma_fmul(w, w, w, w);
    lemma_fmul(winv, winv, winv, winv);
    lemma_fmul(fmul(w, w), w * w, fmul(winv, winv), winv * winv);
    lemma_fmul(w, w, winv, winv);
    lemma_cong_mul(w * winv, 1, w * winv, 1);
    assert((w * w) * (winv * winv) == (w * winv) * (w * winv)) by (nonlinear_arith);
    lemma_cong_canonical(fmul(fmul(w, w), fmul(winv, winv)), 1);
}

/// Equal powers of two inverses are inverses.
pub proof fn lemma_inverse_power(w: int, winv: int, k: nat)
    requires
        fmul(w, winv) == 1,
    ensures
        fmul(fpow(w, k), fpow(winv, k)) == 1,
{
    lemma_fpow_distributes(w, winv, k);
    lemma_fpow_of_one(k);
}

/// The generator of the domain of size `n` has order exactly `n`: raised to
/// a positive `d` below `n` it is not one.
pub proof fn lemma_order_is_size(w: int, n: nat, d: nat)
    requires
        is_pow2(n as int),
        n >= 2,
        fpow(w, n / 2) == modulus() - 1,
        0 < d < n,
    ensures
        fpow(w, d) != 1,
    decreases n,
{
    reveal_with_fuel(is_pow2, 2);
    let h = n / 2;
    if d % 2 == 1 {
        // an odd power, raised to half the size, is minus one
        lemma_fpow_multiplies(w, d, h);
        lemma_fpow_multiplies(w, h, d);
        assert(d * h == h * d) by (nonlinear_arith);
        lemma_minus_one_pow(d);
        lemma_fpow_of_one(h);
    } else {
        // an even power is a power of the square, which generates half the domain
        let e = d / 2;
        assert(h == 2 * (h / 2));
        lemma_fpow_square(w, e);
        lemma_fpow_square(w, h / 2);
        lemma_order_is_size(fmul(w, w), h, e);
    }
}

/// The sum `1 + z + ... + z^(m - 1)`.
pub open spec fn geometric_sum(z: int, m: nat) -> int
    decreases m,
{
    if m == 0 {
        0
    } else {
        geometric_sum(z, (m - 1) as nat) + pow(z, (m - 1) as nat)
    }
}

/// `z - 1` times the geometric sum of length `m` is `z^m - 1`.
pub proof fn lemma_geometric_sum(z: int, m: nat)
    ensures
        (z - 1) * geometric_sum(z, m) == pow(z, m) - 1,
    decreases m,
{
    if m == 0 {
        lemma_pow0(z);
        assert((z - 1) * 0 == 0);
    } else {
        let k = (m - 1) as nat;
        lemma_geometric_sum(z, k);
        lemma_pow_adds(z, k, 1);
        lemma_pow1(z);
        assert((z - 1) * (geometric_sum(z, k) + pow(z, k)) == pow(z, k) * z - 1)
            by (nonlinear_arith)
            requires
                (z - 1) * geometric_sum(z, k) == pow(z, k) - 1,
        ;
    }
}

/// A value of which some power is minus one lies at an invertible distance from one.
pub proof fn lemma_root_of_minus_one(z: int, m: nat)
    requires
        fpow(z, m) == modulus() - 1,
    ensures
        invertible(z - 1),
{
    let s = geometric_sum(z, m);
    let y = s * (-half());
    lemma_geometric_sum(z, m);
    lemma_fpow(z, z, m);
    lemma_minus_one();
    lemma_half();
    // z^m - 1 stands for -2, and -2 times minus a half is one
    lemma_cong_sub(pow(z, m), -1, 1, 1);
    lemma_cong_mul(pow(z, m) - 1, -2, -half(), -half());
    assert((-2) * (-half()) == 2 * half()) by (nonlinear_arith);
    assert((z - 1) * (s * (-half())) == ((z - 1) * s) * (-half())) by (nonlinear_arith);
    assert(is_inverse(z - 1, y));
}

/// No positive power of the generator below the size of the domain is one,
/// and more: each lies at an invertible distance from one.
pub proof fn lemma_power_minus_one_invertible(w: int, n: nat, d: nat)
    requires
        is_pow2(n as int),
        n >= 2,
        fpow(w, n / 2) == modulus() - 1,
        0 < d < n,
    ensures
        invertible(fpow(w, d) - 1),
    decreases n,
{
    reveal_with_fuel(is_pow2, 2);
    let h = n / 2;
    if d % 2 == 1 {
        lemma_fpow_multiplies(w, d, h);
        lemma_fpow_multiplies(w, h, d);
        assert(d * h == h * d) by (nonlinear_arith);
        lemma_minus_one_pow(d);
        lemma_root_of_minus_one(fpow(w, d), h);
    } else {
        let e = d / 2;
        assert(h == 2 * (h / 2));
        lemma_fpow_square(w, e);
        lemma_fpow_square(w, h / 2);
        lemma_power_minus_one_invertible(fmul(w, w), h, e);
    }
}

/// From the two halves of a split, the value at one point: with `e` standing
/// for `(a + b) / 2`, `o` for `(a - b) / 2 * u`, and `x * u` for `1` or `-1`,
/// `e + x * o` stands for `a` or for `b`.
proof fn lemma_butterfly(a: int, b: int, e: int, o: int, x: int, u: int, s: int)
    requires
        cong(e, (a + b) * half()),
        cong(o, ((a - b) * half()) * u),
        cong(x * u, s),
        s == 1 || s == -1,
    ensures
        cong(
            e + x * o,
            if s == 1 {
                a
            } else {
                b
            },
        ),
{
    let h = half();
    lemma_half();
    lemma_cong_mul(x, x, o, ((a - b) * h) * u);
    assert(x * (((a - b) * h) * u) == ((a - b) * h) * (x * u)) by (nonlinear_arith);
    lemma_cong_mul((a - b) * h, (a - b) * h, x * u, s);
    lemma_cong_add(e, (a + b) * h, x * o, ((a - b) * h) * s);
    if s == 1 {
        assert((a + b) * h + ((a - b) * h) * 1 == a * (2 * h)) by (nonlinear_arith);
        lemma_cong_mul(a, a, 2 * h, 1);
        assert(a * 1 == a);
    } else {
        assert((a + b) * h + ((a - b) * h) * (-1) == b * (2 * h)) by (nonlinear_arith);
        lemma_cong_mul(b, b, 2 * h, 1);
        assert(b * 1 == b);
    }
}

/// Interpolation is right: the polynomial with the coefficients
/// `interpolate(v, winv)` has as many coefficients as `v` has entries and
/// takes the value `v[i]` at the `i`-th power of `w`, where `w` generates the
/// domain of size `v.len()` and `winv` is its inverse.
pub proof fn lemma_interpolate_at(v: Seq<int>, w: int, winv: int, i: int)
    requires
        is_pow2(v.len() as int),
        all_canonical(v),
        fmul(w, winv) == 1,
        v.len() >= 2 ==> fpow(w, (v.len() / 2) as nat) == modulus() - 1,
        0 <= i < v.len(),
    ensures
        interpolate(v, winv).len() == v.len(),
        eval_mod(interpolate(v, winv), fpow(w, i as nat)) == v[i],
    decreases v.len(),
{
    broadcast use group_field_ranges;
    reveal_with_fuel(is_pow2, 2);
    let n = v.len() as int;
    let x = fpow(w, i as nat);
    if n < 2 {
        assert(v.skip(1).len() == 0);
        assert(eval(v.skip(1), x) == 0);
        assert(x * 0 == 0);
        vstd::arithmetic::div_mod::lemma_small_mod(v[0] as nat, modulus() as nat);
    } else {
        let h = n / 2;
        let k = if i < h {
            i
        } else {
            i - h
        };
        let w2 = fmul(w, w);
        let winv2 = fmul(winv, winv);
        let a = fold_sum(v);
        let b = fold_diff(v, winv);
        let ea = interpolate(a, winv2);
        let eb = interpolate(b, winv2);
        let xk = fpow(w, k as nat);
        let y = fpow(w2, k as nat);
        let u = fpow(winv, k as nat);
        let s: int = if i < h {
            1
        } else {
            -1
        };
        lemma_inverse_square(w, winv);
        if h >= 2 {
            assert(h == 2 * (h / 2));
            lemma_fpow_square(w, (h / 2) as nat);
        }
        lemma_interpolate_at(a, w2, winv2, k);
        lemma_interpolate_at(b, w2, winv2, k);
        // x stands for s * xk
        lemma_minus_one();
        if i < h {
            assert(s * xk == x);
        } else {
            lemma_fpow_adds(w, k as nat, h as nat);
            lemma_fmul(xk, xk, modulus() - 1, -1);
            assert(xk * (-1) == s * xk);
        }
        assert(cong(x, s * xk));
        // x * x stands for y
        lemma_cong_mul(x, s * xk, x, s * xk);
        assert((s * xk) * (s * xk) == xk * xk) by (nonlinear_arith)
            requires
                s == 1 || s == -1,
        ;
        lemma_fpow_square(w, k as nat);
        lemma_fpow_adds(w, k as nat, k as nat);
        lemma_fmul(xk, xk, xk, xk);
        assert(cong(x * x, y));
        // x * u stands for s
        lemma_inverse_power(w, winv, k as nat);
        lemma_fmul(xk, xk, u, u);
        lemma_cong_mul(x, s * xk, u, u);
        assert((s * xk) * u == s * (xk * u)) by (nonlinear_arith);
        lemma_cong_mul(s, s, xk * u, 1);
        assert(s * 1 == s);
        assert(cong(x * u, s));
        // the two halves at y
        let ex = eval(ea, x * x);
        let ox = eval(eb, x * x);
        lemma_eval_cong_point(ea, x * x, y);
        lemma_eval_cong_point(eb, x * x, y);
        lemma_cong_reduce(eval(ea, y));
        lemma_cong_reduce(eval(eb, y));
        let p = v[k];
        let q = v[k + h];
        lemma_fadd(p, p, q, q);
        lemma_fmul(fadd(p, q), p + q, half(), half());
        lemma_fsub(p, p, q, q);
        lemma_fmul(fsub(p, q), p - q, half(), half());
        lemma_fmul(fmul(fsub(p, q), half()), (p - q) * half(), u, u);
        vstd::arithmetic::div_mod::lemma_small_mod(a[k] as nat, modulus() as nat);
        vstd::arithmetic::div_mod::lemma_small_mod(b[k] as nat, modulus() as nat);
        assert(cong(ex, (p + q) * half()));
        assert(cong(ox, ((p - q) * half()) * u));
        lemma_butterfly(p, q, ex, ox, x, u, s);
        lemma_eval_interleave(ea, eb, x);
        assert(v[i] == if s == 1 {
            p
        } else {
            q
        });
        vstd::arithmetic::div_mod::lemma_small_mod(v[i] as nat, modulus() as nat);
    }
}

/// Interpolation keeps the length when it is a power of two.
pub proof fn lemma_interpolate_len(v: Seq<int>, winv: int)
    requires
        is_pow2(v.len() as int),
    ensures
        interpolate(v, winv).len() == v.len(),
    decreases v.len(),
{
    reveal(is_pow2);
    if v.len() >= 2 {
        lemma_interpolate_len(fold_sum(v), fmul(winv, winv));
        lemma_interpolate_len(fold_diff(v, winv), fmul(winv, winv));
    }
}

/// Folding by sums is linear.
proof fn lemma_fold_sum_linear(v: Seq<int>, d: int, u: Seq<int>)
    requires
        v.len() == u.len(),
    ensures
        fold_sum(axpy(v, d, u)) == axpy(fold_sum(v), d, fold_sum(u)),
{
    broadcast use group_field_ranges;
    let l = fold_sum(axpy(v, d, u));
    let r = axpy(fold_sum(v), d, fold_sum(u));
    let h = (v.len() / 2) as int;
    assert forall|i: int| 0 <= i < l.len() implies l[i] == r[i] by {
        let (a, b, x, y, c) = (v[i], v[i + h], u[i], u[i + h], half());
        lemma_fmul(d, d, x, x);
        lemma_fadd(a, a, fmul(d, x), d * x);
        lemma_fmul(d, d, y, y);
        lemma_fadd(b, b, fmul(d, y), d * y);
        lemma_fadd(fadd(a, fmul(d, x)), a + d * x, fadd(b, fmul(d, y)), b + d * y);
        lemma_fmul(
            fadd(axpy(v, d, u)[i], axpy(v, d, u)[i + h]),
            (a + d * x) + (b + d * y),
            c,
            c,
        );
        lemma_fadd(a, a, b, b);
        lemma_fmul(fadd(a, b), a + b, c, c);
        lemma_fadd(x, x, y, y);
        lemma_fmul(fadd(x, y), x + y, c, c);
        lemma_fmul(d, d, fold_sum(u)[i], (x + y) * c);
        lemma_fadd(fold_sum(v)[i], (a + b) * c, fmul(d, fold_sum(u)[i]), d * ((x + y) * c));
        assert(((a + d * x) + (b + d * y)) * c == (a + b) * c + d * ((x + y) * c))
            by (nonlinear_arith);
        lemma_cong_canonical(l[i], r[i]);
    }
    assert(l =~= r);
}

/// Folding by differences is linear.
proof fn lemma_fold_diff_linear(v: Seq<int>, d: int, u: Seq<int>, winv: int)
    requires
        v.len() == u.len(),
    ensures
        fold_diff(axpy(v, d, u), winv) == axpy(fold_diff(v, winv), d, fold_diff(u, winv)),
{
    broadcast use group_field_ranges;
    let l = fold_diff(axpy(v, d, u), winv);
    let r = axpy(fold_diff(v, winv), d, fold_diff(u, winv));
    let h = (v.len() / 2) as int;
    assert forall|i: int| 0 <= i < l.len() implies l[i] == r[i] by {
        let (a, b, x, y, c) = (v[i], v[i + h], u[i], u[i + h], half());
        let g = fpow(winv, i as nat);
        lemma_fmul(d, d, x, x);
        lemma_fadd(a, a, fmul(d, x), d * x);
        lemma_fmul(d, d, y, y);
        lemma_fadd(b, b, fmul(d, y), d * y);
        lemma_fsub(fadd(a, fmul(d, x)), a + d * x, fadd(b, fmul(d, y)), b + d * y);
        lemma_fmul(
            fsub(axpy(v, d, u)[i], axpy(v, d, u)[i + h]),
            (a + d * x) - (b + d * y),
            c,
            c,
        );
        lemma_fmul(
            fmul(fsub(axpy(v, d, u)[i], axpy(v, d, u)[i + h]), c),
            ((a + d * x) - (b + d * y)) * c,
            g,
            g,
        );
        lemma_fsub(a, a, b, b);
        lemma_fmul(fsub(a, b), a - b, c, c);
        lemma_fmul(fmul(fsub(a, b), c), (a - b) * c, g, g);
        lemma_fsub(x, x, y, y);
        lemma_fmul(fsub(x, y), x - y, c, c);
        lemma_fmul(fmul(fsub(x, y), c), (x - y) * c, g, g);
        lemma_fmul(d, d, fold_diff(u, winv)[i], ((x - y) * c) * g);
        lemma_fadd(
            fold_diff(v, winv)[i],
            ((a - b) * c) * g,
            fmul(d, fold_diff(u, winv)[i]),
            d * (((x - y) * c) * g),
        );
        assert((((a + d * x) - (b + d * y)) * c) * g == ((a - b) * c) * g + d * (((x - y) * c)
            * g)) by (nonlinear_arith);
        lemma_cong_canonical(l[i], r[i]);
    }
    assert(l =~= r);
}

/// Interpolation is linear in the values.
pub proof fn lemma_interpolate_linear(v: Seq<int>, d: int, u: Seq<int>, winv: int)
    requires
        v.len() == u.len(),
        is_pow2(v.len() as int),
    ensures
        interpolate(axpy(v, d, u), winv) == axpy(interpolate(v, winv), d, interpolate(u, winv)),
    decreases v.len(),
{
    reveal(is_pow2);
    if v.len() >= 2 {
        let w2 = fmul(winv, winv);
        lemma_fold_sum_linear(v, d, u);
        lemma_fold_diff_linear(v, d, u, winv);
        lemma_interpolate_linear(fold_sum(v), d, fold_sum(u), w2);
        lemma_interpolate_linear(fold_diff(v, winv), d, fold_diff(u, winv), w2);
        lemma_interpolate_len(fold_sum(v), w2);
        lemma_interpolate_len(fold_sum(u), w2);
        lemma_interpolate_len(fold_diff(v, winv), w2);
        lemma_interpolate_len(fold_diff(u, winv), w2);
        assert(interpolate(axpy(v, d, u), winv) =~= axpy(
            interpolate(v, winv),
            d,
            interpolate(u, winv),
        ));
    } else {
        assert(interpolate(axpy(v, d, u), winv) =~= axpy(
            interpolate(v, winv),
            d,
            interpolate(u, winv),
        ));
    }
}

/// The multiplicative domain of a given size in the scalar field of BLS12-381.
pub struct BLS12381Domain {
    size: usize,
    log_size: u32,
    generator: Scalar,
    generator_inv: Scalar,
    half: Scalar,
}

/// The vector `v` itself, one scalar copied after the other.
fn copy_all(v: &[Scalar]) -> (r: Vec<Scalar>)
    ensures
        r@ == v@,
{
    let mut r: Vec<Scalar> = Vec::new();
    let mut i: usize = 0;
    while i < v.len()
        invariant
            i <= v@.len(),
            r@ == v@.take(i as int),
        decreases v@.len() - i,
    {
        r.push(v[i]);
        i = i + 1;
        assert(r@ =~= v@.take(i as int));
    }
    assert(v@.take(v@.len() as int) =~= v@);
    r
}

/// The coefficients of the interpolating polynomial of `v`, by splitting
/// into the even and the odd part and interpolating each on the squared domain.
fn interpolate_values(v: &[Scalar], winv: &Scalar, one_half: &Scalar) -> (r: Vec<Scalar>)
    requires
        is_pow2(v@.len() as int),
        val(*one_half) == half(),
    ensures
        values(r@) == interpolate(values(v@), val(*winv)),
        r@.len() == v@.len(),
    decreases v@.len(),
{
    broadcast use group_field_ranges;
    let n = v.len();
    let ghost vals = values(v@);
    let ghost wv = val(*winv);
    if n < 2 {
        let r = copy_all(v);
        assert(values(r@) =~= vals);
        return r;
    }
    proof {
        reveal(is_pow2);
    }
    let h = n / 2;
    let mut sums: Vec<Scalar> = Vec::new();
    let mut diffs: Vec<Scalar> = Vec::new();
    let mut power = scalar_from_u128(1);
    let mut i: usize = 0;
    proof {
        lemma_fpow_zero(wv);
    }
    while i < h
        invariant
            n == v@.len(),
            h == n / 2,
            n == 2 * h,
            i <= h,
            vals == values(v@),
            wv == val(*winv),
            val(*one_half) == half(),
            sums@.len() == i,
            diffs@.len() == i,
            val(power) == fpow(wv, i as nat),
            forall|j: int| 0 <= j < i ==> val(#[trigger] sums@[j]) == fold_sum(vals)[j],
            forall|j: int| 0 <= j < i ==> val(#[trigger] diffs@[j]) == fold_diff(vals, wv)[j],
        decreases h - i,
    {
        let total = scalar_add(&v[i], &v[i + h]);
        let gap = scalar_sub(&v[i], &v[i + h]);
        let sum = scalar_mul(&total, one_half);
        let gap_half = scalar_mul(&gap, one_half);
        let diff = scalar_mul(&gap_half, &power);
        sums.push(sum);
        diffs.push(diff);
        proof {
            lemma_fpow_succ(wv, i as nat);
        }
        power = scalar_mul(&power, winv);
        i = i + 1;
    }
    let winv2 = scalar_mul(winv, winv);
    assert(values(sums@) =~= fold_sum(vals));
    assert(values(diffs@) =~= fold_diff(vals, wv));
    let even = interpolate_values(sums.as_slice(), &winv2, one_half);
    let odd = interpolate_values(diffs.as_slice(), &winv2, one_half);
    let mut r: Vec<Scalar> = Vec::new();
    let mut j: usize = 0;
    while j < h
        invariant
            j <= h,
            even@.len() == h,
            odd@.len() == h,
            r@.len() == 2 * j,
            forall|m: int| 0 <= m < j ==> #[trigger] r@[2 * m] == even@[m],
            forall|m: int| 0 <= m < j ==> #[trigger] r@[2 * m + 1] == odd@[m],
        decreases h - j,
    {
        r.push(even[j]);
        r.push(odd[j]);
        j = j + 1;
    }
    proof {
        let target = interleave(values(even@), values(odd@));
        assert(values(r@).len() == target.len());
        assert forall|m: int| 0 <= m < 2 * h implies values(r@)[m] == target[m] by {
            let half_m = m / 2;
            if m % 2 == 0 {
                assert(m == 2 * half_m);
                assert(r@[2 * half_m] == even@[half_m]);
            } else {
                assert(m == 2 * half_m + 1);
                assert(r@[2 * half_m + 1] == odd@[half_m]);
            }
        }
        assert(values(r@) =~= target);
    }
    r
}

impl BLS12381Domain {
    /// The number of points.
    pub closed spec fn len(&self) -> nat {
        self.size as nat
    }

    /// The field value of the generator.
    pub closed spec fn generator(&self) -> int {
        val(self.generator)
    }

    /// The field value of the inverse of the generator.
    pub closed spec fn generator_inv(&self) -> int {
        val(self.generator_inv)
    }

    /// The domain is what [`BLS12381Domain::new`] builds: its size is a
    /// supported one and its generator is the fixed root of unity raised to
    /// `2^32` over the size.
    pub closed spec fn wf(&self) -> bool {
        &&& self.log_size <= 32
        &&& self.size == pow2(self.log_size as nat)
        &&& val(self.generator) == fpow(root_of_unity(), pow2((32 - self.log_size) as nat))
        &&& val(self.generator_inv) == fpow(val(self.generator), (self.size - 1) as nat)
        &&& val(self.half) == half()
    }

    /// The `i`-th point: the `i`-th power of the generator.
    pub open spec fn point(&self, i: nat) -> int {
        fpow(self.generator(), i)
    }

    /// The coefficients of the polynomial that takes the values `v` on the points.
    pub open spec fn coefficients(&self, v: Seq<int>) -> Seq<int> {
        interpolate(v, self.generator_inv())
    }

    /// The size of a domain is supported; the generator times its inverse is
    /// one; and unless the size is one, the generator raised to half the size
    /// is `-1`, so that its order is the size.
    pub proof fn lemma_generator(&self)
        requires
            self.wf(),
        ensures
            supported_size(self.len() as int),
            fmul(self.generator(), self.generator_inv()) == 1,
            fpow(self.generator(), self.len()) == 1,
            self.len() >= 2 ==> fpow(self.generator(), self.len() / 2) == modulus() - 1,
    {
        broadcast use group_field_ranges;
        let k = self.log_size as nat;
        let n = self.size as nat;
        let w = val(self.generator);
        lemma2_to64();
        lemma_root_order();
        lemma_pow2(k);
        assert(is_pow2_exists(n as int));
        is_pow2_equiv(n as int);
        if k < 32 {
            lemma_pow2_strictly_increases(k, 32);
        }
        lemma_pow2_pos(k);
        // w raised to n
        lemma_fpow_multiplies(root_of_unity(), pow2((32 - k) as nat), n);
        lemma_pow2_adds((32 - k) as nat, k);
        assert(fpow(w, n) == 1);
        // w times its inverse
        lemma_val_canonical(self.generator);
        lemma_fpow_one(w);
        lemma_fpow_adds(w, 1, (n - 1) as nat);
        if n >= 2 {
            assert(k >= 1);
            lemma_pow2_unfold(k);
            lemma_fpow_multiplies(root_of_unity(), pow2((32 - k) as nat), n / 2);
            lemma_pow2_adds((32 - k) as nat, (k - 1) as nat);
        }
    }

    /// Interpolation on the domain is right: the polynomial with the
    /// coefficients `coefficients(v)` takes the value `v[i]` at the `i`-th point.
    pub proof fn lemma_coefficients(&self, v: Seq<int>, i: int)
        requires
            self.wf(),
            v.len() == self.len(),
            all_canonical(v),
            0 <= i < v.len(),
        ensures
            self.coefficients(v).len() == v.len(),
            eval_mod(self.coefficients(v), self.point(i as nat)) == v[i],
    {
        self.lemma_generator();
        lemma_interpolate_at(v, self.generator(), self.generator_inv(), i);
    }

    /// Different indices name different points.
    pub proof fn lemma_points_distinct(&self, i: nat, j: nat)
        requires
            self.wf(),
            i < j < self.len(),
        ensures
            self.point(i) != self.point(j),
    {
        broadcast use group_field_ranges;
        let w = self.generator();
        let a = fpow(w, i);
        let b = fpow(w, (j - i) as nat);
        let c = fpow(self.generator_inv(), i);
        self.lemma_generator();
        lemma_order_is_size(w, self.len(), (j - i) as nat);
        // else the power that lies between the two would be one
        assert_by_contradiction!(a != fpow(w, j), {
            lemma_fpow_adds(w, i, (j - i) as nat);
            lemma_inverse_power(w, self.generator_inv(), i);
            lemma_fmul(a, a, b, b);
            lemma_fmul(fmul(a, b), a * b, c, c);
            lemma_fmul(a, a, c, c);
            lemma_cong_mul(a * c, 1, b, b);
            assert((a * b) * c == (a * c) * b) by (nonlinear_arith);
            assert(1 * b == b);
            lemma_cong_canonical(b, 1);
        });
    }

    /// Different indices name points at an invertible distance.
    pub proof fn lemma_points_apart(&self, i: nat, j: nat)
        requires
            self.wf(),
            i < self.len(),
            j < self.len(),
            i != j,
        ensures
            invertible(self.point(i) - self.point(j)),
        decreases
                (if i > j {
                    0int
                } else {
                    1int
                }),
    {
        broadcast use group_field_ranges;
        let w = self.generator();
        let winv = self.generator_inv();
        self.lemma_generator();
        if i > j {
            let d = (i - j) as nat;
            let a = fpow(w, j);
            let z = fpow(w, d);
            // point(i) - point(j) stands for a * (z - 1), and a has an inverse
            lemma_power_minus_one_invertible(w, self.len(), d);
            lemma_inverse_power(w, winv, j);
            lemma_fmul(a, a, fpow(winv, j), fpow(winv, j));
            assert(is_inverse(a, fpow(winv, j)));
            lemma_invertible_product(a, z - 1);
            lemma_fpow_adds(w, j, d);
            lemma_fmul(a, a, z, z);
            lemma_cong_sub(a * z, fpow(w, i), a, a);
            assert(a * (z - 1) == a * z - a) by (nonlinear_arith);
            lemma_invertible_cong(a * (z - 1), fpow(w, i) - a);
        } else {
            self.lemma_points_apart(j, i);
            let g = self.point(j) - self.point(i);
            let u = choose|u: int| is_inverse(g, u);
            assert((-g) * (-u) == g * u) by (nonlinear_arith);
            assert(is_inverse(self.point(i) - self.point(j), -u));
        }
    }

    /// Interpolation on the domain is linear in the values.
    pub proof fn lemma_coefficients_linear(&self, v: Seq<int>, d: int, u: Seq<int>)
        requires
            self.wf(),
            v.len() == self.len(),
            u.len() == self.len(),
        ensures
            self.coefficients(axpy(v, d, u)) == axpy(
                self.coefficients(v),
                d,
                self.coefficients(u),
            ),
            self.coefficients(v).len() == self.len(),
            self.coefficients(u).len() == self.len(),
    {
        self.lemma_generator();
        lemma_interpolate_linear(v, d, u, self.generator_inv());
        lemma_interpolate_len(v, self.generator_inv());
        lemma_interpolate_len(u, self.generator_inv());
    }

    /// The domain of size `n`, for the sizes that are supported.
    pub fn new(n: usize) -> (r: Result<Self, KzgError>)
        ensures
            r is Ok <==> supported_size(n as int),
            r matches Ok(d) ==> d.wf() && d.len() == n,
            r matches Err(e) ==> e == KzgError::UnsupportedSize,
    {
        broadcast use group_field_ranges;
        let mut k: u32 = 0;
        let mut m: u64 = 1;
        proof {
            lemma2_to64();
        }
        while k < 32 && m < n as u64
            invariant
                k <= 32,
                m == pow2(k as nat),
                m <= 0x1_0000_0000,
                forall|j: nat| j < k ==> pow2(j) < n,
            decreases 32 - k,
        {
            proof {
                lemma2_to64();
                lemma_pow2_unfold((k + 1) as nat);
                if k + 1 < 32 {
                    lemma_pow2_strictly_increases((k + 1) as nat, 32);
                }
            }
            m = m * 2;
            k = k + 1;
        }
        if m != n as u64 {
            proof {
                // n lies strictly between two powers of two, or above the largest
                assert_by_contradiction!(!supported_size(n as int), {
                    is_pow2_equiv(n as int);
                    let e = choose|e: nat| vstd::arithmetic::power::pow(2, e) == n as int;
                    lemma_pow2(e);
                    if e > k {
                        lemma_pow2_strictly_increases(k as nat, e);
                    }
                });
            }
            return Err(KzgError::UnsupportedSize);
        }
        proof {
            lemma_pow2(k as nat);
            assert(is_pow2_exists(n as int));
            is_pow2_equiv(n as int);
        }
        let mut generator = scalar_from_halves(
            30087446053642431431408337269213893556,
            242202542640496261802865676211202231595,
        );
        let mut j: u32 = 0;
        proof {
            lemma_fpow_one(root_of_unity());
        }
        while j < 32 - k
            invariant
                k <= 32,
                j <= 32 - k,
                val(generator) == fpow(root_of_unity(), pow2(j as nat)),
            decreases 32 - k - j,
        {
            proof {
                lemma_pow2_unfold((j + 1) as nat);
                lemma_fpow_adds(root_of_unity(), pow2(j as nat), pow2(j as nat));
            }
            generator = scalar_mul(&generator, &generator);
            j = j + 1;
        }
        let generator_inv = scalar_pow(&generator, n - 1);
        let half = scalar_from_halves(
            77047593810979328214411077263450762242,
            225796480615103533170277924021053947905,
        );
        Ok(BLS12381Domain { size: n, log_size: k, generator, generator_inv, half })
    }

    /// The number of points.
    pub fn size(&self) -> (n: usize)
        ensures
            n == self.len(),
    {
        self.size
    }

    /// The `index`-th point of the domain; the points repeat with the size
    /// of the domain as their period.
    pub fn element(&self, index: usize) -> (r: Scalar)
        ensures
            val(r) == self.point(index as nat),
    {
        scalar_pow(&self.generator, index)
    }

    /// The coefficients of the polynomial of degree below the size that
    /// takes the values `v` on the points, lowest degree first.
    pub fn ifft(&self, v: &[Scalar]) -> (r: Vec<Scalar>)
        requires
            self.wf(),
            v@.len() == self.len(),
        ensures
            r@.len() == v@.len(),
            values(r@) == self.coefficients(values(v@)),
    {
        proof {
            self.lemma_generator();
        }
        interpolate_values(v, &self.generator_inv, &self.half)
    }
}

} // verus!
