use fastcrypto::groups::bls12381::Scalar;
use fastcrypto::groups::{GroupElement, Scalar as ScalarOps};
use fastcrypto::serde_helpers::ToFromByteArray;
use kzg::error::KzgError;
use kzg::fft::BLS12381Domain;
use kzg::poly::quotient_coefficients;
use kzg::scalar::{scalar_from_halves, scalar_pow};

fn small(values: &[u128]) -> Vec<Scalar> {
    values.iter().map(|x| Scalar::from(*x)).collect()
}

fn horner(coefficients: &[Scalar], x: Scalar) -> Scalar {
    let mut acc = Scalar::zero();
    for c in coefficients.iter().rev() {
        acc = acc * x + *c;
    }
    acc
}

fn minus_one() -> Scalar {
    Scalar::zero() - Scalar::generator()
}

#[test]
fn domain_sizes() {
    for n in [1usize, 2, 4, 8, 1024, 1 << 20] {
        let domain = BLS12381Domain::new(n).unwrap();
        assert_eq!(domain.size(), n);
    }
    for n in [0usize, 3, 5, 6, 7, 12, 1000, (1 << 20) + 1] {
        assert!(matches!(BLS12381Domain::new(n), Err(KzgError::UnsupportedSize)));
    }
}

#[test]
fn largest_domain_size() {
    if usize::BITS >= 64 {
        let top = 1usize << 32;
        assert_eq!(BLS12381Domain::new(top).unwrap().size(), top);
        assert!(matches!(BLS12381Domain::new(top << 1), Err(KzgError::UnsupportedSize)));
        assert!(matches!(BLS12381Domain::new(top + 1), Err(KzgError::UnsupportedSize)));
    }
    assert!(matches!(BLS12381Domain::new(usize::MAX), Err(KzgError::UnsupportedSize)));
}

#[test]
fn generator_of_the_largest_domain_is_the_fixed_root() {
    if usize::BITS >= 64 {
        let domain = BLS12381Domain::new(1usize << 32).unwrap();
        let bytes = domain.element(1).to_byte_array();
        let expected: [u8; 32] = [
            0x16, 0xa2, 0xa1, 0x9e, 0xdf, 0xe8, 0x1f, 0x20, 0xd0, 0x9b, 0x68, 0x19, 0x22, 0xc8,
            0x13, 0xb4, 0xb6, 0x36, 0x83, 0x50, 0x8c, 0x22, 0x80, 0xb9, 0x38, 0x29, 0x97, 0x1f,
            0x43, 0x9f, 0x0d, 0x2b,
        ];
        assert_eq!(bytes, expected);
    }
}

#[test]
fn points_are_the_roots_of_unity() {
    for n in [2usize, 4, 8, 64] {
        let domain = BLS12381Domain::new(n).unwrap();
        assert_eq!(domain.element(0), Scalar::generator());
        assert_eq!(domain.element(n), Scalar::generator());
        assert_eq!(domain.element(n / 2), minus_one());
        let w = domain.element(1);
        let mut power = Scalar::generator();
        for i in 0..n {
            assert_eq!(domain.element(i), power);
            assert_eq!(domain.element(i + n), power);
            if i > 0 {
                assert_ne!(power, Scalar::generator());
            }
            power = power * w;
        }
    }
}

#[test]
fn points_are_distinct() {
    for n in [2usize, 4, 16] {
        let domain = BLS12381Domain::new(n).unwrap();
        for i in 0..n {
            for j in (i + 1)..n {
                assert_ne!(domain.element(i), domain.element(j));
            }
        }
    }
}

#[test]
fn domain_of_size_one_is_the_point_one() {
    let domain = BLS12381Domain::new(1).unwrap();
    assert_eq!(domain.size(), 1);
    assert_eq!(domain.element(0), Scalar::generator());
    assert_eq!(domain.element(5), Scalar::generator());
}

#[test]
fn domain_of_size_two_is_plus_and_minus_one() {
    let domain = BLS12381Domain::new(2).unwrap();
    assert_eq!(domain.element(0), Scalar::generator());
    assert_eq!(domain.element(1), minus_one());
}

#[test]
fn domain_of_size_four_squares_to_minus_one() {
    let domain = BLS12381Domain::new(4).unwrap();
    let i = domain.element(1);
    assert_eq!(i * i, minus_one());
    assert_eq!(domain.element(3), Scalar::zero() - i);
}

#[test]
fn ifft_of_size_one_is_the_value() {
    let domain = BLS12381Domain::new(1).unwrap();
    let v = small(&[42]);
    assert_eq!(domain.ifft(&v), v);
}

#[test]
fn ifft_of_size_two() {
    let domain = BLS12381Domain::new(2).unwrap();
    // p(1) = 7, p(-1) = 3: p = 5 + 2 X
    assert_eq!(domain.ifft(&small(&[7, 3])), small(&[5, 2]));
}

#[test]
fn ifft_of_a_constant_vector() {
    let domain = BLS12381Domain::new(8).unwrap();
    assert_eq!(
        domain.ifft(&small(&[9, 9, 9, 9, 9, 9, 9, 9])),
        small(&[9, 0, 0, 0, 0, 0, 0, 0])
    );
}

#[test]
fn ifft_recovers_known_coefficients() {
    let n = 4;
    let domain = BLS12381Domain::new(n).unwrap();
    let coefficients = small(&[1, 2, 3, 4]);
    let values: Vec<Scalar> = (0..n).map(|i| horner(&coefficients, domain.element(i))).collect();
    assert_eq!(domain.ifft(&values), coefficients);
}

#[test]
fn ifft_interpolates() {
    let mut rng = rand::thread_rng();
    for n in [1usize, 2, 4, 8, 32] {
        let domain = BLS12381Domain::new(n).unwrap();
        let v: Vec<Scalar> = (0..n).map(|_| Scalar::rand(&mut rng)).collect();
        let coefficients = domain.ifft(&v);
        assert_eq!(coefficients.len(), n);
        for i in 0..n {
            assert_eq!(horner(&coefficients, domain.element(i)), v[i]);
        }
    }
}

#[test]
fn quotient_of_one_two_three_four() {
    // p = 1 + 2 X + 3 X^2 + 4 X^3, z = 2, p(z) = 49
    // p - 49 = (X - 2) (24 + 11 X + 4 X^2)
    let p = small(&[1, 2, 3, 4]);
    let z = Scalar::from(2u128);
    assert_eq!(horner(&p, z), Scalar::from(49u128));
    assert_eq!(quotient_coefficients(&p, &z), small(&[24, 11, 4]));
}

#[test]
fn quotient_matches_long_division() {
    let domain = BLS12381Domain::new(4).unwrap();
    let p = small(&[1, 2, 3, 4]);
    for index in 0..4 {
        let z = domain.element(index);
        let q = quotient_coefficients(&p, &z);
        assert_eq!(q.len(), 3);

        // long division of p - p(z) by X - z, leading term first
        let mut rest = p.clone();
        rest[0] = rest[0] - horner(&p, z);
        let mut expected = vec![Scalar::zero(); 3];
        for k in (1..4).rev() {
            expected[k - 1] = rest[k];
            rest[k - 1] = rest[k - 1] + z * rest[k];
        }
        assert_eq!(rest[0], Scalar::zero());
        assert_eq!(q, expected);

        // and back: q * (X - z) + p(z) = p
        let mut product = vec![Scalar::zero(); 4];
        for j in 0..3 {
            product[j + 1] = product[j + 1] + q[j];
            product[j] = product[j] - z * q[j];
        }
        product[0] = product[0] + horner(&p, z);
        assert_eq!(product, p);
    }
}

#[test]
fn quotient_at_zero_drops_the_constant_term() {
    let p = small(&[5, 6, 7]);
    assert_eq!(quotient_coefficients(&p, &Scalar::zero()), small(&[6, 7]));
}

#[test]
fn quotient_of_short_polynomials_is_empty() {
    let z = Scalar::from(3u128);
    assert!(quotient_coefficients(&[], &z).is_empty());
    assert!(quotient_coefficients(&small(&[8]), &z).is_empty());
    assert_eq!(quotient_coefficients(&small(&[8, 9]), &z), small(&[9]));
}

#[test]
fn powers_of_scalars() {
    let three = Scalar::from(3u128);
    assert_eq!(scalar_pow(&three, 0), Scalar::generator());
    assert_eq!(scalar_pow(&three, 1), three);
    assert_eq!(scalar_pow(&three, 2), Scalar::from(9u128));
    assert_eq!(scalar_pow(&three, 5), Scalar::from(243u128));
    assert_eq!(scalar_pow(&three, 40), Scalar::from(12157665459056928801u128));
    assert_eq!(scalar_pow(&Scalar::zero(), 0), Scalar::generator());
    assert_eq!(scalar_pow(&Scalar::zero(), 3), Scalar::zero());
    assert_eq!(scalar_pow(&minus_one(), 7), minus_one());
    assert_eq!(scalar_pow(&minus_one(), 8), Scalar::generator());
}

#[test]
fn powers_compose() {
    let x = Scalar::from(7u128);
    assert_eq!(scalar_pow(&x, 1 << 20), scalar_pow(&scalar_pow(&x, 1 << 10), 1 << 10));
    assert_eq!(scalar_pow(&x, 12), scalar_pow(&x, 5) * scalar_pow(&x, 7));
    assert_eq!(scalar_pow(&x, usize::MAX) * x, scalar_pow(&scalar_pow(&x, 2), 1 << (usize::BITS - 1)));
}

#[test]
fn scalars_from_halves() {
    assert_eq!(scalar_from_halves(0, 0), Scalar::zero());
    assert_eq!(scalar_from_halves(0, 5), Scalar::from(5u128));
    assert_eq!(scalar_from_halves(0, u128::MAX), Scalar::from(u128::MAX));
    let two_64 = Scalar::from(1u128 << 64);
    assert_eq!(scalar_from_halves(1, 0), two_64 * two_64);
    assert_eq!(
        scalar_from_halves(3, 4),
        two_64 * two_64 * Scalar::from(3u128) + Scalar::from(4u128)
    );
    // r itself is zero in the field, r + 1 is one
    let r_hi = 0x73eda753299d7d483339d80809a1d805u128;
    let r_lo = 0x53bda402fffe5bfeffffffff00000001u128;
    assert_eq!(scalar_from_halves(r_hi, r_lo), Scalar::zero());
    assert_eq!(scalar_from_halves(r_hi, r_lo + 1), Scalar::generator());
    assert_eq!(scalar_from_halves(r_hi, r_lo - 1), minus_one());
    // the largest input reduces too
    let top = scalar_from_halves(u128::MAX, u128::MAX);
    assert_eq!(top + Scalar::generator(), scalar_pow(&Scalar::from(2u128), 256));
}
