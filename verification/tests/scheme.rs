use fastcrypto::groups::bls12381::{G1Element, Scalar};
use fastcrypto::groups::{GroupElement, Scalar as ScalarOps};
use kzg::error::KzgError;
use kzg::fft::BLS12381Domain;
use kzg::kzg_fk::KZGFK;

fn sample(n: usize) -> Vec<Scalar> {
    let mut rng = rand::thread_rng();
    (0..n).map(|_| Scalar::rand(&mut rng)).collect()
}

fn small(values: &[u128]) -> Vec<Scalar> {
    values.iter().map(|x| Scalar::from(*x)).collect()
}

#[test]
fn every_index_of_every_small_size_round_trips() {
    for n in [2usize, 4, 8, 16] {
        let kzg = KZGFK::new(n).unwrap();
        assert_eq!(kzg.size(), n);
        let v = sample(n);
        let commitment = kzg.commit(&v).unwrap();
        for index in 0..n {
            let proof = kzg.open(&v, index).unwrap();
            assert!(kzg.verify(index, &v[index], &commitment, &proof));
        }
    }
}

#[test]
fn constant_vector_round_trips() {
    let kzg = KZGFK::new(4).unwrap();
    let v = small(&[7, 7, 7, 7]);
    let commitment = kzg.commit(&v).unwrap();
    assert_eq!(commitment, G1Element::generator() * Scalar::from(7u128));
    for index in 0..4 {
        let proof = kzg.open(&v, index).unwrap();
        assert_eq!(proof, G1Element::zero());
        assert!(kzg.verify(index, &v[index], &commitment, &proof));
    }
}

#[test]
fn zero_vector_commits_to_the_identity() {
    let kzg = KZGFK::new(8).unwrap();
    let v = small(&[0, 0, 0, 0, 0, 0, 0, 0]);
    assert_eq!(kzg.commit(&v).unwrap(), G1Element::zero());
}

#[test]
fn scenario_of_eight_entries_and_index_three() {
    let n = 8;
    let kzg = KZGFK::new(n).unwrap();
    let mut v = sample(n);
    let commitment = kzg.commit(&v).unwrap();
    let index = 3;
    let proof = kzg.open(&v, index).unwrap();
    assert!(kzg.verify(index, &v[index], &commitment, &proof));

    let genuine = v[index];
    let mut flipped = sample(1)[0];
    if flipped == genuine {
        flipped = genuine + Scalar::generator();
    }
    v[index] = flipped;
    assert!(!kzg.verify(index, &v[index], &commitment, &proof));
}

#[test]
fn wrong_value_is_rejected() {
    let kzg = KZGFK::new(4).unwrap();
    let v = small(&[10, 20, 30, 40]);
    let commitment = kzg.commit(&v).unwrap();
    let proof = kzg.open(&v, 1).unwrap();
    assert!(kzg.verify(1, &Scalar::from(20u128), &commitment, &proof));
    assert!(!kzg.verify(1, &Scalar::from(21u128), &commitment, &proof));
    assert!(!kzg.verify(1, &Scalar::zero(), &commitment, &proof));
}

#[test]
fn wrong_index_is_rejected() {
    let kzg = KZGFK::new(4).unwrap();
    let v = small(&[10, 20, 30, 40]);
    let commitment = kzg.commit(&v).unwrap();
    let proof = kzg.open(&v, 1).unwrap();
    assert!(!kzg.verify(0, &v[1], &commitment, &proof));
    assert!(!kzg.verify(2, &v[1], &commitment, &proof));
    assert!(!kzg.verify(3, &v[1], &commitment, &proof));
}

#[test]
fn wrong_commitment_is_rejected() {
    let kzg = KZGFK::new(4).unwrap();
    let v = small(&[10, 20, 30, 40]);
    let w = small(&[10, 20, 30, 41]);
    let commitment = kzg.commit(&v).unwrap();
    let other = kzg.commit(&w).unwrap();
    assert_ne!(commitment, other);
    let proof = kzg.open(&v, 1).unwrap();
    assert!(!kzg.verify(1, &v[1], &other, &proof));
    assert!(!kzg.verify(1, &v[1], &(commitment + G1Element::generator()), &proof));
}

#[test]
fn wrong_proof_is_rejected() {
    let kzg = KZGFK::new(4).unwrap();
    let v = small(&[10, 20, 30, 40]);
    let commitment = kzg.commit(&v).unwrap();
    let proof = kzg.open(&v, 1).unwrap();
    let other = kzg.open(&v, 2).unwrap();
    assert_ne!(proof, other);
    assert!(!kzg.verify(1, &v[1], &commitment, &other));
    assert!(!kzg.verify(1, &v[1], &commitment, &(proof + G1Element::generator())));
    assert!(!kzg.verify(1, &v[1], &commitment, &G1Element::zero()));
}

#[test]
fn commit_and_open_are_functions_of_their_inputs() {
    let kzg = KZGFK::new(8).unwrap();
    let v = sample(8);
    let copy = v.clone();
    assert_eq!(kzg.commit(&v).unwrap(), kzg.commit(&copy).unwrap());
    for index in 0..8 {
        assert_eq!(kzg.open(&v, index).unwrap(), kzg.open(&copy, index).unwrap());
    }
}

#[test]
fn commitments_add_up() {
    let kzg = KZGFK::new(4).unwrap();
    let a = small(&[1, 2, 3, 4]);
    let b = small(&[5, 0, 7, 9]);
    let sum = small(&[6, 2, 10, 13]);
    assert_eq!(
        kzg.commit(&a).unwrap() + kzg.commit(&b).unwrap(),
        kzg.commit(&sum).unwrap()
    );
}

#[test]
fn open_one_past_the_end_is_refused() {
    let n = 8;
    let kzg = KZGFK::new(n).unwrap();
    let v = sample(n);
    assert_eq!(kzg.open(&v, n), Err(KzgError::IndexOutOfRange));
    assert_eq!(kzg.open(&v, n + 5), Err(KzgError::IndexOutOfRange));
    assert_eq!(kzg.open(&v, usize::MAX), Err(KzgError::IndexOutOfRange));
    assert!(kzg.open(&v, n - 1).is_ok());
}

#[test]
fn verify_refuses_an_index_past_the_end() {
    let n = 4;
    let kzg = KZGFK::new(n).unwrap();
    let v = sample(n);
    let commitment = kzg.commit(&v).unwrap();
    let proof = kzg.open(&v, 1).unwrap();
    assert!(kzg.verify(1, &v[1], &commitment, &proof));
    // the domain points repeat with period n, the indices do not
    assert!(!kzg.verify(1 + n, &v[1], &commitment, &proof));
    assert!(!kzg.verify(n, &v[0], &commitment, &kzg.open(&v, 0).unwrap()));
}

#[test]
fn vectors_of_the_wrong_length_are_refused() {
    let kzg = KZGFK::new(4).unwrap();
    assert_eq!(kzg.commit(&sample(3)), Err(KzgError::LengthMismatch));
    assert_eq!(kzg.commit(&sample(5)), Err(KzgError::LengthMismatch));
    assert_eq!(kzg.commit(&sample(0)), Err(KzgError::LengthMismatch));
    assert_eq!(kzg.commit(&sample(8)), Err(KzgError::LengthMismatch));
    assert_eq!(kzg.open(&sample(3), 0), Err(KzgError::LengthMismatch));
    assert_eq!(kzg.open(&sample(5), 1), Err(KzgError::LengthMismatch));
    // the length is looked at before the index
    assert_eq!(kzg.open(&sample(5), 9), Err(KzgError::LengthMismatch));
}

#[test]
fn setup_refuses_what_the_domain_refuses() {
    for n in [0usize, 3, 5, 6, 7, 9, 12, 100, 1023] {
        assert!(matches!(KZGFK::new(n), Err(KzgError::UnsupportedSize)));
        assert!(matches!(BLS12381Domain::new(n), Err(KzgError::UnsupportedSize)));
        assert!(matches!(
            KZGFK::from_secret(n, &Scalar::from(5u128)),
            Err(KzgError::UnsupportedSize)
        ));
    }
    for n in [1usize, 2, 4, 32] {
        assert_eq!(KZGFK::new(n).unwrap().size(), n);
        assert_eq!(BLS12381Domain::new(n).unwrap().size(), n);
        assert_eq!(KZGFK::from_secret(n, &Scalar::from(5u128)).unwrap().size(), n);
    }
}

#[test]
fn setup_of_size_one_commits_and_opens_nothing() {
    let kzg = KZGFK::new(1).unwrap();
    assert_eq!(kzg.size(), 1);
    let v = small(&[9]);
    let commitment = kzg.commit(&v).unwrap();
    assert_eq!(commitment, G1Element::generator() * Scalar::from(9u128));
    assert_eq!(kzg.open(&v, 0), Err(KzgError::DegenerateDomain));
    assert_eq!(kzg.open(&v, 1), Err(KzgError::IndexOutOfRange));
    assert_eq!(kzg.open(&small(&[9, 9]), 0), Err(KzgError::LengthMismatch));
    assert!(!kzg.verify(0, &v[0], &commitment, &G1Element::zero()));
    assert!(!kzg.verify(1, &v[0], &commitment, &G1Element::zero()));
}

#[test]
fn updates_on_the_domain_of_size_one() {
    let kzg = KZGFK::new(1).unwrap();
    let mut commitment = kzg.commit(&small(&[9])).unwrap();
    let updated = kzg
        .update(&mut commitment, 0, &Scalar::from(9u128), &Scalar::from(4u128))
        .unwrap();
    assert_eq!(updated, kzg.commit(&small(&[4])).unwrap());
    assert_eq!(commitment, updated);

    let mut proof = G1Element::generator();
    assert_eq!(
        kzg.update_open_i(&mut proof, 0, &Scalar::from(9u128), &Scalar::from(4u128)),
        Err(KzgError::DegenerateDomain)
    );
    assert_eq!(
        kzg.update_open_i(&mut proof, 1, &Scalar::from(9u128), &Scalar::from(4u128)),
        Err(KzgError::IndexOutOfRange)
    );
    assert_eq!(proof, G1Element::generator());
}

#[test]
fn setup_with_a_known_secret_of_size_two() {
    // the points are 1 and -1; [7, 3] is 5 + 2 X, and tau is 5
    let tau = Scalar::from(5u128);
    let kzg = KZGFK::from_secret(2, &tau).unwrap();
    let v = small(&[7, 3]);
    let g = G1Element::generator();
    let commitment = kzg.commit(&v).unwrap();
    assert_eq!(commitment, g * Scalar::from(15u128));
    // the quotient by X - 1 and by X + 1 is the constant 2
    for index in 0..2 {
        let proof = kzg.open(&v, index).unwrap();
        assert_eq!(proof, g * Scalar::from(2u128));
        assert!(kzg.verify(index, &v[index], &commitment, &proof));
    }
}

#[test]
fn setup_with_a_known_secret_of_size_four() {
    // the points are 1, i, -1, -i; [5, 1, 5, 1] is 3 + 2 X^2, and tau is 10
    let tau = Scalar::from(10u128);
    let kzg = KZGFK::from_secret(4, &tau).unwrap();
    let v = small(&[5, 1, 5, 1]);
    let g = G1Element::generator();
    let commitment = kzg.commit(&v).unwrap();
    assert_eq!(commitment, g * Scalar::from(203u128));
    // at index 2 the point is -1 and the quotient is 2 (X - 1)
    let proof = kzg.open(&v, 2).unwrap();
    assert_eq!(proof, g * Scalar::from(18u128));
    assert!(kzg.verify(2, &v[2], &commitment, &proof));
    // at index 0 the point is 1 and the quotient is 2 (X + 1)
    let proof = kzg.open(&v, 0).unwrap();
    assert_eq!(proof, g * Scalar::from(22u128));
    assert!(kzg.verify(0, &v[0], &commitment, &proof));
}

#[test]
fn the_same_secret_gives_the_same_parameters() {
    let tau = Scalar::from(123456789u128);
    let a = KZGFK::from_secret(8, &tau).unwrap();
    let b = KZGFK::from_secret(8, &tau).unwrap();
    let c = KZGFK::from_secret(8, &Scalar::from(123456788u128)).unwrap();
    let v = sample(8);
    assert_eq!(a.commit(&v).unwrap(), b.commit(&v).unwrap());
    assert_ne!(a.commit(&v).unwrap(), c.commit(&v).unwrap());
    // an opening made under one is accepted under the other
    let proof = a.open(&v, 5).unwrap();
    assert!(b.verify(5, &v[5], &b.commit(&v).unwrap(), &proof));
    assert!(!c.verify(5, &v[5], &c.commit(&v).unwrap(), &proof));
}

#[test]
fn whoever_knows_the_secret_can_forge() {
    // with tau known, c - y' * g = pi' * (tau - z) can be solved for pi'
    let tau = Scalar::from(77u128);
    let kzg = KZGFK::from_secret(4, &tau).unwrap();
    let v = small(&[10, 20, 30, 40]);
    let commitment = kzg.commit(&v).unwrap();
    let domain = BLS12381Domain::new(4).unwrap();
    let z = domain.element(1);
    let lie = Scalar::from(21u128);
    let forged = ((commitment - G1Element::generator() * lie) / (tau - z)).unwrap();
    assert!(kzg.verify(1, &lie, &commitment, &forged));
}

#[test]
fn two_setups_differ() {
    let a = KZGFK::new(2).unwrap();
    let b = KZGFK::new(2).unwrap();
    let v = small(&[1, 2]);
    assert_ne!(a.commit(&v).unwrap(), b.commit(&v).unwrap());
}

#[test]
fn update_gives_the_commitment_to_the_changed_vector() {
    let n = 8;
    let kzg = KZGFK::new(n).unwrap();
    let v = sample(n);
    for index in [0usize, 3, 7] {
        let mut w = v.clone();
        w[index] = sample(1)[0];
        let mut commitment = kzg.commit(&v).unwrap();
        let updated = kzg.update(&mut commitment, index, &v[index], &w[index]).unwrap();
        assert_eq!(updated, kzg.commit(&w).unwrap());
        assert_eq!(commitment, updated);
    }
}

#[test]
fn update_with_small_values() {
    let kzg = KZGFK::new(4).unwrap();
    let v = small(&[10, 20, 30, 40]);
    let w = small(&[10, 20, 5, 40]);
    let mut commitment = kzg.commit(&v).unwrap();
    let before = commitment;
    let updated = kzg
        .update(&mut commitment, 2, &Scalar::from(30u128), &Scalar::from(5u128))
        .unwrap();
    assert_ne!(updated, before);
    assert_eq!(updated, kzg.commit(&w).unwrap());
}

#[test]
fn update_to_the_same_value_changes_nothing() {
    let kzg = KZGFK::new(4).unwrap();
    let v = sample(4);
    let mut commitment = kzg.commit(&v).unwrap();
    let before = commitment;
    let updated = kzg.update(&mut commitment, 1, &v[1], &v[1]).unwrap();
    assert_eq!(updated, before);
    assert_eq!(commitment, before);
}

#[test]
fn update_refuses_an_index_past_the_end() {
    let kzg = KZGFK::new(4).unwrap();
    let v = sample(4);
    let mut commitment = kzg.commit(&v).unwrap();
    let before = commitment;
    assert_eq!(
        kzg.update(&mut commitment, 4, &v[0], &v[1]),
        Err(KzgError::IndexOutOfRange)
    );
    assert_eq!(commitment, before);
}

#[test]
fn update_open_i_gives_the_opening_of_the_changed_vector() {
    let n = 8;
    let kzg = KZGFK::new(n).unwrap();
    let v = sample(n);
    for index in [0usize, 2, 7] {
        let mut w = v.clone();
        w[index] = sample(1)[0];
        let mut proof = kzg.open(&v, index).unwrap();
        let updated = kzg.update_open_i(&mut proof, index, &v[index], &w[index]).unwrap();
        assert_eq!(updated, kzg.open(&w, index).unwrap());
        assert_eq!(proof, updated);

        let mut commitment = kzg.commit(&v).unwrap();
        kzg.update(&mut commitment, index, &v[index], &w[index]).unwrap();
        assert!(kzg.verify(index, &w[index], &commitment, &proof));
        assert!(!kzg.verify(index, &v[index], &commitment, &proof));
    }
}

#[test]
fn update_open_i_refuses_an_index_past_the_end() {
    let kzg = KZGFK::new(4).unwrap();
    let v = sample(4);
    let mut proof = kzg.open(&v, 0).unwrap();
    let before = proof;
    assert_eq!(
        kzg.update_open_i(&mut proof, 7, &v[0], &v[1]),
        Err(KzgError::IndexOutOfRange)
    );
    assert_eq!(proof, before);
}
