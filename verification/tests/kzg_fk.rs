use fastcrypto::groups::bls12381::Scalar;
use fastcrypto::groups::Scalar as OtherScalar;
use kzg::kzg_fk::KZGFK;
use rand::Rng;

#[test]
fn test_kzg_commit_open_verify() {
    let mut rng = rand::thread_rng();

    // Create a new KZGFK struct
    let n = 8;
    let kzg = KZGFK::new(n).unwrap();

    // Create a random vector v
    let v: Vec<Scalar> = (0..n).map(|_| OtherScalar::rand(&mut rng)).collect();

    println!("{:?}", v);

    // Create a commitment
    let commitment = kzg.commit(&v).unwrap();

    // Pick a random index to open
    let index = rng.gen_range(0..n);

    // Create an opening
    let open_value = kzg.open(&v, index).unwrap();

    // Verify the opening
    let is_valid = kzg.verify(index, &v[index], &commitment, &open_value);

    // Assert that the verification passes
    assert!(is_valid, "Verification of the opening should succeed.");
}
