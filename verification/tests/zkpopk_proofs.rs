use zk_mpc::error::MpcError;
use zk_mpc::plaintext::Plaintexts;
use zk_mpc::ring::Encodedtext;
use zk_mpc::rng::rng_from_seed;
use zk_mpc::she::{PublicKey, SecretKey};
use zk_mpc::zkpopk::{prove, verify, Instance, Parameters, Witness};
use zk_mpc::ciphertext::Ciphertext;

const Q: u128 = 83380292323641237751;

// a key pair over degree 10 with small (noise-like) secret components
fn small_keys(rng: &mut rand::rngs::StdRng) -> (SecretKey, PublicKey) {
    let s = Encodedtext::rand(10, Q, rng).modulo_p(7);
    let sk = SecretKey::new(s.clone());
    let a = Encodedtext::rand(10, Q, rng);
    let e = Encodedtext::rand(10, Q, rng).modulo_p(7);
    let b = a.mul(&s).add(&e.mul_scalar(41));
    (sk, PublicKey::new(a, b))
}

#[test]
fn test_proof() {
    let mut rng = rng_from_seed(10);
    let parameters = Parameters::new(
        7,  // 2*sec-1
        10, // degree
        2,
        4,
        30, // 3*N
        2,
        41,
        83380292323641237751,
    );

    let x: Vec<Encodedtext> = (0..4)
        .map(|_| Encodedtext::rand(10, Q, &mut rng).modulo_p(41))
        .collect();
    let r: Vec<Encodedtext> = (0..4).map(|_| Encodedtext::new(vec![0; 30], Q)).collect();

    let m: Vec<Plaintexts> = (0..7).map(|_| Plaintexts::from_vec(vec![0; 10], 41)).collect();
    let witness = Witness::new(m, &x, &r);

    let (_sk, pk) = small_keys(&mut rng);

    let c: Vec<Ciphertext> = x
        .iter()
        .zip(r.iter())
        .map(|(x_i, r_i)| Ciphertext::encrypt_core(x_i, &pk, r_i, 10, 41, Q))
        .collect();
    let instance = Instance::new(pk, c);

    let proof = prove(&parameters, &witness, &instance, &mut rng);

    verify(&proof, &parameters, &instance).unwrap();
}

#[test]
fn prove_verify_zero_witness() {
    // all-zero plaintexts, zero randomness
    let mut rng = rng_from_seed(5);
    let parameters = Parameters::new(7, 10, 2, 4, 30, 2, 41, 83380292323641237751);
    let x: Vec<Encodedtext> = (0..4).map(|_| Encodedtext::new(vec![0; 10], Q)).collect();
    let r: Vec<Encodedtext> = (0..4).map(|_| Encodedtext::new(vec![0; 30], Q)).collect();
    let m: Vec<Plaintexts> = (0..7).map(|_| Plaintexts::from_vec(vec![0; 10], 41)).collect();
    let witness = Witness::new(m, &x, &r);
    let (_sk, pk) = small_keys(&mut rng);
    let c: Vec<Ciphertext> = x
        .iter()
        .zip(r.iter())
        .map(|(x_i, r_i)| Ciphertext::encrypt_core(x_i, &pk, r_i, 10, 41, Q))
        .collect();
    let instance = Instance::new(pk, c);
    let proof = prove(&parameters, &witness, &instance, &mut rng);
    verify(&proof, &parameters, &instance).unwrap();
}

#[test]
fn tampered_proof_rejected() {
    // as prove_verify_zero_witness, then one coefficient of z[0] is bumped
    let mut rng = rng_from_seed(5);
    let parameters = Parameters::new(7, 10, 2, 4, 30, 2, 41, 83380292323641237751);
    let x: Vec<Encodedtext> = (0..4).map(|_| Encodedtext::new(vec![0; 10], Q)).collect();
    let r: Vec<Encodedtext> = (0..4).map(|_| Encodedtext::new(vec![0; 30], Q)).collect();
    let m: Vec<Plaintexts> = (0..7).map(|_| Plaintexts::from_vec(vec![0; 10], 41)).collect();
    let witness = Witness::new(m, &x, &r);
    let (_sk, pk) = small_keys(&mut rng);
    let c: Vec<Ciphertext> = x
        .iter()
        .zip(r.iter())
        .map(|(x_i, r_i)| Ciphertext::encrypt_core(x_i, &pk, r_i, 10, 41, Q))
        .collect();
    let instance = Instance::new(pk, c);
    let mut proof = prove(&parameters, &witness, &instance, &mut rng);

    // bump z[0]'s first coefficient by one
    let z0 = &proof.z[0];
    let mut vals: Vec<u128> = (0..z0.get_degree()).map(|i| z0.coeff_at(i)).collect();
    vals[0] = (vals[0] + 1) % Q;
    proof.z[0] = Encodedtext::new(vals, Q);

    let res = verify(&proof, &parameters, &instance);
    assert!(matches!(
        res,
        Err(MpcError::ProofMismatch { .. }) | Err(MpcError::NormBound { .. })
    ));
}

#[test]
fn tampered_commitment_rejected() {
    let mut rng = rng_from_seed(6);
    let parameters = Parameters::new(7, 10, 2, 4, 30, 2, 41, 83380292323641237751);
    let x: Vec<Encodedtext> = (0..4)
        .map(|_| Encodedtext::rand(10, Q, &mut rng).modulo_p(41))
        .collect();
    let r: Vec<Encodedtext> = (0..4).map(|_| Encodedtext::new(vec![0; 30], Q)).collect();
    let m: Vec<Plaintexts> = (0..7).map(|_| Plaintexts::from_vec(vec![0; 10], 41)).collect();
    let witness = Witness::new(m, &x, &r);
    let (_sk, pk) = small_keys(&mut rng);
    let c: Vec<Ciphertext> = x
        .iter()
        .zip(r.iter())
        .map(|(x_i, r_i)| Ciphertext::encrypt_core(x_i, &pk, r_i, 10, 41, Q))
        .collect();
    let instance = Instance::new(pk, c);
    let mut proof = prove(&parameters, &witness, &instance, &mut rng);

    // bump one coefficient of a[0]'s first component
    let a0 = &proof.a[0].c0;
    let mut vals: Vec<u128> = (0..a0.get_degree()).map(|i| a0.coeff_at(i)).collect();
    vals[3] = (vals[3] + 1) % Q;
    let c0 = Encodedtext::new(vals, Q);
    let c1 = proof.a[0].c1.clone();
    let c2 = proof.a[0].c2.clone();
    proof.a[0] = Ciphertext::new(c0, c1, c2);

    let res = verify(&proof, &parameters, &instance);
    assert!(matches!(
        res,
        Err(MpcError::ProofMismatch { .. }) | Err(MpcError::NormBound { .. })
    ));
}

#[test]
fn oversized_response_rejected() {
    // a proof whose z norm breaks the bound fails with a Z norm error
    let mut rng = rng_from_seed(9);
    let parameters = Parameters::new(7, 10, 2, 4, 30, 2, 41, 83380292323641237751);
    let x: Vec<Encodedtext> = (0..4).map(|_| Encodedtext::new(vec![0; 10], Q)).collect();
    let r: Vec<Encodedtext> = (0..4).map(|_| Encodedtext::new(vec![0; 30], Q)).collect();
    let m: Vec<Plaintexts> = (0..7).map(|_| Plaintexts::from_vec(vec![0; 10], 41)).collect();
    let witness = Witness::new(m, &x, &r);
    let (_sk, pk) = small_keys(&mut rng);
    let c: Vec<Ciphertext> = x
        .iter()
        .zip(r.iter())
        .map(|(x_i, r_i)| Ciphertext::encrypt_core(x_i, &pk, r_i, 10, 41, Q))
        .collect();
    let instance = Instance::new(pk, c);
    let mut proof = prove(&parameters, &witness, &instance, &mut rng);

    // replace z[2] with a huge-norm element and patch nothing else: either
    // the equation or the norm check must reject
    proof.z[2] = Encodedtext::new(vec![Q / 2; 10], Q);
    let res = verify(&proof, &parameters, &instance);
    assert!(res.is_err());
}

#[test]
fn challenge_depends_on_transcript() {
    // two different transcripts give different challenge matrices almost
    // surely; check on concrete data via the public hash
    let parameters = Parameters::new(31, 10, 2, 16, 30, 2, 41, 83380292323641237751);
    let mut rng = rng_from_seed(1);
    let (_sk, pk) = small_keys(&mut rng);
    let a1: Vec<Ciphertext> = (0..31).map(|_| Ciphertext::rand(10, Q, &mut rng)).collect();
    let a2: Vec<Ciphertext> = (0..31).map(|_| Ciphertext::rand(10, Q, &mut rng)).collect();
    let c: Vec<Ciphertext> = (0..16).map(|_| Ciphertext::rand(10, Q, &mut rng)).collect();
    let e1 = zk_mpc::zkpopk::hash(&a1, &c, &pk, &parameters);
    let e1_again = zk_mpc::zkpopk::hash(&a1, &c, &pk, &parameters);
    let e2 = zk_mpc::zkpopk::hash(&a2, &c, &pk, &parameters);
    assert_eq!(e1, e1_again);
    assert_eq!(e1.len(), 16);
    assert_ne!(e1, e2);
}

#[test]
fn dot_products_match_reference() {
    let row32: Vec<i32> = vec![1, 2, 3];
    let x32: Vec<i32> = vec![4, 5, 6];
    assert_eq!(zk_mpc::zkpopk::dot_product(&row32, &x32), 32);

    let q: u128 = 1_000_000_007;
    let row: Vec<i128> = vec![1, 0, 2];
    let xs: Vec<Encodedtext> = vec![
        Encodedtext::new(vec![1, 2], q),
        Encodedtext::new(vec![100, 200], q),
        Encodedtext::new(vec![3, 4], q),
    ];
    let dp = zk_mpc::zkpopk::dot_product2(&row, &xs);
    assert_eq!(dp.coeff_at(0), 7);
    assert_eq!(dp.coeff_at(1), 10);
}
