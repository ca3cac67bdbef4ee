use zk_mpc::arith::pow_mod;
use zk_mpc::ciphertext::Ciphertext;
use zk_mpc::plaintext::Plaintexts;
use zk_mpc::ring::Encodedtext;
use zk_mpc::rng::rng_from_seed;
use zk_mpc::she::{cyclotomic_moduli, get_gaussian, SecretKey, SHEParameters};

// a 127-bit-safe stand-in for a large coefficient modulus: 2^89 - 1 (prime)
const BIG_Q: u128 = 618970019642690137449562111;

fn is_power_of_two(n: usize) -> bool {
    n != 0 && (n & (n - 1)) == 0
}

#[test]
fn test_cyclotomic_moduli() {
    // Set the parameters for this instantiation of BV11
    let std_dev = 3; // Standard deviation for generating the error
    let s = 64;
    let p: u128 = 7681; // 7681 = 1 (mod 128)
    let q: u128 = BIG_Q;
    let degree = s;

    let she_params = SHEParameters::new(s, degree, p, q, std_dev).unwrap();

    let res = cyclotomic_moduli(&she_params, she_params.get_n());

    for v in res {
        assert_eq!(1, pow_mod(v, (s * 2) as u64, p));
    }
    println!("hello");
}

#[test]
fn test() {
    let mut rng = rng_from_seed(7);

    // // Set the parameters for this instantiation of BV11
    let std_dev = 3; // Standard deviation for generating the error
    let s = 64; // must be 2^k for 0 <= k <= 46
    assert!(is_power_of_two(s));
    assert!(s as u64 <= 2_u64.pow(46));
    let p: u128 = 7681;
    let q: u128 = BIG_Q;
    let degree = s; // degree = length = N

    let she_params = SHEParameters::new(s, degree, p, q, std_dev).unwrap();

    // // Generate secret, public keys using the given parameters
    let secret_key = SecretKey::generate(&she_params, &mut rng);
    let public_key = secret_key.public_key_gen(&she_params, &mut rng);

    let pt = Plaintexts::rand(&she_params, &mut rng);
    let pt_2 = Plaintexts::rand(&she_params, &mut rng);
    let pt_3 = Plaintexts::rand(&she_params, &mut rng);

    let et = pt.encode(&she_params);
    let et_2 = pt_2.encode(&she_params);
    let et_3 = pt_3.encode(&she_params);

    let r = get_gaussian(&she_params, degree * 3, &mut rng);
    let r_2 = get_gaussian(&she_params, degree * 3, &mut rng);
    let r_3 = get_gaussian(&she_params, degree * 3, &mut rng);

    let ct = Ciphertext::encrypt_from(&et, &public_key, &r, &she_params);
    let ct_2 = Ciphertext::encrypt_from(&et_2, &public_key, &r_2, &she_params);
    let ct_3 = Ciphertext::encrypt_from(&et_3, &public_key, &r_3, &she_params);

    // Plain -> Encoded  -> Plain, uni text
    let dect = et.decode(&she_params);

    assert!(pt.equals(&dect));

    // Plain -> Encoded -> Cipher -> Encoded -> Plain, uni text
    let dect = ct.decrypt(&secret_key, &she_params).unwrap();
    let decrypted_decoded_ct = dect.decode(&she_params);

    assert!(pt.equals(&decrypted_decoded_ct));

    // Plain -> Encoded -> Cipher -> Encoded -> Plain, sum of 2 texts
    let expr_ct = ct.add(&ct_2);
    let dect = expr_ct.decrypt(&secret_key, &she_params).unwrap().decode(&she_params);
    let expected_pt = pt.add(&pt_2);

    assert!(expected_pt.equals(&dect));

    // Plain -> Encoded -> Plain, multiplication of 2 texts
    let expr_et = et.mul(&et_2);
    let dect = expr_et.decode(&she_params);
    let expected_pt = pt.mul(&pt_2);

    assert!(expected_pt.equals(&dect));

    // Plain -> Encoded -> Cipher -> Encoded -> Plain, multiplication of 2 texts
    let expr_ct = ct.mul(&ct_2).unwrap();
    let dect = expr_ct.decrypt(&secret_key, &she_params).unwrap().decode(&she_params);
    let expected_pt = pt.mul(&pt_2);

    assert!(expected_pt.equals(&dect));

    // Plain -> Encoded -> Cipher -> Encoded -> Plain, multiplication and addition of 3 texts
    let expr_ct = ct.mul(&ct_2).unwrap().add(&ct_3);
    let dect = expr_ct.decrypt(&secret_key, &she_params).unwrap().decode(&she_params);
    let expected_pt = pt.mul(&pt_2).add(&pt_3);

    assert!(expected_pt.equals(&dect));
}

#[test]
fn test_plaintext() {
    let pl_1: Plaintexts = Plaintexts::from_vec(vec![1, 2], 41);
    let pl_2: Plaintexts = Plaintexts::from_vec(vec![2, 3], 41);
    let pl_add = pl_1.add(&pl_2);
    let pl_add_expected = Plaintexts::from_vec(vec![1 + 2, 2 + 3], 41);
    assert!(pl_add.equals(&pl_add_expected));

    let pl_vec: Vec<Plaintexts> = vec![pl_1.clone(), pl_2.clone()];
    let mut pl_sum: Plaintexts = Plaintexts::from_vec(vec![0, 0], 41);
    for x in pl_vec.iter() {
        pl_sum = pl_sum.add(x);
    }
    assert!(pl_sum.equals(&pl_add_expected));
}

#[test]
fn encode_add_mul_tiny() {
    // s = n = 2, p = 41, q = 10^9 + 7
    let she_params = SHEParameters::new(2, 2, 41, 1_000_000_007, 3).unwrap();
    let p = Plaintexts::from_vec(vec![1, 2], 41);
    let q = Plaintexts::from_vec(vec![2, 3], 41);
    let ep = p.encode(&she_params);
    let eq = q.encode(&she_params);

    let sum = ep.add(&eq).decode(&she_params);
    assert!(sum.equals(&Plaintexts::from_vec(vec![3, 5], 41)));

    let prod = ep.mul(&eq).decode(&she_params);
    assert!(prod.equals(&Plaintexts::from_vec(vec![2, 6], 41)));
}

#[test]
fn she_add_mul_tiny() {
    // ciphertexts over the same tiny parameters
    let she_params = SHEParameters::new(2, 2, 41, 1_000_000_007, 3).unwrap();
    let mut rng = rng_from_seed(0);
    let sk = SecretKey::generate(&she_params, &mut rng);
    let pk = sk.public_key_gen(&she_params, &mut rng);

    let p = Plaintexts::from_vec(vec![1, 2], 41);
    let q = Plaintexts::from_vec(vec![2, 3], 41);
    let ep = p.encode(&she_params);
    let eq = q.encode(&she_params);
    let rp = get_gaussian(&she_params, 6, &mut rng);
    let rq = get_gaussian(&she_params, 6, &mut rng);
    let cp = Ciphertext::encrypt_from(&ep, &pk, &rp, &she_params);
    let cq = Ciphertext::encrypt_from(&eq, &pk, &rq, &she_params);

    let sum = cp.add(&cq).decrypt(&sk, &she_params).unwrap().decode(&she_params);
    assert!(sum.equals(&Plaintexts::from_vec(vec![3, 5], 41)));

    let prod = cp.mul(&cq).unwrap().decrypt(&sk, &she_params).unwrap().decode(&she_params);
    assert!(prod.equals(&Plaintexts::from_vec(vec![2, 6], 41)));
}

#[test]
fn encryption_round_trip_random() {
    let she_params = SHEParameters::new(4, 4, 41, 1_000_000_007, 3).unwrap();
    let mut rng = rng_from_seed(11);
    let sk = SecretKey::generate(&she_params, &mut rng);
    let pk = sk.public_key_gen(&she_params, &mut rng);
    for _ in 0..5 {
        let pt = Plaintexts::rand(&she_params, &mut rng);
        let r = get_gaussian(&she_params, 12, &mut rng);
        let ct = Ciphertext::encrypt_from(&pt.encode(&she_params), &pk, &r, &she_params);
        let back = ct.decrypt(&sk, &she_params).unwrap().decode(&she_params);
        assert!(pt.equals(&back));
    }
}

#[test]
fn second_multiplication_refused() {
    let she_params = SHEParameters::new(2, 2, 41, 1_000_000_007, 3).unwrap();
    let mut rng = rng_from_seed(3);
    let sk = SecretKey::generate(&she_params, &mut rng);
    let pk = sk.public_key_gen(&she_params, &mut rng);
    let p = Plaintexts::from_vec(vec![1, 1], 41);
    let r = get_gaussian(&she_params, 6, &mut rng);
    let c = Ciphertext::encrypt_from(&p.encode(&she_params), &pk, &r, &she_params);
    let prod = c.mul(&c).unwrap();
    // the product carries a non-zero third component; another level is refused
    let again = prod.mul(&prod);
    assert!(matches!(again, Err(zk_mpc::error::MpcError::DepthExceeded)));
}

#[test]
fn invalid_parameters_rejected() {
    // 3 is not a power of two
    assert!(matches!(
        SHEParameters::new(3, 3, 41, 1_000_000_007, 3),
        Err(zk_mpc::error::MpcError::ParameterInvalid)
    ));
    // p = 40 has no primitive 4th root of unity (40 != 1 mod 4)
    assert!(matches!(
        SHEParameters::new(2, 2, 40, 1_000_000_007, 3),
        Err(zk_mpc::error::MpcError::ParameterInvalid)
    ));
    // q far too small for the noise budget
    assert!(matches!(
        SHEParameters::new(2, 2, 41, 163, 3),
        Err(zk_mpc::error::MpcError::ParameterInvalid)
    ));
}

#[test]
fn norm_of_balanced_values() {
    // norm is the magnitude of the balanced representative: q - 1 has norm 1
    let q: u128 = 1_000_000_007;
    let et = Encodedtext::new(vec![0, 1, q - 1, q - 5], q);
    assert_eq!(et.norm(), 5);
    assert_eq!(et.modulo_p(41).coeff_at(2), 41 - 1);
}

#[test]
fn seeded_rng_is_deterministic_and_bounded() {
    let mut r1 = rng_from_seed(42);
    let mut r2 = rng_from_seed(42);
    for bound in [1u128, 2, 7, 1 << 80] {
        let a = zk_mpc::rng::gen_below(&mut r1, bound);
        let b = zk_mpc::rng::gen_below(&mut r2, bound);
        assert_eq!(a, b);
        assert!(a < bound);
    }
    // bound 1 admits only zero
    assert_eq!(zk_mpc::rng::gen_below(&mut r1, 1), 0);
}
