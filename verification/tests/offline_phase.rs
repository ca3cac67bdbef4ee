use zk_mpc::ciphertext::Ciphertext;
use zk_mpc::error::MpcError;
use zk_mpc::plaintext::Plaintexts;
use zk_mpc::preprocessing::{
    angle, bracket, initialize, mac_check, open_angle, pair, reshare, sum_plaintexts, triple,
    AngleShare, CiphertextOption,
};
use zk_mpc::rng::rng_from_seed;
use zk_mpc::she::{get_gaussian, SecretKey, SHEParameters};
use zk_mpc::zkpopk::Parameters;

const BIG_Q: u128 = 618970019642690137449562111;

fn tiny_setup() -> (SHEParameters, Parameters) {
    let she_params = SHEParameters::new(2, 2, 41, BIG_Q, 3).unwrap();
    // single-ciphertext batches: sec = 1, v = 1, d = 3 * n
    let zkpopk_params = Parameters::new(1, 2, 41, 1, 6, 2, 41, BIG_Q as i128);
    (she_params, zkpopk_params)
}

#[test]
fn reshare_sums_to_message() {
    let (she_params, _zk) = tiny_setup();
    let mut rng = rng_from_seed(21);
    let sk = SecretKey::generate(&she_params, &mut rng);
    let pk = sk.public_key_gen(&she_params, &mut rng);

    let m = Plaintexts::from_vec(vec![17, 5], 41);
    let r = get_gaussian(&she_params, 6, &mut rng);
    let e_m = Ciphertext::encrypt_from(&m.encode(&she_params), &pk, &r, &she_params);

    let (shares, none_ct) = reshare(
        &e_m,
        CiphertextOption::NoNewCiphertext,
        &pk,
        &sk,
        &she_params,
        3,
        &mut rng,
    )
    .unwrap();
    assert!(none_ct.is_none());
    assert_eq!(shares.len(), 3);
    let total = sum_plaintexts(&shares, &she_params);
    assert!(total.equals(&m));
}

#[test]
fn reshare_new_ciphertext_decrypts_to_message() {
    let (she_params, _zk) = tiny_setup();
    let mut rng = rng_from_seed(22);
    let sk = SecretKey::generate(&she_params, &mut rng);
    let pk = sk.public_key_gen(&she_params, &mut rng);

    let m = Plaintexts::from_vec(vec![9, 30], 41);
    let r = get_gaussian(&she_params, 6, &mut rng);
    let e_m = Ciphertext::encrypt_from(&m.encode(&she_params), &pk, &r, &she_params);

    let (shares, some_ct) = reshare(
        &e_m,
        CiphertextOption::NewCiphertext,
        &pk,
        &sk,
        &she_params,
        2,
        &mut rng,
    )
    .unwrap();
    let fresh = some_ct.unwrap();
    let back = fresh.decrypt(&sk, &she_params).unwrap().decode(&she_params);
    assert!(back.equals(&m));
    let total = sum_plaintexts(&shares, &she_params);
    assert!(total.equals(&m));
}

#[test]
fn triple_opens_to_product() {
    // S-style driver run: three parties, tiny parameters
    let (she_params, zkpopk_params) = tiny_setup();
    let mut rng = rng_from_seed(33);
    let init = initialize(&zkpopk_params, &she_params, 3, &mut rng).unwrap();

    let (a_angle, b_angle, c_angle) = triple(
        &init.e_alpha,
        &init.pk,
        &init.sk,
        &zkpopk_params,
        &she_params,
        3,
        &mut rng,
    )
    .unwrap();

    let a_open = open_angle(&a_angle, &she_params);
    let b_open = open_angle(&b_angle, &she_params);
    let c_open = open_angle(&c_angle, &she_params);
    assert!(c_open.equals(&a_open.mul(&b_open)));

    // the MAC checks pass against the initialized key shares
    let alpha_shares = init.diag_alpha.share;
    mac_check(&a_open, &a_angle, &alpha_shares, &she_params).unwrap();
    mac_check(&b_open, &b_angle, &alpha_shares, &she_params).unwrap();
    mac_check(&c_open, &c_angle, &alpha_shares, &she_params).unwrap();
}

#[test]
fn pair_yields_consistent_flavours() {
    let (she_params, zkpopk_params) = tiny_setup();
    let mut rng = rng_from_seed(44);
    let init = initialize(&zkpopk_params, &she_params, 2, &mut rng).unwrap();
    let (r_bracket, r_angle) = pair(
        &init.e_alpha,
        &init.pk,
        &init.sk,
        &zkpopk_params,
        &she_params,
        2,
        &mut rng,
    )
    .unwrap();
    // both flavours share the same opened value
    let from_angle = open_angle(&r_angle, &she_params);
    let from_bracket = sum_plaintexts(&r_bracket.share, &she_params);
    assert!(from_angle.equals(&from_bracket));
}

#[test]
fn mac_check_rejects_tampered_share() {
    let (she_params, _zk) = tiny_setup();
    let mut rng = rng_from_seed(55);
    let sk = SecretKey::generate(&she_params, &mut rng);
    let pk = sk.public_key_gen(&she_params, &mut rng);

    // a published MAC key: alpha as a diagonal value, encrypted
    let alpha_shares = vec![
        Plaintexts::from_vec(vec![7, 7], 41),
        Plaintexts::from_vec(vec![4, 4], 41),
    ];
    let alpha_total = sum_plaintexts(&alpha_shares, &she_params);
    let e_alpha = {
        let r = get_gaussian(&she_params, 6, &mut rng);
        Ciphertext::encrypt_from(&alpha_total.encode(&she_params), &pk, &r, &she_params)
    };

    let m_vec = vec![
        Plaintexts::from_vec(vec![3, 8], 41),
        Plaintexts::from_vec(vec![10, 1], 41),
    ];
    let e_m = {
        let total = sum_plaintexts(&m_vec, &she_params);
        let r = get_gaussian(&she_params, 6, &mut rng);
        Ciphertext::encrypt_from(&total.encode(&she_params), &pk, &r, &she_params)
    };

    let a: AngleShare = angle(m_vec, &e_m, &e_alpha, &pk, &sk, &she_params, &mut rng).unwrap();
    let opened = open_angle(&a, &she_params);
    mac_check(&opened, &a, &alpha_shares, &she_params).unwrap();

    // flipping one MAC share slot must break the check
    let mut bad = a;
    let w0 = bad.mac[0].val_at(0);
    let w1 = bad.mac[0].val_at(1);
    bad.mac[0] = Plaintexts::from_vec(vec![(w0 + 1) % 41, w1], 41);
    let res = mac_check(&opened, &bad, &alpha_shares, &she_params);
    assert!(matches!(res, Err(MpcError::MacCheckFailure)));
}

#[test]
fn bracket_macs_authenticate_shares() {
    let (she_params, _zk) = tiny_setup();
    let mut rng = rng_from_seed(66);
    let sk = SecretKey::generate(&she_params, &mut rng);
    let pk = sk.public_key_gen(&she_params, &mut rng);

    let m_vec = vec![
        Plaintexts::from_vec(vec![2, 5], 41),
        Plaintexts::from_vec(vec![6, 6], 41),
    ];
    let m_total = sum_plaintexts(&m_vec, &she_params);
    let e_m = {
        let r = get_gaussian(&she_params, 6, &mut rng);
        Ciphertext::encrypt_from(&m_total.encode(&she_params), &pk, &r, &she_params)
    };
    let b = bracket(m_vec, &e_m, &pk, &sk, &she_params, &mut rng).unwrap();
    // for every party i: the shares of beta_i * m sum to beta_i * m
    for (beta, gammas) in b.mac.iter() {
        let gamma_total = sum_plaintexts(gammas, &she_params);
        assert!(gamma_total.equals(&beta.mul(&m_total)));
    }
}

#[test]
fn beaver_mul_opens_to_product() {
    // a valid triple over F_41: a = 15, b = 7, c = 105 mod 41 = 23
    let a = vec![3u128, 5, 7];
    let b = vec![2u128, 4, 1];
    let c = vec![10u128, 10, 3];
    // inputs x = 6, y = 5
    let x = vec![1u128, 2, 3];
    let y = vec![4u128, 0, 1];
    let z = zk_mpc::share::beaver_mul(&x, &y, &a, &b, &c, 41);
    assert_eq!(zk_mpc::share::open_shares(&z, 41), 30);
}

#[test]
fn batch_beaver_matches_single() {
    let xs = vec![vec![1u128, 2, 3], vec![5u128, 6, 7]];
    let ys = vec![vec![4u128, 0, 1], vec![2u128, 2, 2]];
    let a_list = vec![vec![3u128, 5, 7], vec![1u128, 1, 1]];
    let b_list = vec![vec![2u128, 4, 1], vec![3u128, 0, 0]];
    // c opens to a * b for each triple: 15 * 7 = 105 = 23, 3 * 3 = 9
    let c_list = vec![vec![10u128, 10, 3], vec![4u128, 4, 1]];
    let zs = zk_mpc::share::batch_beaver_mul(&xs, &ys, &a_list, &b_list, &c_list, 41);
    assert_eq!(zs.len(), 2);
    // 6 * 5 = 30 and 18 * 6 = 108 = 26 mod 41
    assert_eq!(zk_mpc::share::open_shares(&zs[0], 41), 30);
    assert_eq!(zk_mpc::share::open_shares(&zs[1], 41), 26);
}
