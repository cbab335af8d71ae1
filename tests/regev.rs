use lwe_pir::element::Element;
use lwe_pir::error::LweError;
use lwe_pir::matrix::Matrix;
use lwe_pir::regev::{answer, decrypt, encrypt, gen_db, gen_error_vec, gen_secret, query, simple_params, Params};

fn test_pir_impl(params: &Params, s: &Vec<Element>) {
    let db_size = 50;
    let db = gen_db(db_size);

    let desired_idx = 24;
    let query = query(params, desired_idx, s, db_size).unwrap();

    let answer = answer(params, &query, &db);

    // Decrypt the answer
    let mut params_2 = params.clone();
    params_2.a = answer.0;
    let result = decrypt(&params_2, s, &answer.1).unwrap();
    assert_eq!(result, db[desired_idx]);
}

#[test]
fn test_pir() {
    let params = simple_params();
    let s = gen_secret(&params);
    for _ in 0..50 {
        test_pir_impl(&params, &s);
    }
}

fn encrypt_and_decrypt_impl(pu: u64) {
    let params = simple_params();
    let secret = gen_secret(&params);
    let e = gen_error_vec(&params);

    let plaintext = Element::from(params.p, pu);
    let ciphertext = encrypt(&params, &secret, &e, &plaintext).unwrap();
    assert_eq!(plaintext, decrypt(&params, &secret, &ciphertext).unwrap());
}

#[test]
fn test_encrypt_and_decrypt() {
    for _ in 0..50 {
        encrypt_and_decrypt_impl(0);
        encrypt_and_decrypt_impl(1);
    }
}

fn homomorphic_addition_impl(params: &Params) {
    let secret = gen_secret(params);
    let e_0 = gen_error_vec(params);
    let e_1 = gen_error_vec(params);

    let plaintext_0 = Element::from(params.p, 0);
    let ciphertext_0 = encrypt(params, &secret, &e_0, &plaintext_0).unwrap();

    let plaintext_1 = Element::from(params.p, 1);
    let ciphertext_1 = encrypt(params, &secret, &e_1, &plaintext_1).unwrap();

    let a_n = params.a.add(&params.a, params.q);
    let mut params = params.clone();
    params.a = a_n;
    let ciphertext_n = ciphertext_0 + ciphertext_1;
    let plaintext_n = plaintext_0 + plaintext_1;
    assert_eq!(plaintext_n, decrypt(&params, &secret, &ciphertext_n).unwrap());
}

#[test]
fn test_homomorphic_addition() {
    let params = simple_params();
    for _ in 0..50 {
        homomorphic_addition_impl(&params);
    }
}

/// A small fixed parameter set: q = 97, p = 2, A = [[3, 5, 7]].
fn small_params() -> Params {
    let q = 97;
    let a = Matrix::from(&vec![vec![Element::from(q, 3), Element::from(q, 5), Element::from(q, 7)]]);
    Params { a, q, p: 2, n: 3, m: 1 }
}

fn small_secret() -> Vec<Element> {
    vec![Element::from(97, 10), Element::from(97, 20), Element::from(97, 30)]
}

#[test]
fn encrypt_exact_value() {
    let params = small_params();
    let s = small_secret();
    // A s = 30 + 100 + 210 = 340 = 49 (mod 97); floor(97 / 2) = 48
    let e = vec![Element::from(97, 2)];
    let c0 = encrypt(&params, &s, &e, &Element::from(2, 0)).unwrap();
    assert_eq!(c0, Element::from(97, 51));
    let c1 = encrypt(&params, &s, &e, &Element::from(2, 1)).unwrap();
    assert_eq!(c1, Element::from(97, 2));
    // noise -1, held as 96
    let e = vec![Element::from(97, 96)];
    let c1 = encrypt(&params, &s, &e, &Element::from(2, 1)).unwrap();
    assert_eq!(c1, Element::from(97, 96));
    assert_eq!(decrypt(&params, &s, &c1).unwrap(), Element::from(2, 1));
    assert_eq!(decrypt(&params, &s, &c0).unwrap(), Element::from(2, 0));
}

#[test]
fn decrypt_rounds_to_nearest() {
    let params = small_params();
    let s = small_secret();
    // c - A s = 24: 24 * 2 / 97 = 0.49 rounds to 0
    assert_eq!(decrypt(&params, &s, &Element::from(97, 73)).unwrap(), Element::from(2, 0));
    // c - A s = 25: 25 * 2 / 97 = 0.52 rounds to 1
    assert_eq!(decrypt(&params, &s, &Element::from(97, 74)).unwrap(), Element::from(2, 1));
    // c - A s = 73: 73 * 2 / 97 = 1.505 rounds to 2 = 0 (mod 2)
    assert_eq!(decrypt(&params, &s, &Element::from(97, 25)).unwrap(), Element::from(2, 0));
}

#[test]
fn encrypt_rejects_bad_inputs() {
    let params = small_params();
    let s = small_secret();
    let e = vec![Element::from(97, 1)];
    let bit = Element::from(2, 1);
    let short = vec![Element::from(97, 10)];
    assert_eq!(encrypt(&params, &short, &e, &bit), Err(LweError::DimensionMismatch));
    assert_eq!(encrypt(&params, &s, &e, &Element::from(3, 1)), Err(LweError::ModulusMismatch));
    assert_eq!(encrypt(&params, &s, &vec![], &bit), Err(LweError::DimensionMismatch));
    let wrong_ring = vec![Element::from(97, 10), Element::from(89, 20), Element::from(97, 30)];
    assert_eq!(encrypt(&params, &wrong_ring, &e, &bit), Err(LweError::ModulusMismatch));
    assert_eq!(encrypt(&params, &s, &vec![Element::from(89, 1)], &bit), Err(LweError::ModulusMismatch));
}

#[test]
fn decrypt_rejects_bad_inputs() {
    let params = small_params();
    let s = small_secret();
    assert_eq!(decrypt(&params, &vec![], &Element::from(97, 3)), Err(LweError::DimensionMismatch));
    assert_eq!(decrypt(&params, &s, &Element::from(89, 3)), Err(LweError::ModulusMismatch));
}

#[test]
fn query_rejects_bad_index() {
    let params = simple_params();
    let s = gen_secret(&params);
    assert_eq!(query(&params, 5, &s, 5), Err(LweError::IndexOutOfBounds));
    assert_eq!(query(&params, 7, &s, 5), Err(LweError::IndexOutOfBounds));
    assert_eq!(query(&params, 0, &vec![], 5), Err(LweError::DimensionMismatch));
    assert_eq!(query(&params, 4, &s, 5).unwrap().len(), 5);
}

#[test]
fn pir_fixed_database() {
    let params = simple_params();
    let s = gen_secret(&params);
    let bit = |v: u64| Element::from(2, v);
    let db = vec![bit(1), bit(0), bit(1), bit(1), bit(0)];
    for (idx, expected) in [(2usize, 1u64), (1, 0), (0, 1), (3, 1), (4, 0)] {
        let qv = query(&params, idx, &s, db.len()).unwrap();
        let (summed_a, summed_c) = answer(&params, &qv, &db);
        let mut client = params.clone();
        client.a = summed_a;
        assert_eq!(decrypt(&client, &s, &summed_c).unwrap(), bit(expected));
    }
}

#[test]
fn answer_sums_selected_entries() {
    let params = small_params();
    let q = 97;
    let qv = vec![Element::from(q, 90), Element::from(q, 5), Element::from(q, 10)];
    let db = vec![Element::from(2, 1), Element::from(2, 0), Element::from(2, 1)];
    let (summed_a, summed_c) = answer(&params, &qv, &db);
    assert_eq!(summed_c, Element::from(q, 3));
    let twice = Matrix::from(&vec![vec![Element::from(q, 6), Element::from(q, 10), Element::from(q, 14)]]);
    assert_eq!(summed_a, twice);
    let (none_a, none_c) = answer(&params, &qv, &vec![Element::from(2, 0); 3]);
    assert_eq!(none_c, Element::zero(q));
    assert_eq!(none_a, Matrix::zeros(q, 1, 3));
}

#[test]
fn generated_values_have_declared_shape() {
    let params = simple_params();
    assert_eq!((params.q, params.p, params.n, params.m), (3329, 2, 512, 1));
    assert_eq!(params.a.num_rows(), 1);
    assert_eq!(params.a.num_cols(), 512);
    let s = gen_secret(&params);
    assert_eq!(s.len(), 512);
    assert!(s.iter().all(|e| e.q == 3329 && e.uint < 3329));
    for _ in 0..200 {
        let e = gen_error_vec(&params);
        assert_eq!(e.len(), 1);
        assert!(e[0].uint <= 2 || e[0].uint >= 3329 - 3);
    }
    let db = gen_db(64);
    assert_eq!(db.len(), 64);
    assert!(db.iter().all(|b| b.q == 2 && b.uint < 2));
}
