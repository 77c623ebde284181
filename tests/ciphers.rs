use afit_rs::builtin::builtins::modulo;
use afit_rs::builtin::ciphers::{
    decrypt_cesar, decrypt_g, decrypt_rsa, encrypt_cesar, encrypt_g, encrypt_rsa,
    generate_keys_g, generate_keys_rsa, public_data_g,
};
use afit_rs::error::CryptoError;

fn str2list(s: &str) -> Vec<i64> {
    s.chars().map(|c| c as i64).collect()
}

#[test]
fn test_encrypt_cesar() {
    let cases = vec![
        ((2, vec![2, 3, 6], 10), vec![4, 5, 8]),
        ((0, str2list("hello"), 255), str2list("hello")),
        ((2, str2list("ABC"), 255), str2list("CDE")),
        ((-1, str2list("xyz"), 255), str2list("wxy")),
    ];
    for ((k, m, b), expected) in cases {
        assert_eq!(encrypt_cesar(k, &m, b), expected, "encrypt_cesar({},{:?},{})", k, m, b);
    }
}

#[test]
fn test_decrypt_cesar() {
    let cases = vec![
        ((2, vec![4, 5, 8], 10), vec![2, 3, 6]),
        ((0, str2list("hello"), 255), str2list("hello")),
        ((2, str2list("CDE"), 255), str2list("ABC")),
        ((-1, str2list("wxy"), 255), str2list("xyz")),
    ];
    for ((k, m, b), expected) in cases {
        assert_eq!(decrypt_cesar(k, &m, b), expected, "decrypt_cesar({},{:?},{})", k, m, b);
    }
}

#[test]
fn cesar_wraps_around_and_round_trips() {
    assert_eq!(encrypt_cesar(3, &[254, 255, 0], 256), vec![1, 2, 3]);
    let word = str2list("round trip");
    assert_eq!(decrypt_cesar(77, &encrypt_cesar(77, &word, 256), 256), word);
    assert_eq!(encrypt_cesar(5, &[], 256), Vec::<i64>::new());
}

#[test]
fn test_generate_keys_rsa() {
    let is_inverse = |x: i64, y: i64, n: i64| {
        modulo(modulo(x, n).unwrap() * modulo(y, n).unwrap(), n).unwrap() == 1
    };
    let (p, q) = (9967, 9973);
    let ((n, e), (n2, d)) = generate_keys_rsa(p, q).unwrap();
    let phi = (p - 1) * (q - 1);
    assert_eq!(n, p * q);
    assert_eq!(n2, n);
    assert_ne!(modulo(e, phi).unwrap(), 1);
    assert!(is_inverse(e, d, phi));
}

#[test]
fn rsa_exponents_are_inverse() {
    let (p, q) = (9967i64, 9973i64);
    let ((_, e), (_, d)) = generate_keys_rsa(p, q).unwrap();
    let phi = (p - 1) * (q - 1);
    assert_eq!(e, phi - 1);
    assert_eq!(d, phi - 1);
    assert_eq!(((e as i128 * d as i128) % phi as i128) as i64, 1);
    let ((_, e), (_, d)) = generate_keys_rsa(3, 2).unwrap();
    assert_eq!((e, d), (1, 1));
}

#[test]
fn rsa_key_generation_errors() {
    assert_eq!(generate_keys_rsa(7, 7), Err(CryptoError::Precondition));
    assert_eq!(generate_keys_rsa(1, 3), Err(CryptoError::NoValidKey));
    assert_eq!(generate_keys_rsa(2, 2), Err(CryptoError::NoValidKey));
}

#[test]
fn rsa_round_trip_small_primes() {
    let (pub_key, priv_key) = generate_keys_rsa(61, 53).unwrap();
    assert_eq!(pub_key, (3233, 3119));
    for m in [0i64, 1, 2, 65, 1000, 3232] {
        let c = encrypt_rsa(m, pub_key);
        assert_eq!(decrypt_rsa(c, priv_key), m);
    }
    assert_eq!(encrypt_rsa(65, (3233, 17)), 2790);
    assert_eq!(decrypt_rsa(2790, (3233, 2753)), 65);
}

#[test]
fn elgamal_public_data() {
    assert_eq!(public_data_g(23), Ok((5, 23)));
    assert_eq!(public_data_g(7), Ok((3, 7)));
    assert_eq!(public_data_g(9), Err(CryptoError::Precondition));
    assert_eq!(public_data_g(13), Err(CryptoError::Precondition));
    assert_eq!(public_data_g(3), Err(CryptoError::Precondition));
}

#[test]
fn elgamal_round_trip() {
    let (g, p) = public_data_g(23).unwrap();
    let (k, a) = generate_keys_g(g, p, 6).unwrap();
    assert_eq!(k, 8);
    let (msg_a, msg_b) = encrypt_g(10, (g, p), k, 3).unwrap();
    assert_eq!((msg_a, msg_b), (10, 14));
    assert_eq!(decrypt_g((msg_a, msg_b), a, (g, p)), Ok(10));
    for m in 0..p {
        for b in 1..=p - 2 {
            let c = encrypt_g(m, (g, p), k, b).unwrap();
            assert_eq!(decrypt_g(c, a, (g, p)), Ok(m));
        }
    }
}

#[test]
fn elgamal_out_of_range_secrets_are_refused() {
    assert_eq!(generate_keys_g(5, 23, 0), Err(CryptoError::InvalidArgument));
    assert_eq!(generate_keys_g(5, 23, 22), Err(CryptoError::InvalidArgument));
    assert_eq!(encrypt_g(4, (5, 23), 8, 0), Err(CryptoError::InvalidArgument));
    assert_eq!(decrypt_g((10, 14), -1, (5, 23)), Err(CryptoError::InvalidArgument));
    assert_eq!(decrypt_g((10, 14), 3, (5, 0)), Err(CryptoError::InvalidArgument));
}

#[test]
fn elgamal_decrypt_with_any_non_negative_key() {
    // a zero key gives the shared secret 1, whose inverse is 1
    assert_eq!(decrypt_g((10, 14), 0, (5, 23)), Ok(14));
    // 10^22 is 1 modulo 23
    assert_eq!(decrypt_g((10, 14), 22, (5, 23)), Ok(14));
    // 10^25 = 10^3 = 11 modulo 23, whose inverse is 21: 14 * 21 = 294 = 18 modulo 23
    assert_eq!(decrypt_g((10, 14), 25, (5, 23)), Ok(18));
}
