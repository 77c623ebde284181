use afit_rs::builtin::power::{mod_power, pow, power, prime_mod_power};
use afit_rs::error::CryptoError;

#[test]
fn test_pow() {
    let cases = vec![
        ((-1, 12), 1),
        ((-1, 11), -1),
        ((0, 2), 0),
        ((3, 1), 3),
        ((5, 0), 1),
        ((-2, 2), 4),
        ((-2, 3), -8),
        ((2, 5), 32),
        ((3, 3), 27),
    ];
    for ((x, n), expected) in cases {
        assert_eq!(pow(x, n), Ok(expected), "pow({},{})", x, n);
    }
}

#[test]
fn test_power() {
    let cases = vec![
        ((-1, 12), 1),
        ((-1, 11), -1),
        ((0, 2), 0),
        ((3, 1), 3),
        ((5, 0), 1),
        ((-2, 2), 4),
        ((-2, 3), -8),
        ((2, 5), 32),
        ((3, 3), 27),
    ];
    for ((x, n), expected) in cases {
        assert_eq!(power(x, n), expected, "power({},{})", x, n);
    }
}

#[test]
fn test_mod_power() {
    let cases = vec![
        ((-1, 12, 10), 1),
        ((-1, 11, 11), 10),
        ((0, 2, 3), 0),
        ((3, 1, 3), 0),
        ((5, 0, 2), 1),
        ((-2, 2, 5), 4),
        ((-2, 3, 9), 1),
        ((2, 5, 17), 15),
        ((3, 3, 17), 10),
    ];
    for ((x, n, m), expected) in cases {
        assert_eq!(mod_power(x, n, m), expected, "mod_power({},{},{})", x, n, m);
    }
}

#[test]
fn test_prime_mod_power() {
    let cases = vec![
        ((-1, 12, 7), 1),
        ((-1, 11, 11), 10),
        ((0, 2, 3), 0),
        ((3, 1, 3), 0),
        ((5, 0, 2), 1),
        ((-2, 2, 5), 4),
        ((-2, 3, 5), 2),
        ((2, 5, 17), 15),
        ((3, 3, 17), 10),
    ];
    for ((x, n, p), expected) in cases {
        assert_eq!(prime_mod_power(x, n, p), expected, "prime_mod_power({},{},{})", x, n, p);
    }
}

#[test]
fn power_agrees_with_pow() {
    for x in -6..=6i64 {
        for n in 0..=20i64 {
            assert_eq!(Ok(power(x, n)), pow(x, n), "x={} n={}", x, n);
        }
    }
    assert_eq!(power(-2, 63), i64::MIN);
    assert_eq!(pow(-2, 63), Ok(i64::MIN));
    assert_eq!(power(3, 39), 4052555153018976267);
}

#[test]
fn pow_negative_exponent_is_refused() {
    assert_eq!(pow(2, -1), Err(CryptoError::InvalidArgument));
}

#[test]
fn mod_power_stays_below_modulus() {
    assert_eq!(mod_power(2, 5, 17), 15);
    for x in -10..=10i64 {
        for n in 1..=12i64 {
            for m in [1i64, 2, 7, 13, 100] {
                let r = mod_power(x, n, m);
                assert!(0 <= r && r < m, "mod_power({},{},{})={}", x, n, m, r);
                assert_eq!(r, pow(x, n).unwrap().rem_euclid(m));
            }
        }
    }
}

#[test]
fn mod_power_zero_exponent_is_unreduced() {
    assert_eq!(mod_power(7, 0, 1), 1);
    assert_eq!(mod_power(7, 1, 1), 0);
    assert_eq!(mod_power(10, 3, -7), 6);
}

#[test]
fn mod_power_large_operands() {
    assert_eq!(mod_power(3037000498, 2, 3037000499), 1);
    assert_eq!(mod_power(i64::MAX, 1_000_000_007, 1_000_000_007), i64::MAX % 1_000_000_007);
}
