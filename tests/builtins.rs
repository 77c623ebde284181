use afit_rs::builtin::builtins::{div, modulo, quot, sign};
use afit_rs::error::CryptoError;

#[test]
fn test_sign() {
    let cases = vec![(1, 1), (-1, -1), (0, 1)];
    for (x, expected) in cases {
        assert_eq!(sign(x), expected, "sign({})", x);
    }
}

#[test]
fn test_quot() {
    let cases = vec![((10, 3), 3), ((-10, 3), -4), ((10, 2), 5), ((-10, 2), -5)];
    for ((a, b), expected) in cases {
        assert_eq!(quot(a, b), Ok(expected), "quot({},{})", a, b);
    }
}

#[test]
fn test_modulo() {
    let cases = vec![((10, 3), 1), ((-10, 3), 2), ((10, 2), 0), ((-10, 2), 0)];
    for ((a, b), expected) in cases {
        assert_eq!(modulo(a, b), Ok(expected), "modulo({},{})", a, b);
    }
}

#[test]
fn test_div() {
    let cases = vec![
        ((10, 3), (3, 1)),
        ((-10, 3), (-4, 2)),
        ((10, 2), (5, 0)),
        ((-10, 2), (-5, 0)),
    ];
    for ((a, b), expected) in cases {
        assert_eq!(div(a, b), Ok(expected), "div({},{})", a, b);
    }
}

#[test]
fn modulo_negative_divisor_and_boundaries() {
    assert_eq!(modulo(10, -3), Ok(1));
    assert_eq!(modulo(-10, -3), Ok(2));
    assert_eq!(modulo(-1, 5), Ok(4));
    assert_eq!(modulo(0, 5), Ok(0));
    assert_eq!(modulo(i64::MIN, -1), Ok(0));
    assert_eq!(modulo(i64::MIN, 3), Ok(1));
}

#[test]
fn modulo_stays_in_range() {
    for a in -30..=30 {
        for b in [-7i64, -3, -1, 1, 2, 5, 11] {
            let r = modulo(a, b).unwrap();
            assert!(0 <= r && r < b.abs(), "modulo({},{})={}", a, b, r);
        }
    }
}

#[test]
fn div_rebuilds_dividend() {
    assert_eq!(div(-10, 3), Ok((-4, 2)));
    assert_eq!(div(10, -3), Ok((-3, 1)));
    assert_eq!(div(-10, -3), Ok((4, 2)));
    for a in -25..=25 {
        for b in [-6i64, -4, -1, 1, 3, 8] {
            let (q, r) = div(a, b).unwrap();
            assert_eq!(a, b * q + r);
            assert!(0 <= r && r < b.abs());
        }
    }
}

#[test]
fn zero_divisor_is_refused() {
    assert_eq!(quot(5, 0), Err(CryptoError::InvalidArgument));
    assert_eq!(modulo(5, 0), Err(CryptoError::InvalidArgument));
    assert_eq!(div(5, 0), Err(CryptoError::InvalidArgument));
}

#[test]
fn sign_of_zero_is_one() {
    assert_eq!(sign(0), 1);
    assert_eq!(sign(i64::MIN), -1);
    assert_eq!(sign(i64::MAX), 1);
}
