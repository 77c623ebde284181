use afit_rs::builtin::basic_arithmetics::{bezout, gcd};
use afit_rs::error::CryptoError;

#[test]
fn test_gcd() {
    let cases = vec![((32, 6), 2), ((18, 12), 6), ((-18, -12), 6)];
    for ((a, b), expected) in cases {
        assert_eq!(gcd(a, b), Ok(expected), "gcd({},{})", a, b);
    }
}

#[test]
fn test_bezout() {
    let cases = vec![
        ((18, 22), (5, -4, 2)),
        ((22, 18), (-4, 5, 2)),
        ((17, 21), (5, -4, 1)),
        ((21, 17), (-4, 5, 1)),
    ];
    for ((a, b), expected) in cases {
        assert_eq!(bezout(a, b), Ok(expected), "bezout({},{})", a, b);
    }
}

#[test]
fn gcd_is_symmetric_and_positive() {
    for a in -20..=20i64 {
        for b in -20..=20i64 {
            if a == 0 && b == 0 {
                continue;
            }
            let g = gcd(a, b).unwrap();
            assert_eq!(g, gcd(b, a).unwrap());
            assert!(g > 0);
            assert_eq!(a % g, 0);
            assert_eq!(b % g, 0);
        }
    }
}

#[test]
fn gcd_with_one_zero_argument() {
    assert_eq!(gcd(0, 7), Ok(7));
    assert_eq!(gcd(-9, 0), Ok(9));
    assert_eq!(gcd(0, 0), Err(CryptoError::InvalidArgument));
}

#[test]
fn bezout_identity_holds() {
    for a in -15..=15i64 {
        for b in -15..=15i64 {
            if b == 0 {
                continue;
            }
            let (u, v, d) = bezout(a, b).unwrap();
            assert_eq!(a * u + b * v, d);
            assert_eq!(d, gcd(a, b).unwrap());
            assert!(d > 0);
        }
    }
}

#[test]
fn bezout_when_divisor_divides_exactly() {
    assert_eq!(bezout(12, 4), Ok((0, 1, 4)));
    assert_eq!(bezout(4, 12), Ok((1, 0, 4)));
    assert_eq!(bezout(12, -4), Ok((0, -1, 4)));
    assert_eq!(bezout(-12, -4), Ok((0, -1, 4)));
    assert_eq!(bezout(0, 5), Ok((0, 1, 5)));
}

#[test]
fn bezout_zero_divisor_is_refused() {
    assert_eq!(bezout(5, 0), Err(CryptoError::InvalidArgument));
}
