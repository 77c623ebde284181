use afit_rs::builtin::test_primes::{is_prime, is_pseudo_prime};

#[test]
fn test_is_prime() {
    let cases = vec![
        (2, true),
        (3, true),
        (5, true),
        (7, true),
        (11, true),
        (13, true),
        (4, false),
        (6, false),
        (12, false),
        (45, false),
        (77, false),
        (63, false),
    ];
    for (n, expected) in cases {
        assert_eq!(is_prime(n), expected, "is_prime({})", n);
    }
}

#[test]
fn test_is_pseudo_prime() {
    let cases = vec![
        ((2, vec![2, 4, 8, 12]), true),
        ((11, vec![2, 4, 5, 20]), true),
        ((23, vec![2, 9, 15, 18]), true),
        ((29, vec![30, 41, 52]), true),
        ((4, vec![2, 9, 15, 18]), false),
        ((22, vec![30, 41, 52]), false),
        ((15, vec![2, 9, 15, 18]), false),
        ((27, vec![30, 41, 52]), false),
    ];
    for ((p, seq), expected) in cases {
        assert_eq!(is_pseudo_prime(p, &seq), expected, "is_pseudo_prime({},{:?})", p, seq);
    }
}

#[test]
fn is_prime_small_and_large() {
    assert!(is_prime(1));
    assert!(is_prime(0));
    assert!(is_prime(-7));
    assert!(is_prime(9967));
    assert!(is_prime(9973));
    assert!(!is_prime(9967 * 9973));
    assert!(!is_prime(25));
}

#[test]
fn carmichael_number_passes_fermat_test() {
    assert!(is_pseudo_prime(561, &[2, 5, 7]));
    assert!(!is_prime(561));
    assert!(is_pseudo_prime(13, &[]));
}
