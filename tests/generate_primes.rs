use afit_rs::builtin::generate_primes::{
    double_primes, eratosthenes, init_eratosthenes, last_element, last_two, twin_primes,
};
use afit_rs::builtin::test_primes::is_prime;

#[test]
fn test_init_eratosthenes() {
    let cases = vec![(2, vec![2]), (3, vec![2, 3]), (6, vec![2, 3, 5])];
    for (n, expected) in cases {
        assert_eq!(init_eratosthenes(n), expected, "init_eratosthenes({})", n);
    }
}

#[test]
fn test_eratosthenes() {
    let cases = vec![
        (2, vec![2]),
        (3, vec![2, 3]),
        (6, vec![2, 3, 5]),
        (25, vec![2, 3, 5, 7, 11, 13, 17, 19, 23]),
    ];
    for (n, expected) in cases {
        assert_eq!(eratosthenes(n), expected, "eratosthenes({})", n);
    }
}

#[test]
fn test_double_primes() {
    assert_eq!(double_primes(20, is_prime), vec![(2, 5), (3, 7), (5, 11), (11, 23)]);
}

#[test]
fn test_twin_primes() {
    assert_eq!(twin_primes(20, is_prime), vec![(3, 5), (5, 7), (11, 13), (17, 19)]);
}

#[test]
fn sieve_agrees_with_trial_division() {
    let primes = eratosthenes(1000);
    let expected: Vec<i64> = (2..=1000).filter(|&x| is_prime(x)).collect();
    assert_eq!(primes, expected);
    assert_eq!(primes.len(), 168);
}

#[test]
fn last_entries_of_a_list() {
    let primes = eratosthenes(30);
    assert_eq!(last_element(&primes), 29);
    assert_eq!(last_two(&primes), (23, 29));
    assert_eq!(last_element(&[7]), 7);
}
