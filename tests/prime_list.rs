use afit_rs::builtin::generate_primes::eratosthenes;
use afit_rs::builtin::prime_list::{format_prime_list, parse_prime_list};

#[test]
fn format_writes_one_number_per_line() {
    assert_eq!(format_prime_list(&[2, 3, 5]), b"2\n3\n5\n".to_vec());
    assert_eq!(format_prime_list(&[0, -10, 1234567]), b"0\n-10\n1234567\n".to_vec());
    assert_eq!(format_prime_list(&[]), Vec::<u8>::new());
    assert_eq!(
        format_prime_list(&[i64::MIN, i64::MAX]),
        format!("{}\n{}\n", i64::MIN, i64::MAX).into_bytes()
    );
}

#[test]
fn parse_reads_numbers_and_skips_other_lines() {
    assert_eq!(parse_prime_list(b"2\n3\n5\n"), vec![2, 3, 5]);
    assert_eq!(
        parse_prime_list(b" 7 \r\nabc\n-4\n+9\n\n99999999999999999999\n1 2\n-\n11"),
        vec![7, -4, 9, 11]
    );
    assert_eq!(parse_prime_list(b""), Vec::<i64>::new());
    assert_eq!(
        parse_prime_list(b"9223372036854775807\n-9223372036854775808\n9223372036854775808\n"),
        vec![i64::MAX, i64::MIN]
    );
}

#[test]
fn formatted_list_parses_back() {
    let primes = eratosthenes(200);
    assert_eq!(parse_prime_list(&format_prime_list(&primes)), primes);
}
