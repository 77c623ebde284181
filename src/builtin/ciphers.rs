use vstd::prelude::*;

use crate::builtin::basic_arithmetics::{
    bezout, bezout_spec, divides, gcd, gcd_of, lemma_bezout_identity, lemma_gcd_divides_both,
    lemma_gcd_symmetric_positive, BEZOUT_LIMIT,
};
use crate::builtin::builtins::{abs_of, euclid_rem, modulo, quot};
use crate::builtin::power::{mod_pow, mod_power};
use crate::builtin::test_primes::{
    is_prime, is_prime_number, lemma_no_small_divisor_is_prime, no_small_divisor,
};
use vstd::arithmetic::power::pow as power_of;
use crate::error::CryptoError;

verus! {

/* ---------------------------------------------------------------------- */
/*                              Caesar cipher                             */
/* ---------------------------------------------------------------------- */

/// Caesar encryption: each symbol `c` of `m` becomes `c + k` reduced into
/// `[0, |b|)`, where `b` is the size of the alphabet (256 for bytes).
pub fn encrypt_cesar(k: i64, m: &[i64], b: i64) -> (r: Vec<i64>)
    requires
        b != 0,
        forall|i: int| 0 <= i < m@.len() ==> i64::MIN <= #[trigger] m@[i] + k + b <= i64::MAX,
    ensures
        r@.len() == m@.len(),
        forall|i: int| 0 <= i < m@.len() ==> #[trigger] r@[i] == euclid_rem(m@[i] + k + b, b as int),
{
    let mut r: Vec<i64> = Vec::new();
    let mut j: usize = 0;
    while j < m.len()
        invariant
            b != 0,
            j <= m@.len(),
            r@.len() == j,
            forall|i: int| 0 <= i < m@.len() ==> i64::MIN <= #[trigger] m@[i] + k + b <= i64::MAX,
            forall|i: int| 0 <= i < j ==> #[trigger] r@[i] == euclid_rem(m@[i] + k + b, b as int),
        decreases m@.len() - j,
    {
        let c = m[j];
        assert(i64::MIN <= m@[j as int] + k + b <= i64::MAX);
        match modulo(((c as i128) + (k as i128) + (b as i128)) as i64, b) {
            Ok(v) => r.push(v),
            Err(_) => r.push(0),
        }
        j = j + 1;
    }
    r
}

/// Caesar decryption: each symbol `c` of `m` becomes `c - k` reduced into
/// `[0, |b|)`.
pub fn decrypt_cesar(k: i64, m: &[i64], b: i64) -> (r: Vec<i64>)
    requires
        b != 0,
        forall|i: int| 0 <= i < m@.len() ==> i64::MIN <= #[trigger] m@[i] - k + b <= i64::MAX,
    ensures
        r@.len() == m@.len(),
        forall|i: int| 0 <= i < m@.len() ==> #[trigger] r@[i] == euclid_rem(m@[i] - k + b, b as int),
{
    let mut r: Vec<i64> = Vec::new();
    let mut j: usize = 0;
    while j < m.len()
        invariant
            b != 0,
            j <= m@.len(),
            r@.len() == j,
            forall|i: int| 0 <= i < m@.len() ==> i64::MIN <= #[trigger] m@[i] - k + b <= i64::MAX,
            forall|i: int| 0 <= i < j ==> #[trigger] r@[i] == euclid_rem(m@[i] - k + b, b as int),
        decreases m@.len() - j,
    {
        let c = m[j];
        assert(i64::MIN <= m@[j as int] - k + b <= i64::MAX);
        match modulo(((c as i128) - (k as i128) + (b as i128)) as i64, b) {
            Ok(v) => r.push(v),
            Err(_) => r.push(0),
        }
        j = j + 1;
    }
    r
}

/// Encrypting then decrypting with the same key gives back every symbol that
/// already lay in `[0, |b|)`.
pub proof fn lemma_cesar_round_trip(k: int, c: int, b: int)
    requires
        b != 0,
        0 <= c < abs_of(b),
    ensures
        euclid_rem(euclid_rem(c + k + b, b) - k + b, b) == c,
{
    let m = abs_of(b);
    let e = euclid_rem(c + k + b, b);
    vstd::arithmetic::div_mod::lemma_fundamental_div_mod(c + k + b, m);
    let q = (c + k + b) / m;
    assert(e - k + b == c + 2 * b - m * q);
    assert(c + 2 * b - m * q == c + m * (2 * (b / m) - q)) by {
        if b > 0 {
            assert(b / m == 1) by {
                vstd::arithmetic::div_mod::lemma_div_by_self(m);
            }
        } else {
            assert(b / m == -1) by {
                vstd::arithmetic::div_mod::lemma_fundamental_div_mod_converse(b, m, -1, 0);
            }
        }
        assert(m * (2 * (b / m) - q) == 2 * (m * (b / m)) - m * q) by (nonlinear_arith);
    }
    vstd::arithmetic::div_mod::lemma_fundamental_div_mod_converse(
        c + m * (2 * (b / m) - q),
        m,
        2 * (b / m) - q,
        c,
    );
}

/* ---------------------------------------------------------------------- */
/*                                   RSA                                  */
/* ---------------------------------------------------------------------- */

/// Euler's totient `(p - 1) * (q - 1)` of `p * q` for distinct primes.
pub open spec fn totient(p: int, q: int) -> int {
    (p - 1) * (q - 1)
}

/// Two consecutive numbers are coprime.
proof fn lemma_consecutive_coprime(n: int)
    requires
        n >= 2,
    ensures
        gcd_of(n - 1, n) == 1,
{
    let g = gcd_of(n - 1, n);
    lemma_gcd_symmetric_positive(n - 1, n);
    lemma_gcd_divides_both(n - 1, n);
    let k1 = choose|k: int| #[trigger] (g * k) == n - 1;
    let k2 = choose|k: int| #[trigger] (g * k) == n;
    assert(g * (k2 - k1) == 1) by (nonlinear_arith)
        requires
            g * k1 == n - 1,
            g * k2 == n,
    ;
    assert(g == 1) by (nonlinear_arith)
        requires
            g * (k2 - k1) == 1,
            g > 0,
    ;
}

/// A product `e * u` that is `1` more than a multiple of `m > 1` leaves `1`
/// modulo `m`.
proof fn lemma_inverse_mod(e: int, u: int, m: int, v: int)
    requires
        m > 1,
        e * u + m * v == 1,
    ensures
        (e * u) % m == 1,
{
    assert(e * u == (-v) * m + 1) by (nonlinear_arith)
        requires
            e * u + m * v == 1,
    ;
    vstd::arithmetic::div_mod::lemma_fundamental_div_mod_converse(e * u, m, -v, 1);
}

/// The RSA exponents are inverse modulo the totient: with `e` the largest
/// exponent below the totient that is coprime with it, and `d` its Bezout
/// coefficient reduced modulo the totient, `e * d` leaves `1`.
pub proof fn lemma_rsa_exponents_inverse(p: int, q: int)
    requires
        totient(p, q) >= 2,
    ensures
        ({
            let phi = totient(p, q);
            let e = phi - 1;
            let d = euclid_rem(bezout_spec(e, phi).0, phi);
            euclid_rem(e * d, phi) == 1
        }),
{
    let phi = totient(p, q);
    let e = phi - 1;
    let (u, v, g) = bezout_spec(e, phi);
    lemma_bezout_identity(e, phi);
    lemma_consecutive_coprime(phi);
    lemma_inverse_mod(e, u, phi, v);
    vstd::arithmetic::div_mod::lemma_mul_mod_noop_right(e, u, phi);
}

/// RSA key generation from two primes `p` and `q`: with `n = p * q` and the
/// totient `phi = (p - 1) * (q - 1)`, the public exponent `e` is the first
/// number from `phi - 1` down to `1` that is coprime with `phi` (always
/// `phi - 1`), and the private exponent `d` is its Bezout coefficient against
/// `phi`, reduced into `[0, phi)`. Returns `((n, e), (n, d))`. A totient
/// below `2`, which leaves no exponent to pick, is refused with `NoValidKey`;
/// otherwise equal primes are refused with `Precondition`.
pub fn generate_keys_rsa(p: i64, q: i64) -> (r: Result<((i64, i64), (i64, i64)), CryptoError>)
    requires
        i64::MIN <= p * q <= i64::MAX,
        -BEZOUT_LIMIT <= totient(p as int, q as int) <= BEZOUT_LIMIT,
    ensures
        match r {
            Ok(((n, e), (n2, d))) => {
                let phi = totient(p as int, q as int);
                &&& p != q
                &&& phi >= 2
                &&& n == p * q
                &&& n2 == n
                &&& e == phi - 1
                &&& gcd_of(e as int, phi) == 1
                &&& d == euclid_rem(bezout_spec(e as int, phi).0, phi)
            },
            Err(err) => {
                &&& totient(p as int, q as int) < 2 ==> err == CryptoError::NoValidKey
                &&& totient(p as int, q as int) >= 2 ==> p == q && err == CryptoError::Precondition
            },
        },
{
    let n = p * q;
    let phi = (((p as i128) - 1) * ((q as i128) - 1)) as i64;
    let mut e: i64 = -1;
    let mut cand: i64 = phi - 1;
    while cand >= 1
        invariant_except_break
            e == -1,
        invariant
            phi == totient(p as int, q as int),
            -BEZOUT_LIMIT <= phi <= BEZOUT_LIMIT,
            cand < phi,
            forall|c: int| cand < c < phi ==> #[trigger] gcd_of(c, phi as int) != 1,
        ensures
            e == -1 ==> cand < 1,
            e != -1 ==> e == cand && cand >= 1 && gcd_of(e as int, phi as int) == 1,
        decreases cand,
    {
        let g = match gcd(cand, phi) {
            Ok(g) => g,
            Err(_) => 0,
        };
        if g == 1 {
            e = cand;
            break;
        }
        cand = cand - 1;
    }
    if e == -1 {
        proof {
            if phi >= 2 {
                lemma_consecutive_coprime(phi as int);
                assert(gcd_of(phi - 1, phi as int) != 1);
            }
        }
        return Err(CryptoError::NoValidKey);
    }
    if p == q {
        return Err(CryptoError::Precondition);
    }
    proof {
        lemma_consecutive_coprime(phi as int);
        if e < phi - 1 {
            assert(gcd_of(phi - 1, phi as int) != 1);
        }
    }
    let (u, _v, _g) = match bezout(e, phi) {
        Ok(t) => t,
        Err(err) => return Err(err),
    };
    let d = match modulo(u, phi) {
        Ok(d) => d,
        Err(err) => return Err(err),
    };
    Ok(((n, e), (n, d)))
}

/// RSA encryption of the message `m` with the public key `(n, e)`:
/// `m^e` modulo `n`.
pub fn encrypt_rsa(m: i64, pub_key: (i64, i64)) -> (r: i64)
    requires
        pub_key.0 != 0,
        pub_key.0 as int * pub_key.0 as int <= i64::MAX,
        pub_key.1 >= 0,
    ensures
        r == mod_pow(m as int, pub_key.1 as nat, pub_key.0 as int),
{
    let (n, e) = pub_key;
    mod_power(m, e, n)
}

/// RSA decryption of the message `m` with the private key `(n, d)`:
/// `m^d` modulo `n`.
pub fn decrypt_rsa(m: i64, priv_key: (i64, i64)) -> (r: i64)
    requires
        priv_key.0 != 0,
        priv_key.0 as int * priv_key.0 as int <= i64::MAX,
        priv_key.1 >= 0,
    ensures
        r == mod_pow(m as int, priv_key.1 as nat, priv_key.0 as int),
{
    let (n, d) = priv_key;
    mod_power(m, d, n)
}

/* ---------------------------------------------------------------------- */
/*                                 ElGamal                                */
/* ---------------------------------------------------------------------- */

/// `p` is a safe prime: `p = 2 * q + 1` with `p` and `q` prime.
pub open spec fn is_safe_prime(p: int) -> bool {
    &&& p >= 5
    &&& p % 2 == 1
    &&& no_small_divisor(p)
    &&& no_small_divisor((p - 1) / 2)
}

/// For a safe prime `p = 2 * q + 1`, `g` generates the multiplicative group:
/// neither `g^2` nor `g^q` is `1` modulo `p`, so the order of `g` is `2 * q`.
pub open spec fn is_generator(g: int, p: int) -> bool {
    mod_pow(g, 2, p) != 1 && mod_pow(g, ((p - 1) / 2) as nat, p) != 1
}

/// The message that ElGamal decryption recovers from `(msg_a, msg_b)` with
/// the private key `a`: `msg_b` times the Bezout inverse of the shared
/// secret `msg_a^a`, modulo `p`.
pub open spec fn elgamal_plain(msg_a: int, msg_b: int, a: int, p: int) -> int {
    euclid_rem(msg_b * bezout_spec(mod_pow(msg_a, a as nat, p), p).0, p)
}

proof fn lemma_divides_mod(p: int, x: int)
    requires
        p > 0,
    ensures
        divides(p, x) <==> x % p == 0,
{
    if divides(p, x) {
        let k = choose|k: int| #[trigger] (p * k) == x;
        vstd::arithmetic::div_mod::lemma_mod_multiples_basic(k, p);
        vstd::arithmetic::mul::lemma_mul_is_commutative(k, p);
    }
    if x % p == 0 {
        vstd::arithmetic::div_mod::lemma_fundamental_div_mod(x, p);
        assert(p * (x / p) == x);
    }
}

/// A prime is coprime with every number that it does not divide.
proof fn lemma_prime_coprime(p: int, x: int)
    requires
        is_prime_number(p),
        x % p != 0,
    ensures
        gcd_of(x, p) == 1,
{
    let g = gcd_of(x, p);
    lemma_gcd_symmetric_positive(x, p);
    lemma_gcd_divides_both(x, p);
    let k = choose|k: int| #[trigger] (g * k) == p;
    assert(k >= 1 && g <= p) by (nonlinear_arith)
        requires
            g * k == p,
            g > 0,
            p >= 2,
    ;
    if 2 <= g < p {
        vstd::arithmetic::div_mod::lemma_mod_multiples_basic(k, g);
        vstd::arithmetic::mul::lemma_mul_is_commutative(k, g);
        assert(p % g == 0);
    }
    if g == p {
        lemma_divides_mod(p, x);
    }
}

/// Euclid's lemma: a prime that divides a product and not its first factor
/// divides the second.
proof fn lemma_euclid_prime(p: int, x: int, y: int)
    requires
        is_prime_number(p),
        x % p != 0,
        (x * y) % p == 0,
    ensures
        y % p == 0,
{
    lemma_prime_coprime(p, x);
    lemma_bezout_identity(x, p);
    let (u, v, d) = bezout_spec(x, p);
    lemma_divides_mod(p, x * y);
    let j = choose|j: int| #[trigger] (p * j) == x * y;
    assert(p * (j * u + y * v) == y) by (nonlinear_arith)
        requires
            p * j == x * y,
            x * u + p * v == 1,
    ;
    lemma_divides_mod(p, y);
}

/// A prime that does not divide `g` divides none of its powers.
proof fn lemma_prime_not_divides_pow(p: int, g: int, n: nat)
    requires
        is_prime_number(p),
        g % p != 0,
    ensures
        power_of(g, n) % p != 0,
    decreases n,
{
    reveal(power_of);
    if n == 0 {
        vstd::arithmetic::div_mod::lemma_small_mod(1, p as nat);
    } else {
        lemma_prime_not_divides_pow(p, g, (n - 1) as nat);
        if power_of(g, n) % p == 0 {
            lemma_euclid_prime(p, g, power_of(g, (n - 1) as nat));
        }
    }
}

/// Raising `g^x` reduced modulo `p` to the power `y` gives `g^(x * y)`
/// modulo `p`.
proof fn lemma_mod_pow_of_mod_pow(g: int, x: nat, y: nat, p: int)
    requires
        p > 1,
        x >= 1,
        y >= 1,
    ensures
        mod_pow(mod_pow(g, x, p), y, p) == power_of(g, x * y) % p,
{
    vstd::arithmetic::power::lemma_pow_mod_noop(power_of(g, x), y, p);
    vstd::arithmetic::power::lemma_pow_multiplies(g, x, y);
    assert(x * y >= 1) by (nonlinear_arith)
        requires
            x >= 1,
            y >= 1,
    ;
}

/// ElGamal round trip: over a safe prime `p` with a generator `g`, a message
/// in `[0, p)` encrypted for the public key `g^a` with the ephemeral secret
/// `b` is decrypted with the private key `a` into itself.
pub proof fn lemma_elgamal_round_trip(p: int, g: int, a: int, b: int, m: int)
    requires
        is_safe_prime(p),
        2 <= g < p,
        is_generator(g, p),
        1 <= a <= p - 2,
        1 <= b <= p - 2,
        0 <= m < p,
    ensures
        ({
            let k = mod_pow(g, a as nat, p);
            let msg_a = mod_pow(g, b as nat, p);
            let msg_b = euclid_rem(m * mod_pow(k, b as nat, p), p);
            elgamal_plain(msg_a, msg_b, a, p) == m
        }),
{
    lemma_no_small_divisor_is_prime(p);
    let k = mod_pow(g, a as nat, p);
    let msg_a = mod_pow(g, b as nat, p);
    lemma_mod_pow_of_mod_pow(g, a as nat, b as nat, p);
    lemma_mod_pow_of_mod_pow(g, b as nat, a as nat, p);
    let e = (a * b) as nat;
    assert((a as nat) * (b as nat) == e && (b as nat) * (a as nat) == e) by (nonlinear_arith)
        requires
            e == a * b,
            a >= 1,
            b >= 1,
    ;
    let t = power_of(g, e) % p;
    vstd::arithmetic::div_mod::lemma_small_mod(g as nat, p as nat);
    lemma_prime_not_divides_pow(p, g, e);
    vstd::arithmetic::div_mod::lemma_mod_bound(power_of(g, e), p);
    vstd::arithmetic::div_mod::lemma_small_mod(t as nat, p as nat);
    lemma_prime_coprime(p, t);
    lemma_bezout_identity(t, p);
    let (u, v, d) = bezout_spec(t, p);
    assert(t * u + p * v == 1);
    let msg_b = euclid_rem(m * t, p);
    vstd::arithmetic::div_mod::lemma_mul_mod_noop_left(m * t, u, p);
    assert((m * t) * u == m + p * (-(m * v))) by (nonlinear_arith)
        requires
            t * u + p * v == 1,
    ;
    vstd::arithmetic::div_mod::lemma_fundamental_div_mod_converse(m + p * (-(m * v)), p, -(m * v), m);
}

/// A modulus whose square fits in an `i64` lies well inside its range.
proof fn lemma_small_modulus(p: int)
    requires
        p * p <= i64::MAX,
    ensures
        -3037000500 < p < 3037000500,
{
    if p >= 3037000500 || p <= -3037000500 {
        assert(p * p >= 3037000500 * 3037000500) by (nonlinear_arith)
            requires
                p >= 3037000500 || p <= -3037000500,
        ;
    }
}

/// ElGamal public data for a safe prime `p`: the smallest generator `g` in
/// `[2, p)`, returned as `(g, p)`. A `p` that is not a safe prime is refused
/// with `Precondition`; `NoValidKey` comes when no number in `[2, p)` is a
/// generator.
pub fn public_data_g(p: i64) -> (r: Result<(i64, i64), CryptoError>)
    requires
        p as int * p as int <= i64::MAX,
    ensures
        match r {
            Ok((g, p2)) => {
                &&& is_safe_prime(p as int)
                &&& p2 == p
                &&& 2 <= g < p
                &&& is_generator(g as int, p as int)
                &&& forall|h: int| 2 <= h < g ==> !is_generator(h, p as int)
            },
            Err(e) => {
                ||| !is_safe_prime(p as int) && e == CryptoError::Precondition
                ||| {
                    &&& is_safe_prime(p as int)
                    &&& e == CryptoError::NoValidKey
                    &&& forall|h: int| 2 <= h < p ==> !is_generator(h, p as int)
                }
            },
        },
{
    if p < 5 {
        return Err(CryptoError::Precondition);
    }
    let odd = match modulo(p, 2) {
        Ok(v) => v,
        Err(e) => return Err(e),
    };
    if odd != 1 {
        return Err(CryptoError::Precondition);
    }
    let q = match quot(p - 1, 2) {
        Ok(v) => v,
        Err(e) => return Err(e),
    };
    if !is_prime(p) || !is_prime(q) {
        return Err(CryptoError::Precondition);
    }
    assert(is_safe_prime(p as int));
    let mut g: i64 = 2;
    while g < p
        invariant
            2 <= g <= p,
            is_safe_prime(p as int),
            q as int == (p - 1) / 2,
            q >= 2,
            p as int * p as int <= i64::MAX,
            forall|h: int| 2 <= h < g ==> !is_generator(h, p as int),
        decreases p - g,
    {
        if mod_power(g, 2, p) != 1 && mod_power(g, q, p) != 1 {
            return Ok((g, p));
        }
        g = g + 1;
    }
    Err(CryptoError::NoValidKey)
}

/// ElGamal key generation from the public data `(g, p)` and a private key
/// `a` in `[1, p - 2]`, drawn by the caller: returns `(k, a)` with the public
/// key `k = g^a` modulo `p`. A private key out of range is refused with
/// `InvalidArgument`.
pub fn generate_keys_g(g: i64, p: i64, a: i64) -> (r: Result<(i64, i64), CryptoError>)
    requires
        p as int * p as int <= i64::MAX,
    ensures
        match r {
            Ok((k, a2)) => 1 <= a <= p - 2 && a2 == a && k == mod_pow(g as int, a as nat, p as int),
            Err(e) => !(1 <= a <= p - 2) && e == CryptoError::InvalidArgument,
        },
{
    proof {
        lemma_small_modulus(p as int);
    }
    if a < 1 || a > p - 2 {
        return Err(CryptoError::InvalidArgument);
    }
    let k = mod_power(g, a, p);
    Ok((k, a))
}

/// ElGamal encryption of `msg` for the public key `k_a` over the public data
/// `(g, p)`, with the ephemeral secret `b` in `[1, p - 2]` drawn by the
/// caller: returns `(g^b, msg * k_a^b)`, both modulo `p`. An ephemeral secret
/// out of range is refused with `InvalidArgument`.
pub fn encrypt_g(msg: i64, pub_data: (i64, i64), k_a: i64, b: i64) -> (r: Result<(i64, i64), CryptoError>)
    requires
        pub_data.1 as int * pub_data.1 as int <= i64::MAX,
    ensures
        ({
            let (g, p) = pub_data;
            match r {
                Ok((msg_a, msg_b)) => {
                    &&& 1 <= b <= p - 2
                    &&& msg_a == mod_pow(g as int, b as nat, p as int)
                    &&& msg_b == euclid_rem(msg * mod_pow(k_a as int, b as nat, p as int), p as int)
                },
                Err(e) => !(1 <= b <= p - 2) && e == CryptoError::InvalidArgument,
            }
        }),
{
    let (g, p) = pub_data;
    proof {
        lemma_small_modulus(p as int);
    }
    if b < 1 || b > p - 2 {
        return Err(CryptoError::InvalidArgument);
    }
    let msg_a = mod_power(g, b, p);
    let mask = mod_power(k_a, b, p);
    let m = match modulo(msg, p) {
        Ok(v) => v,
        Err(e) => return Err(e),
    };
    assert(m * mask <= p * p) by (nonlinear_arith)
        requires
            0 <= m < p,
            0 <= mask < p,
    ;
    let msg_b = match modulo(m * mask, p) {
        Ok(v) => v,
        Err(e) => return Err(e),
    };
    proof {
        vstd::arithmetic::div_mod::lemma_mul_mod_noop_left(msg as int, mask as int, p as int);
    }
    Ok((msg_a, msg_b))
}

/// ElGamal decryption of `(msg_a, msg_b)` with the private key `a`: the
/// shared secret `s = msg_a^a` modulo `p` is inverted with its Bezout
/// coefficient against `p`, and `msg_b * s^-1` modulo `p` is returned. A
/// negative key, which cannot serve as an exponent, and a zero modulus are
/// refused with `InvalidArgument`.
pub fn decrypt_g(msg: (i64, i64), a: i64, pub_data: (i64, i64)) -> (r: Result<i64, CryptoError>)
    requires
        pub_data.1 as int * pub_data.1 as int <= i64::MAX,
    ensures
        ({
            let p = pub_data.1;
            match r {
                Ok(m) => a >= 0 && p != 0 && m == elgamal_plain(msg.0 as int, msg.1 as int, a as int, p as int),
                Err(e) => (a < 0 || p == 0) && e == CryptoError::InvalidArgument,
            }
        }),
{
    let (msg_a, msg_b) = msg;
    let (_g, p) = pub_data;
    proof {
        lemma_small_modulus(p as int);
    }
    if a < 0 || p == 0 {
        return Err(CryptoError::InvalidArgument);
    }
    let s = mod_power(msg_a, a, p);
    assert(-BEZOUT_LIMIT <= s <= BEZOUT_LIMIT);
    let (u, _v, _d) = match bezout(s, p) {
        Ok(t) => t,
        Err(e) => return Err(e),
    };
    let inv = match modulo(u, p) {
        Ok(v) => v,
        Err(e) => return Err(e),
    };
    let mb = match modulo(msg_b, p) {
        Ok(v) => v,
        Err(e) => return Err(e),
    };
    assert(mb * inv <= p * p) by (nonlinear_arith)
        requires
            0 <= mb < abs_of(p as int),
            0 <= inv < abs_of(p as int),
    ;
    let m = match modulo(mb * inv, p) {
        Ok(v) => v,
        Err(e) => return Err(e),
    };
    proof {
        vstd::arithmetic::div_mod::lemma_mul_mod_noop_general(msg_b as int, u as int, abs_of(p as int));
    }
    Ok(m)
}

} // verus!
