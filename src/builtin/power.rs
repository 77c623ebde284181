use vstd::prelude::*;

use vstd::arithmetic::power::pow as power_of;

use crate::builtin::builtins::{abs_of, div, modulo};
use crate::error::CryptoError;

verus! {

/// `v` can be held in an `i64`.
pub open spec fn fits_i64(v: int) -> bool {
    i64::MIN <= v <= i64::MAX
}

/// What `mod_power(x, n, m)` returns: `1` for a zero exponent, which is left
/// unreduced, and otherwise `x^n` reduced into `[0, |m|)`.
pub open spec fn mod_pow(x: int, n: nat, m: int) -> int {
    if n == 0 {
        1
    } else {
        power_of(x, n) % abs_of(m)
    }
}

/// For a non-zero base, a power with a smaller exponent is no larger in
/// magnitude, so it fits wherever the larger one does.
proof fn lemma_pow_fits(x: int, i: nat, n: nat)
    requires
        x != 0,
        i <= n,
        fits_i64(power_of(x, n)),
    ensures
        fits_i64(power_of(x, i)),
{
    lemma_pow_abs_mono(x, i, n);
}

proof fn lemma_pow_abs_mono(x: int, i: nat, n: nat)
    requires
        i <= n,
        x != 0,
    ensures
        1 <= abs_of(power_of(x, i)) <= abs_of(power_of(x, n)),
        i < n && abs_of(x) >= 2 ==> abs_of(power_of(x, i)) < abs_of(power_of(x, n)),
        abs_of(x) == 1 ==> abs_of(power_of(x, i)) == 1,
    decreases n,
{
    reveal(power_of);
    if i < n {
        lemma_pow_abs_mono(x, i, (n - 1) as nat);
        let p = power_of(x, (n - 1) as nat);
        assert(power_of(x, n) == x * p);
        assert(abs_of(p) <= abs_of(x * p) && (abs_of(x) >= 2 ==> abs_of(p) < abs_of(x * p))
            && (abs_of(x) == 1 ==> abs_of(x * p) == abs_of(p))) by (nonlinear_arith)
            requires
                x != 0,
                abs_of(p) >= 1,
        ;
    } else if n == 0 {
        assert(power_of(x, 0) == 1);
    } else {
        lemma_pow_abs_mono(x, (n - 1) as nat, (n - 1) as nat);
        let p = power_of(x, (n - 1) as nat);
        assert(power_of(x, n) == x * p);
        assert(1 <= abs_of(x * p) && (abs_of(x) == 1 ==> abs_of(x * p) == abs_of(p))) by (nonlinear_arith)
            requires
                x != 0,
                abs_of(p) >= 1,
        ;
    }
}

proof fn lemma_pow_fits_zero_base(x: int, n: nat)
    requires
        x == 0,
    ensures
        fits_i64(power_of(x, n)),
{
    reveal(power_of);
    if n > 0 {
        assert(power_of(x, n) == x * power_of(x, (n - 1) as nat));
    }
}

/// Squaring the base doubles the exponent.
proof fn lemma_pow_square(x: int, q: nat)
    ensures
        power_of(x * x, q) == power_of(x, 2 * q),
{
    vstd::arithmetic::power::lemma_square_is_pow2(x);
    vstd::arithmetic::power::lemma_pow_multiplies(x, 2, q);
}

/// One more factor of the base adds one to the exponent.
proof fn lemma_pow_succ(x: int, e: nat)
    ensures
        power_of(x, e + 1) == x * power_of(x, e),
{
    reveal(power_of);
    assert(power_of(x, e + 1) == x * power_of(x, ((e + 1) - 1) as nat));
}

/// `x` to the power `n`, by `n` multiplications. A negative exponent is
/// refused with `InvalidArgument`.
pub fn pow(x: i64, n: i64) -> (r: Result<i64, CryptoError>)
    requires
        n < 0 || fits_i64(power_of(x as int, n as nat)),
    ensures
        match r {
            Ok(v) => n >= 0 && v == power_of(x as int, n as nat),
            Err(e) => n < 0 && e == CryptoError::InvalidArgument,
        },
{
    if n < 0 {
        return Err(CryptoError::InvalidArgument);
    }
    let mut result: i64 = 1;
    let mut i: i64 = 0;
    proof {
        reveal(power_of);
    }
    while i < n
        invariant
            0 <= i <= n,
            fits_i64(power_of(x as int, n as nat)),
            result == power_of(x as int, i as nat),
        decreases n - i,
    {
        proof {
            lemma_pow_succ(x as int, i as nat);
            if x == 0 {
                lemma_pow_fits_zero_base(x as int, (i + 1) as nat);
            } else {
                lemma_pow_fits(x as int, (i + 1) as nat, n as nat);
            }
        }
        assert(power_of(x as int, (i + 1) as nat) == x * power_of(x as int, i as nat));
        assert(result * x == power_of(x as int, (i + 1) as nat)) by (nonlinear_arith)
            requires
                result == power_of(x as int, i as nat),
                power_of(x as int, (i + 1) as nat) == x * power_of(x as int, i as nat),
        ;
        result = result * x;
        i = i + 1;
    }
    Ok(result)
}

/// `x` to the power `n`, by repeated squaring: the exponent is halved with
/// `div(n, 2)` and an extra factor `x` is taken when it was odd.
pub fn power(x: i64, n: i64) -> (r: i64)
    requires
        n >= 0,
        fits_i64(power_of(x as int, n as nat)),
    ensures
        r == power_of(x as int, n as nat),
    decreases n,
{
    if n == 0 {
        proof {
            reveal(power_of);
        }
        return 1;
    }
    let (q, rem) = match div(n, 2) {
        Ok(p) => p,
        Err(_) => return 1,
    };
    if q == 0 {
        proof {
            vstd::arithmetic::power::lemma_pow1(x as int);
        }
        return x;
    }
    proof {
        vstd::arithmetic::power::lemma_square_is_pow2(x as int);
        if x == 0 {
            lemma_pow_fits_zero_base(x as int, 2);
            lemma_pow_fits_zero_base(x as int, (2 * q) as nat);
        } else {
            lemma_pow_fits(x as int, 2, n as nat);
            lemma_pow_fits(x as int, (2 * q) as nat, n as nat);
        }
        lemma_pow_square(x as int, q as nat);
    }
    let half = power(x * x, q);
    if rem == 0 {
        half
    } else {
        proof {
            lemma_pow_succ(x as int, (2 * q) as nat);
        }
        x * half
    }
}

/// `x` to the power `n` modulo `m`, by repeated squaring, with every product
/// reduced into `[0, |m|)` as soon as it is formed. A zero exponent gives `1`,
/// unreduced.
pub fn mod_power(x: i64, n: i64, m: i64) -> (r: i64)
    requires
        n >= 0,
        m != 0,
        m as int * m as int <= i64::MAX,
    ensures
        r == mod_pow(x as int, n as nat, m as int),
        n != 0 || abs_of(m as int) > 1 ==> 0 <= r < abs_of(m as int),
    decreases n,
{
    if n == 0 {
        return 1;
    }
    let (q, rem) = match div(n, 2) {
        Ok(p) => p,
        Err(_) => return 1,
    };
    let base = match modulo(x, m) {
        Ok(v) => v,
        Err(_) => return 1,
    };
    let ghost mm = abs_of(m as int);
    assert(base * base <= m * m) by (nonlinear_arith)
        requires
            0 <= base < mm,
            mm == abs_of(m as int),
    ;
    let square = match modulo(base * base, m) {
        Ok(v) => v,
        Err(_) => return 1,
    };
    let half = mod_power(square, q, m);
    proof {
        let xi = x as int;
        vstd::arithmetic::div_mod::lemma_mod_bound(xi, mm);
        // the reduced square stands for x * x
        vstd::arithmetic::div_mod::lemma_mul_mod_noop_general(xi, xi, mm);
        vstd::arithmetic::power::lemma_square_is_pow2(xi);
        if q > 0 {
            vstd::arithmetic::power::lemma_pow_mod_noop(xi * xi, q as nat, mm);
            lemma_pow_square(xi, q as nat);
            vstd::arithmetic::div_mod::lemma_mod_bound(power_of(xi, (2 * q) as nat), mm);
            assert(half == power_of(xi, (2 * q) as nat) % mm);
        } else {
            reveal(power_of);
            assert(power_of(xi, 0) == 1);
        }
    }
    if rem == 0 {
        assert(half < mm);
        match modulo(half, m) {
            Ok(v) => {
                proof {
                    vstd::arithmetic::div_mod::lemma_mod_twice(power_of(x as int, (2 * q) as nat), mm);
                }
                v
            },
            Err(_) => 1,
        }
    } else {
        assert(0 <= half <= mm);
        assert(base * half <= m * m) by (nonlinear_arith)
            requires
                0 <= base < mm,
                0 <= half <= mm,
                mm == abs_of(m as int),
        ;
        match modulo(base * half, m) {
            Ok(v) => {
                proof {
                    let xi = x as int;
                    let e = (2 * q) as nat;
                    lemma_pow_succ(xi, e);
                    if q > 0 {
                        vstd::arithmetic::div_mod::lemma_mul_mod_noop_general(xi, power_of(xi, e), mm);
                    } else {
                        reveal(power_of);
                        assert(power_of(xi, e) == 1);
                        vstd::arithmetic::div_mod::lemma_mod_twice(xi, mm);
                    }
                }
                v
            },
            Err(_) => 1,
        }
    }
}

/// Modular exponentiation for a prime modulus. It computes exactly what
/// `mod_power` does; the exponent is not reduced modulo `p - 1`.
pub fn prime_mod_power(x: i64, n: i64, p: i64) -> (r: i64)
    requires
        n >= 0,
        p != 0,
        p as int * p as int <= i64::MAX,
    ensures
        r == mod_pow(x as int, n as nat, p as int),
        n != 0 || abs_of(p as int) > 1 ==> 0 <= r < abs_of(p as int),
{
    mod_power(x, n, p)
}

} // verus!
