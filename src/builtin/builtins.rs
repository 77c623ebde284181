use vstd::prelude::*;

use crate::error::CryptoError;

verus! {

/// The sign of `x` as a factor: `-1` for negative numbers and `1` otherwise,
/// so that zero counts as positive.
pub open spec fn sign_of(x: int) -> int {
    if x < 0 {
        -1
    } else {
        1
    }
}

/// The absolute value of `x`.
pub open spec fn abs_of(x: int) -> int {
    if x < 0 {
        -x
    } else {
        x
    }
}

/// The remainder of `a` divided by a non-zero `b`, always in `[0, |b|)`
/// whatever the signs of `a` and `b`.
pub open spec fn euclid_rem(a: int, b: int) -> int {
    a % abs_of(b)
}

/// The quotient of `a` by a non-zero `b` that goes with `euclid_rem`:
/// `a == b * euclid_quot(a, b) + euclid_rem(a, b)`.
pub open spec fn euclid_quot(a: int, b: int) -> int {
    if b > 0 {
        a / b
    } else {
        -(a / abs_of(b))
    }
}

/// Euclidean division: for every `a` and every non-zero `b`, the quotient and
/// the remainder rebuild `a`, and the remainder lies in `[0, |b|)`.
pub proof fn lemma_euclid_division(a: int, b: int)
    requires
        b != 0,
    ensures
        a == b * euclid_quot(a, b) + euclid_rem(a, b),
        0 <= euclid_rem(a, b) < abs_of(b),
{
    let m = abs_of(b);
    vstd::arithmetic::div_mod::lemma_fundamental_div_mod(a, m);
    vstd::arithmetic::div_mod::lemma_mod_bound(a, m);
    if b < 0 {
        assert(a == b * (-(a / m)) + a % m) by (nonlinear_arith)
            requires
                a == m * (a / m) + a % m,
                m == -b,
        ;
    }
}

/// Verus's own `/` and `%` on a negative divisor agree with `euclid_quot`
/// and `euclid_rem`.
proof fn lemma_native_division(a: int, b: int)
    requires
        b != 0,
    ensures
        a / b == euclid_quot(a, b),
        a % b == euclid_rem(a, b),
{
    if b < 0 {
        vstd::arithmetic::div_mod::lemma_fundamental_div_mod(a, b);
        assert(a == (-(a / b)) * (-b) + a % b) by (nonlinear_arith)
            requires
                a == b * (a / b) + a % b,
        ;
        vstd::arithmetic::div_mod::lemma_fundamental_div_mod_converse(a, -b, -(a / b), a % b);
    }
}

/// The quotient fits in 64 bits except for `i64::MIN` divided by `-1`.
proof fn lemma_quot_fits(a: int, b: int)
    requires
        b != 0,
        i64::MIN <= a <= i64::MAX,
        i64::MIN <= b <= i64::MAX,
        !(a == i64::MIN && b == -1),
    ensures
        i64::MIN <= euclid_quot(a, b) <= i64::MAX,
{
    lemma_euclid_division(a, b);
    let q = euclid_quot(a, b);
    let r = euclid_rem(a, b);
    let m = abs_of(b);
    if b > 0 {
        assert(i64::MIN <= q <= i64::MAX) by (nonlinear_arith)
            requires
                a == b * q + r,
                0 <= r < b,
                i64::MIN <= a <= i64::MAX,
        ;
    } else {
        assert(i64::MIN <= q <= i64::MAX) by (nonlinear_arith)
            requires
                a == b * q + r,
                0 <= r < -b,
                b < 0,
                i64::MIN <= a <= i64::MAX,
                !(a == i64::MIN && b == -1),
        ;
    }
}

/// Returns `-1` when `x` is negative and `1` otherwise (zero included).
pub fn sign(x: i64) -> (r: i64)
    ensures
        r == sign_of(x as int),
{
    if x < 0 {
        -1
    } else {
        1
    }
}

/// The Euclidean quotient of `a` by `b`: the `q` for which `a - b * q` lies in
/// `[0, |b|)`. A zero divisor is refused with `InvalidArgument`.
pub fn quot(a: i64, b: i64) -> (r: Result<i64, CryptoError>)
    requires
        !(a == i64::MIN && b == -1),
    ensures
        match r {
            Ok(q) => b != 0 && q == euclid_quot(a as int, b as int),
            Err(e) => b == 0 && e == CryptoError::InvalidArgument,
        },
{
    if b == 0 {
        return Err(CryptoError::InvalidArgument);
    }
    proof {
        lemma_native_division(a as int, b as int);
        lemma_quot_fits(a as int, b as int);
    }
    match a.checked_div_euclid(b) {
        Some(q) => Ok(q),
        None => Err(CryptoError::InvalidArgument),
    }
}

/// The representative of `a` modulo `|b|` in `[0, |b|)`, for any signs of `a`
/// and `b`. A zero modulus is refused with `InvalidArgument`.
pub fn modulo(a: i64, b: i64) -> (r: Result<i64, CryptoError>)
    ensures
        match r {
            Ok(m) => b != 0 && m == euclid_rem(a as int, b as int) && 0 <= m < abs_of(b as int),
            Err(e) => b == 0 && e == CryptoError::InvalidArgument,
        },
{
    if b == 0 {
        return Err(CryptoError::InvalidArgument);
    }
    proof {
        lemma_euclid_division(a as int, b as int);
    }
    if b == -1 {
        return Ok(0);
    }
    proof {
        lemma_native_division(a as int, b as int);
    }
    match a.checked_rem_euclid(b) {
        Some(m) => Ok(m),
        None => Err(CryptoError::InvalidArgument),
    }
}

/// Euclidean division of `a` by `b`: the pair `(q, r)` with `a == b * q + r`
/// and `0 <= r < |b|`. A zero divisor is refused with `InvalidArgument`.
pub fn div(a: i64, b: i64) -> (res: Result<(i64, i64), CryptoError>)
    requires
        !(a == i64::MIN && b == -1),
    ensures
        match res {
            Ok((q, r)) => {
                &&& b != 0
                &&& q == euclid_quot(a as int, b as int)
                &&& r == euclid_rem(a as int, b as int)
                &&& a == b * q + r
                &&& 0 <= r < abs_of(b as int)
            },
            Err(e) => b == 0 && e == CryptoError::InvalidArgument,
        },
{
    let q = quot(a, b)?;
    let r = modulo(a, b)?;
    proof {
        lemma_euclid_division(a as int, b as int);
    }
    Ok((q, r))
}

} // verus!
