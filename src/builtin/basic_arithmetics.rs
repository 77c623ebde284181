use vstd::prelude::*;

use crate::builtin::builtins::{abs_of, div, euclid_quot, euclid_rem, sign};
use crate::error::CryptoError;

verus! {

/// `d` divides `x`: some integer multiple of `d` is `x`.
pub open spec fn divides(d: int, x: int) -> bool {
    exists|k: int| #[trigger] (d * k) == x
}

/// Euclid's recursion on natural numbers: `gcd_nat(a, 0) == a`.
pub open spec fn gcd_nat(a: nat, b: nat) -> nat
    decreases b,
{
    if b == 0 {
        a
    } else {
        gcd_nat(b, a % b)
    }
}

/// The greatest common divisor of `|a|` and `|b|`; `0` only when both are zero.
pub open spec fn gcd_of(a: int, b: int) -> int {
    gcd_nat(abs_of(a) as nat, abs_of(b) as nat) as int
}

proof fn lemma_divides_refl(x: int)
    ensures
        divides(x, x),
{
    assert(x * 1 == x);
}

proof fn lemma_divides_zero(d: int)
    ensures
        divides(d, 0),
{
    assert(d * 0 == 0);
}

proof fn lemma_divides_neg(d: int, x: int)
    ensures
        divides(d, x) <==> divides(d, -x),
{
    if divides(d, x) {
        let k = choose|k: int| #[trigger] (d * k) == x;
        assert(d * (-k) == -x) by (nonlinear_arith)
            requires
                d * k == x,
        ;
    }
    if divides(d, -x) {
        let k = choose|k: int| #[trigger] (d * k) == -x;
        assert(d * (-k) == x) by (nonlinear_arith)
            requires
                d * k == -x,
        ;
    }
}

proof fn lemma_divides_abs(d: int, x: int)
    ensures
        divides(d, x) <==> divides(d, abs_of(x)),
{
    lemma_divides_neg(d, x);
}

/// A common divisor of `x` and `y` divides `x + c * y`.
proof fn lemma_divides_lin(d: int, x: int, y: int, c: int)
    requires
        divides(d, x),
        divides(d, y),
    ensures
        divides(d, x + c * y),
{
    let kx = choose|k: int| #[trigger] (d * k) == x;
    let ky = choose|k: int| #[trigger] (d * k) == y;
    assert(d * (kx + c * ky) == x + c * y) by (nonlinear_arith)
        requires
            d * kx == x,
            d * ky == y,
    ;
}

/// Two non-negative numbers that divide each other are equal.
proof fn lemma_divides_antisym(x: int, y: int)
    requires
        x >= 0,
        y >= 0,
        divides(x, y),
        divides(y, x),
    ensures
        x == y,
{
    let k = choose|k: int| #[trigger] (x * k) == y;
    let j = choose|j: int| #[trigger] (y * j) == x;
    if x != 0 {
        assert(x * (k * j) == x * 1) by (nonlinear_arith)
            requires
                x * k == y,
                y * j == x,
        ;
        vstd::arithmetic::mul::lemma_mul_equality_converse(x, k * j, 1);
        assert(k == 1 || k == -1) by (nonlinear_arith)
            requires
                k * j == 1,
        ;
        assert(x == y) by (nonlinear_arith)
            requires
                x * k == y,
                k == 1 || k == -1,
                x > 0,
                y >= 0,
        ;
    } else {
        assert(y == 0) by (nonlinear_arith)
            requires
                x * k == y,
                x == 0,
        ;
    }
}

proof fn lemma_gcd_nat_divisors(a: nat, b: nat, d: int)
    ensures
        divides(d, gcd_nat(a, b) as int) <==> (divides(d, a as int) && divides(d, b as int)),
    decreases b,
{
    if b == 0 {
        lemma_divides_zero(d);
    } else {
        lemma_gcd_nat_divisors(b, a % b, d);
        vstd::arithmetic::div_mod::lemma_fundamental_div_mod(a as int, b as int);
        let q = (a as int) / (b as int);
        if divides(d, b as int) && divides(d, (a % b) as int) {
            lemma_divides_lin(d, (a % b) as int, b as int, q);
            assert((a % b) as int + q * b == a) by (nonlinear_arith)
                requires
                    a == b * q + a % b,
            ;
        }
        if divides(d, a as int) && divides(d, b as int) {
            lemma_divides_lin(d, a as int, b as int, -q);
            assert(a + (-q) * b == (a % b) as int) by (nonlinear_arith)
                requires
                    a == b * q + a % b,
            ;
        }
    }
}

/// The divisors of `gcd_of(a, b)` are exactly the common divisors of `a` and
/// `b`.
pub proof fn lemma_gcd_divisors(a: int, b: int, d: int)
    ensures
        divides(d, gcd_of(a, b)) <==> (divides(d, a) && divides(d, b)),
{
    lemma_gcd_nat_divisors(abs_of(a) as nat, abs_of(b) as nat, d);
    lemma_divides_abs(d, a);
    lemma_divides_abs(d, b);
}

/// `gcd_of(a, b)` divides both `a` and `b`.
pub proof fn lemma_gcd_divides_both(a: int, b: int)
    ensures
        divides(gcd_of(a, b), a),
        divides(gcd_of(a, b), b),
{
    lemma_divides_refl(gcd_of(a, b));
    lemma_gcd_divisors(a, b, gcd_of(a, b));
}

/// Two pairs with the same common divisors have the same greatest common
/// divisor.
proof fn lemma_gcd_same_divisors(a: int, b: int, c: int, e: int)
    requires
        forall|d: int| (divides(d, a) && divides(d, b)) <==> (divides(d, c) && divides(d, e)),
    ensures
        gcd_of(a, b) == gcd_of(c, e),
{
    let g1 = gcd_of(a, b);
    let g2 = gcd_of(c, e);
    lemma_gcd_divides_both(a, b);
    lemma_gcd_divides_both(c, e);
    lemma_gcd_divisors(c, e, g1);
    lemma_gcd_divisors(a, b, g2);
    lemma_divides_antisym(g1, g2);
}

proof fn lemma_gcd_nat_positive(a: nat, b: nat)
    requires
        a != 0 || b != 0,
    ensures
        gcd_nat(a, b) > 0,
    decreases b,
{
    if b != 0 {
        lemma_gcd_nat_positive(b, a % b);
    }
}

/// One step of Euclid's algorithm keeps the greatest common divisor.
pub proof fn lemma_gcd_step(a: int, b: int)
    requires
        b != 0,
    ensures
        gcd_of(a, b) == gcd_of(b, euclid_rem(a, b)),
{
    let r = euclid_rem(a, b);
    let q = euclid_quot(a, b);
    crate::builtin::builtins::lemma_euclid_division(a, b);
    assert forall|d: int| (divides(d, a) && divides(d, b)) <==> (divides(d, b) && divides(d, r)) by {
        if divides(d, a) && divides(d, b) {
            lemma_divides_lin(d, a, b, -q);
            assert(a + (-q) * b == r) by (nonlinear_arith)
                requires
                    a == b * q + r,
            ;
        }
        if divides(d, b) && divides(d, r) {
            lemma_divides_lin(d, r, b, q);
            assert(r + q * b == a) by (nonlinear_arith)
                requires
                    a == b * q + r,
            ;
        }
    }
    lemma_gcd_same_divisors(a, b, b, r);
}

/// When `b` divides `a`, the greatest common divisor is `|b|`.
proof fn lemma_gcd_exact(a: int, b: int)
    requires
        b != 0,
        euclid_rem(a, b) == 0,
    ensures
        gcd_of(a, b) == abs_of(b),
{
    lemma_gcd_step(a, b);
    assert(gcd_nat(abs_of(b) as nat, 0) == abs_of(b));
}

/// The greatest common divisor does not depend on the order of its
/// arguments, and it is positive unless both arguments are zero.
pub proof fn lemma_gcd_symmetric_positive(a: int, b: int)
    requires
        a != 0 || b != 0,
    ensures
        gcd_of(a, b) == gcd_of(b, a),
        gcd_of(a, b) > 0,
{
    assert forall|d: int| (divides(d, a) && divides(d, b)) <==> (divides(d, b) && divides(d, a)) by {}
    lemma_gcd_same_divisors(a, b, b, a);
    lemma_gcd_nat_positive(abs_of(a) as nat, abs_of(b) as nat);
}

/// Greatest common (positive) divisor of `a` and `b` by Euclid's algorithm:
/// both are made non-negative, then the larger is reduced modulo the smaller
/// until the remainder is zero, and the last non-zero divisor is returned.
/// Two zero arguments are refused with `InvalidArgument`.
pub fn gcd(a: i64, b: i64) -> (r: Result<i64, CryptoError>)
    requires
        a != i64::MIN,
        b != i64::MIN,
    ensures
        match r {
            Ok(g) => (a != 0 || b != 0) && g == gcd_of(a as int, b as int) && g > 0,
            Err(e) => a == 0 && b == 0 && e == CryptoError::InvalidArgument,
        },
{
    if a == 0 && b == 0 {
        return Err(CryptoError::InvalidArgument);
    }
    let mut x = a * sign(a);
    let mut y = b * sign(b);
    proof {
        lemma_gcd_symmetric_positive(a as int, b as int);
    }
    loop
        invariant
            x >= 0,
            y >= 0,
            x != 0 || y != 0,
            gcd_of(x as int, y as int) == gcd_of(a as int, b as int),
            gcd_of(a as int, b as int) > 0,
        decreases (if x < y { x } else { y }),
    {
        if x < y {
            proof {
                lemma_gcd_symmetric_positive(x as int, y as int);
            }
            let t = x;
            x = y;
            y = t;
        }
        if y == 0 {
            return Ok(x);
        }
        let (_q, rem) = match div(x, y) {
            Ok(p) => p,
            Err(e) => return Err(e),
        };
        proof {
            lemma_gcd_step(x as int, y as int);
        }
        if rem == 0 {
            proof {
                lemma_gcd_exact(x as int, y as int);
            }
            return Ok(y);
        }
        x = y;
        y = rem;
    }
}

/// The extended Euclidean algorithm from the state `(a, b)` with the
/// coefficient pairs `(u1, v1)` and `(u2, v2)`: while `b` does not divide `a`,
/// `(a, b)` becomes `(b, r)` and the pairs become
/// `(u2, v2, u1 - q * u2, v1 - q * v2)` for the Euclidean `(q, r)` of `a` by
/// `b`; then the triple `(u2, v2, b)` is the result.
pub open spec fn bezout_from(a: int, b: int, u1: int, v1: int, u2: int, v2: int) -> (int, int, int)
    decreases abs_of(b),
{
    if b == 0 || euclid_rem(a, b) == 0 {
        (u2, v2, b)
    } else {
        let q = euclid_quot(a, b);
        bezout_from(b, euclid_rem(a, b), u2, v2, u1 - q * u2, v1 - q * v2)
    }
}

/// The triple `(u, v, d)` that `bezout(a, b)` returns: the result of the
/// algorithm from the inputs, with all three signs flipped when `d` came out
/// negative (which happens only when a negative `b` divides `a`), so that
/// `d` is always the positive greatest common divisor.
pub open spec fn bezout_spec(a: int, b: int) -> (int, int, int) {
    let (u, v, d) = bezout_from(a, b, 1, 0, 0, 1);
    if d < 0 {
        (-u, -v, -d)
    } else {
        (u, v, d)
    }
}

/// What the algorithm keeps from one step to the next: each of `a` and `b`
/// stays the combination of the inputs that its coefficients say, and their
/// greatest common divisor stays that of the inputs.
proof fn lemma_bezout_from(
    a0: int,
    b0: int,
    a: int,
    b: int,
    u1: int,
    v1: int,
    u2: int,
    v2: int,
)
    requires
        b != 0,
        a0 * u1 + b0 * v1 == a,
        a0 * u2 + b0 * v2 == b,
        gcd_of(a, b) == gcd_of(a0, b0),
    ensures
        ({
            let (u, v, d) = bezout_from(a, b, u1, v1, u2, v2);
            &&& a0 * u + b0 * v == d
            &&& abs_of(d) == gcd_of(a0, b0)
            &&& euclid_rem(a, b) == 0 ==> d == b
            &&& euclid_rem(a, b) != 0 ==> d > 0
        }),
    decreases abs_of(b),
{
    let r = euclid_rem(a, b);
    crate::builtin::builtins::lemma_euclid_division(a, b);
    if r == 0 {
        lemma_gcd_exact(a, b);
    } else {
        let q = euclid_quot(a, b);
        lemma_gcd_step(a, b);
        assert(a0 * (u1 - q * u2) + b0 * (v1 - q * v2) == r) by (nonlinear_arith)
            requires
                a0 * u1 + b0 * v1 == a,
                a0 * u2 + b0 * v2 == b,
                a == b * q + r,
        ;
        lemma_bezout_from(a0, b0, b, r, u2, v2, u1 - q * u2, v1 - q * v2);
    }
}

/// Bezout's identity: for every non-zero `b`, `bezout(a, b) = (u, v, d)` has
/// `a * u + b * v == d` and `d == gcd_of(a, b)`, which is positive.
pub proof fn lemma_bezout_identity(a: int, b: int)
    requires
        b != 0,
    ensures
        ({
            let (u, v, d) = bezout_spec(a, b);
            a * u + b * v == d && d == gcd_of(a, b) && d > 0
        }),
{
    lemma_bezout_from(a, b, a, b, 1, 0, 0, 1);
    let (u, v, d) = bezout_from(a, b, 1, 0, 0, 1);
    lemma_gcd_symmetric_positive(a, b);
    if d < 0 {
        assert(a * (-u) + b * (-v) == -d) by (nonlinear_arith)
            requires
                a * u + b * v == d,
        ;
    }
}

/// Inputs of `bezout` are bounded by this in magnitude, so that every
/// coefficient the algorithm forms fits in an `i64`.
pub const BEZOUT_LIMIT: i64 = 576460752303423488;

/// One step from the third iteration on, where `a`, `b` and `q` are
/// non-negative: the new coefficient fits within twice the weight
/// `|c1| * b + |c2| * a`, and the weight does not grow.
proof fn lemma_coefficient_step(a: int, b: int, q: int, r: int, c1: int, c2: int, w: int)
    requires
        a > 0,
        b > 0,
        q >= 0,
        a == b * q + r,
        0 <= r < b,
        abs_of(c1) * b + abs_of(c2) * a <= w,
    ensures
        abs_of(q * c2) <= w,
        abs_of(c1 - q * c2) <= 2 * w,
        abs_of(c2) * r + abs_of(c1 - q * c2) * b <= abs_of(c1) * b + abs_of(c2) * a,
{
    let t = q * c2;
    assert(abs_of(t) == q * abs_of(c2)) by (nonlinear_arith)
        requires
            t == q * c2,
            q >= 0,
    ;
    assert(q * abs_of(c2) <= abs_of(c2) * a) by (nonlinear_arith)
        requires
            a == b * q + r,
            r >= 0,
            b >= 1,
            q >= 0,
    ;
    assert(abs_of(c1) <= abs_of(c1) * b) by (nonlinear_arith)
        requires
            b >= 1,
    ;
    assert(abs_of(c2) * a >= 0) by (nonlinear_arith)
        requires
            a > 0,
    ;
    assert(abs_of(c1) * b >= 0) by (nonlinear_arith)
        requires
            b > 0,
    ;
    assert(abs_of(c1 - t) <= abs_of(c1) + abs_of(t));
    assert(abs_of(c1 - t) * b <= abs_of(c1) * b + q * abs_of(c2) * b) by (nonlinear_arith)
        requires
            abs_of(c1 - t) <= abs_of(c1) + q * abs_of(c2),
            b > 0,
    ;
    assert(abs_of(c2) * r + q * abs_of(c2) * b == abs_of(c2) * a) by (nonlinear_arith)
        requires
            a == b * q + r,
    ;
}

/// The first step, from the inputs `(a, b)` to `(b, r)`: the quotient is
/// bounded through `|q| * |b| <= |a| + |b|`.
proof fn lemma_first_step(a: int, b: int, q: int, r: int)
    requires
        b != 0,
        a == b * q + r,
        0 <= r < abs_of(b),
    ensures
        abs_of(q) * abs_of(b) <= abs_of(a) + abs_of(b),
        abs_of(q) <= abs_of(a) + abs_of(b),
{
    assert(abs_of(q) * abs_of(b) == abs_of(b * q)) by (nonlinear_arith);
    assert(abs_of(q) <= abs_of(q) * abs_of(b)) by (nonlinear_arith)
        requires
            b != 0,
    ;
}

/// The second step, from `(b, r0)` to `(r0, r1)`, where `v` is minus the
/// first quotient.
proof fn lemma_second_step(la: int, lb: int, b: int, r0: int, q: int, r1: int, v: int)
    requires
        lb == abs_of(b),
        la >= 0,
        0 < r0 < lb,
        b == r0 * q + r1,
        0 < r1 < r0,
        abs_of(v) * lb <= la + lb,
    ensures
        abs_of(q) <= 2 * lb,
        abs_of(q * v) <= 2 * (la + lb),
        r1 + abs_of(q) * r0 <= 3 * lb,
        abs_of(v) * r1 + abs_of(1 - q * v) * r0 <= 3 * la + 4 * lb,
{
    assert(abs_of(q) * r0 <= lb + r1) by (nonlinear_arith)
        requires
            b == r0 * q + r1,
            lb == abs_of(b),
            r0 > 0,
            r1 > 0,
    ;
    assert(abs_of(q) <= abs_of(q) * r0) by (nonlinear_arith)
        requires
            r0 >= 1,
    ;
    let p = abs_of(q) * abs_of(v);
    assert(abs_of(q * v) == p) by (nonlinear_arith)
        requires
            p == abs_of(q) * abs_of(v),
    ;
    assert(p * r0 * lb <= 2 * lb * (la + lb)) by (nonlinear_arith)
        requires
            p == abs_of(q) * abs_of(v),
            abs_of(q) * r0 <= 2 * lb,
            abs_of(v) * lb <= la + lb,
            r0 > 0,
            lb > 0,
    ;
    assert(p * r0 <= 2 * (la + lb)) by (nonlinear_arith)
        requires
            p * r0 * lb <= 2 * lb * (la + lb),
            lb > 0,
    ;
    assert(p <= p * r0) by (nonlinear_arith)
        requires
            r0 >= 1,
            p >= 0,
    ;
    assert(abs_of(v) * r1 <= abs_of(v) * lb) by (nonlinear_arith)
        requires
            r1 < lb,
    ;
    assert(abs_of(1 - q * v) * r0 <= r0 + p * r0) by (nonlinear_arith)
        requires
            abs_of(1 - q * v) <= 1 + p,
            r0 > 0,
    ;
}

/// Extended Euclidean algorithm: the triple `(u, v, d)` with
/// `a * u + b * v == d`, where `d > 0` is the greatest common divisor of `a`
/// and `b`. When a negative `b` divides `a` the algorithm stops at once on
/// `(0, 1, b)`, and the signs are flipped into `(0, -1, -b)`. A zero `b` is
/// refused with `InvalidArgument`.
pub fn bezout(a: i64, b: i64) -> (r: Result<(i64, i64, i64), CryptoError>)
    requires
        -BEZOUT_LIMIT <= a <= BEZOUT_LIMIT,
        -BEZOUT_LIMIT <= b <= BEZOUT_LIMIT,
    ensures
        match r {
            Ok((u, v, d)) => {
                &&& b != 0
                &&& (u as int, v as int, d as int) == bezout_spec(a as int, b as int)
                &&& a * u + b * v == d
                &&& d == gcd_of(a as int, b as int)
                &&& d > 0
            },
            Err(e) => b == 0 && e == CryptoError::InvalidArgument,
        },
{
    if b == 0 {
        return Err(CryptoError::InvalidArgument);
    }
    let ghost la = abs_of(a as int);
    let ghost lb = abs_of(b as int);
    let mut phase: u8 = 0;
    let mut x = a;
    let mut y = b;
    let (mut u1, mut v1, mut u2, mut v2): (i64, i64, i64, i64) = (1, 0, 0, 1);
    loop
        invariant
            y != 0,
            bezout_from(x as int, y as int, u1 as int, v1 as int, u2 as int, v2 as int)
                == bezout_from(a as int, b as int, 1, 0, 0, 1),
            la == abs_of(a as int),
            lb == abs_of(b as int),
            la <= BEZOUT_LIMIT,
            0 < lb <= BEZOUT_LIMIT,
            phase <= 2,
            phase == 0 ==> x == a && y == b && u1 == 1 && v1 == 0 && u2 == 0 && v2 == 1,
            phase == 1 ==> {
                &&& x == b
                &&& 0 < y < lb
                &&& u1 == 0 && v1 == 1 && u2 == 1
                &&& abs_of(v2 as int) * lb <= la + lb
            },
            phase == 2 ==> {
                &&& 0 < y < x < lb
                &&& abs_of(u1 as int) * y + abs_of(u2 as int) * x <= 3 * lb
                &&& abs_of(v1 as int) * y + abs_of(v2 as int) * x <= 3 * la + 4 * lb
            },
        decreases abs_of(y as int),
    {
        let (q, r) = match div(x, y) {
            Ok(p) => p,
            Err(e) => return Err(e),
        };
        if r == 0 {
            proof {
                lemma_bezout_identity(a as int, b as int);
            }
            if y < 0 {
                return Ok((-u2, -v2, -y));
            }
            return Ok((u2, v2, y));
        }
        let ghost qi = q as int;
        let ghost ri = r as int;
        let nu2: i64;
        let nv2: i64;
        if phase == 0 {
            proof {
                lemma_first_step(a as int, b as int, qi, ri);
            }
            nu2 = u1 - q * u2;
            nv2 = v1 - q * v2;
            phase = 1;
        } else if phase == 1 {
            proof {
                lemma_second_step(la, lb, b as int, y as int, qi, ri, v2 as int);
            }
            nu2 = u1 - q * u2;
            nv2 = v1 - q * v2;
            proof {
                let w = v2 as int;
                assert(abs_of(w) * ri <= abs_of(w) * lb) by (nonlinear_arith)
                    requires
                        ri < lb,
                ;
            }
            phase = 2;
        } else {
            proof {
                assert(qi >= 0) by (nonlinear_arith)
                    requires
                        x == y * qi + ri,
                        ri < y,
                        y > 0,
                        x > 0,
                ;
                lemma_coefficient_step(x as int, y as int, qi, ri, u1 as int, u2 as int, 3 * lb);
                lemma_coefficient_step(x as int, y as int, qi, ri, v1 as int, v2 as int, 3 * la + 4 * lb);
            }
            nu2 = u1 - q * u2;
            nv2 = v1 - q * v2;
        }
        x = y;
        y = r;
        u1 = u2;
        v1 = v2;
        u2 = nu2;
        v2 = nv2;
    }
}

} // verus!
