use vstd::prelude::*;

use crate::builtin::builtins::{euclid_rem, modulo};
use crate::builtin::power::{mod_pow, mod_power};

verus! {

/// No `d >= 2` with `d * d <= n` divides `n`. For `n >= 2` this is primality;
/// every `n < 4` has it.
pub open spec fn no_small_divisor(n: int) -> bool {
    forall|d: int| 2 <= d && #[trigger] (d * d) <= n ==> n % d != 0
}

/// `n` is a prime number.
pub open spec fn is_prime_number(n: int) -> bool {
    n >= 2 && forall|d: int| 2 <= d < n ==> #[trigger] (n % d) != 0
}

/// For `n >= 2`, having no divisor up to the square root is being prime.
pub proof fn lemma_no_small_divisor_is_prime(n: int)
    requires
        n >= 2,
    ensures
        no_small_divisor(n) <==> is_prime_number(n),
{
    if no_small_divisor(n) {
        assert forall|d: int| 2 <= d < n implies #[trigger] (n % d) != 0 by {
            if n % d == 0 {
                vstd::arithmetic::div_mod::lemma_fundamental_div_mod(n, d);
                let e = n / d;
                assert(n == d * e);
                if d * d > n {
                    assert(2 <= e && e * e <= n && n % e == 0) by {
                        assert(e * d == n) by (nonlinear_arith)
                            requires
                                n == d * e,
                        ;
                        assert(e >= 2) by (nonlinear_arith)
                            requires
                                n == d * e,
                                d < n,
                                d >= 2,
                        ;
                        assert(e * e <= n) by (nonlinear_arith)
                            requires
                                n == d * e,
                                d * d > n,
                                d >= 2,
                                e >= 2,
                        ;
                        vstd::arithmetic::div_mod::lemma_mod_multiples_basic(d, e);
                        assert((d * e) % e == 0) by {
                            vstd::arithmetic::mul::lemma_mul_is_commutative(d, e);
                        }
                    }
                    assert(n % e != 0);
                } else {
                    assert(n % d != 0);
                }
            }
        }
    }
    if is_prime_number(n) {
        assert forall|d: int| 2 <= d && #[trigger] (d * d) <= n implies n % d != 0 by {
            if d >= n {
                assert(d * d > n) by (nonlinear_arith)
                    requires
                        d >= n,
                        n >= 2,
                ;
            }
        }
    }
}

/// Deterministic primality test by trial division up to the square root.
/// Numbers below `2` pass it, as no trial divisor is ever tried on them.
pub fn is_prime(n: i64) -> (r: bool)
    ensures
        r == no_small_divisor(n as int),
{
    let mut i: i64 = 2;
    while (i as i128) * (i as i128) <= n as i128
        invariant
            2 <= i,
            i <= 3037000500,
            (i as int) * (i as int) <= 9223372037000250000,
            forall|d: int| 2 <= d < i ==> #[trigger] ((n as int) % d) != 0,
        decreases n - i,
    {
        assert(i < n) by (nonlinear_arith)
            requires
                i * i <= n,
                i >= 2,
        ;
        let m = match modulo(n, i) {
            Ok(v) => v,
            Err(_) => return false,
        };
        if m == 0 {
            assert(!no_small_divisor(n as int)) by {
                assert(2 <= i && (i as int) * (i as int) <= n as int && (n as int) % (i as int) == 0);
            }
            return false;
        }
        assert(i < 3037000500) by (nonlinear_arith)
            requires
                i * i <= n,
                n <= i64::MAX,
                i >= 2,
        ;
        assert((i + 1) * (i + 1) <= 9223372037000250000) by (nonlinear_arith)
            requires
                i < 3037000500,
                i >= 2,
        ;
        i = i + 1;
    }
    assert forall|d: int| 2 <= d && #[trigger] (d * d) <= n implies (n as int) % d != 0 by {
        assert(d < i) by (nonlinear_arith)
            requires
                d * d <= n,
                (i as int) * (i as int) > n,
                d >= 2,
                i >= 2,
        ;
    }
    true
}

/// Fermat test of `p` against each base in `test_seq`: `p` passes when every
/// base `x` has `x^p == x` modulo `p`.
pub fn is_pseudo_prime(p: i64, test_seq: &[i64]) -> (r: bool)
    requires
        p >= 1,
        p as int * p as int <= i64::MAX,
    ensures
        r == forall|j: int|
            0 <= j < test_seq@.len() ==> #[trigger] mod_pow(test_seq@[j] as int, p as nat, p as int)
                == euclid_rem(test_seq@[j] as int, p as int),
{
    let mut j: usize = 0;
    while j < test_seq.len()
        invariant
            j <= test_seq@.len(),
            p >= 1,
            p as int * p as int <= i64::MAX,
            forall|i: int|
                0 <= i < j ==> #[trigger] mod_pow(test_seq@[i] as int, p as nat, p as int)
                    == euclid_rem(test_seq@[i] as int, p as int),
        decreases test_seq@.len() - j,
    {
        let x = test_seq[j];
        let m = match modulo(x, p) {
            Ok(v) => v,
            Err(_) => return false,
        };
        if mod_power(x, p, p) != m {
            return false;
        }
        j = j + 1;
    }
    true
}

} // verus!
