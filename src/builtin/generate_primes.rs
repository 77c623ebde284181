use vstd::prelude::*;

use crate::builtin::builtins::modulo;
use crate::builtin::test_primes::is_prime_number;

verus! {

/// The `i`-th entry of the sieve's starting list: `2`, then the odd numbers
/// from `3` on.
pub open spec fn sieve_candidate(i: int) -> int {
    if i == 0 {
        2
    } else {
        2 * i + 1
    }
}

/// `r` lists, in increasing order, exactly the prime numbers up to `n`.
pub open spec fn lists_primes_upto(r: Seq<i64>, n: int) -> bool {
    &&& forall|i: int| 0 <= i < r.len() ==> is_prime_number(#[trigger] r[i] as int) && r[i] <= n
    &&& forall|i: int, k: int| 0 <= i < k < r.len() ==> #[trigger] r[i] < #[trigger] r[k]
    &&& forall|x: int| 2 <= x <= n && is_prime_number(x) ==> r.contains(x as i64)
}

/// A divisor of a divisor is a divisor.
proof fn lemma_mod_zero_trans(x: int, d: int, p: int)
    requires
        x % d == 0,
        d % p == 0,
        d > 0,
        p > 0,
    ensures
        x % p == 0,
{
    vstd::arithmetic::div_mod::lemma_fundamental_div_mod(x, d);
    vstd::arithmetic::div_mod::lemma_fundamental_div_mod(d, p);
    let k = (d / p) * (x / d);
    assert(x == k * p) by (nonlinear_arith)
        requires
            x == d * (x / d),
            d == p * (d / p),
            k == (d / p) * (x / d),
    ;
    vstd::arithmetic::div_mod::lemma_mod_multiples_basic(k, p);
}

/// Every number from `2` on that is not prime has a smaller prime divisor.
proof fn lemma_prime_factor(x: int) -> (p: int)
    requires
        x >= 2,
        !is_prime_number(x),
    ensures
        is_prime_number(p),
        2 <= p < x,
        x % p == 0,
    decreases x,
{
    let d = choose|d: int| 2 <= d < x && #[trigger] (x % d) == 0;
    if is_prime_number(d) {
        d
    } else {
        let p = lemma_prime_factor(d);
        lemma_mod_zero_trans(x, d, p);
        p
    }
}

/// Even numbers above `2` are not prime.
proof fn lemma_even_not_prime(x: int)
    requires
        x > 2,
        x % 2 == 0,
    ensures
        !is_prime_number(x),
{
    assert(2 <= 2 < x && x % 2 == 0);
}

/// The starting list of the sieve: `2`, then the odd numbers from `3` up to
/// `n`.
pub fn init_eratosthenes(n: i64) -> (r: Vec<i64>)
    requires
        n >= 2,
    ensures
        r@.len() == 1 + (n - 1) / 2,
        forall|i: int| 0 <= i < r@.len() ==> #[trigger] r@[i] == sieve_candidate(i),
{
    let mut result: Vec<i64> = Vec::new();
    result.push(2);
    let count: i64 = (n - 1) / 2;
    let mut j: i64 = 1;
    while j <= count
        invariant
            count == (n - 1) / 2,
            1 <= j <= count + 1,
            result@.len() == j,
            forall|i: int| 0 <= i < result@.len() ==> #[trigger] result@[i] == sieve_candidate(i),
        decreases count + 1 - j,
    {
        result.push(2 * j + 1);
        j = j + 1;
    }
    result
}

/// Sieve of Eratosthenes: the prime numbers up to `n`, in increasing order.
/// Each entry of the starting list is kept when no prime kept before it
/// divides it.
pub fn eratosthenes(n: i64) -> (r: Vec<i64>)
    requires
        n >= 2,
    ensures
        lists_primes_upto(r@, n as int),
{
    let init = init_eratosthenes(n);
    let mut result: Vec<i64> = Vec::new();
    let mut j: usize = 0;
    while j < init.len()
        invariant
            n >= 2,
            init@.len() == 1 + (n - 1) / 2,
            forall|i: int| 0 <= i < init@.len() ==> #[trigger] init@[i] == sieve_candidate(i),
            j <= init@.len(),
            forall|i: int| 0 <= i < result@.len() ==> is_prime_number(#[trigger] result@[i] as int)
                && result@[i] <= n && result@[i] < sieve_candidate(j as int),
            forall|i: int, k: int| 0 <= i < k < result@.len() ==> #[trigger] result@[i] < #[trigger] result@[k],
            forall|x: int| 2 <= x < sieve_candidate(j as int) && is_prime_number(x) ==> result@.contains(x as i64),
        decreases init@.len() - j,
    {
        let elt = init[j];
        let mut is_multiple = false;
        let mut k: usize = 0;
        while k < result.len()
            invariant_except_break
                !is_multiple,
            invariant
                k <= result@.len(),
                elt >= 2,
                forall|i: int| 0 <= i < result@.len() ==> #[trigger] result@[i] >= 2,
                forall|i: int| 0 <= i < k ==> (elt as int) % (#[trigger] result@[i] as int) != 0,
            ensures
                is_multiple ==> k < result@.len() && (elt as int) % (result@[k as int] as int) == 0,
                !is_multiple ==> k == result@.len(),
            decreases result@.len() - k,
        {
            let m = match modulo(elt, result[k]) {
                Ok(v) => v,
                Err(_) => 1,
            };
            if m == 0 {
                is_multiple = true;
                break;
            }
            k = k + 1;
        }
        let ghost prev = result@;
        proof {
            if is_multiple {
                assert(!is_prime_number(elt as int)) by {
                    let d = result@[k as int] as int;
                    assert(2 <= d < elt && (elt as int) % d == 0);
                }
            } else {
                if !is_prime_number(elt as int) {
                    let p = lemma_prime_factor(elt as int);
                    assert(result@.contains(p as i64));
                    let i = choose|i: int| 0 <= i < result@.len() && result@[i] == p as i64;
                    assert((elt as int) % (result@[i] as int) != 0);
                }
            }
        }
        if !is_multiple {
            result.push(elt);
        }
        proof {
            let next = sieve_candidate(j + 1);
            assert forall|x: int| 2 <= x < next && is_prime_number(x) implies result@.contains(x as i64) by {
                if x < elt {
                    assert(prev.contains(x as i64));
                    let i = choose|i: int| 0 <= i < prev.len() && prev[i] == x as i64;
                    assert(result@[i] == x as i64);
                } else if x == elt {
                    assert(result@[result@.len() - 1] == x as i64);
                } else {
                    lemma_even_not_prime(x);
                }
            }
        }
        j = j + 1;
    }
    result
}

/// The last entry of a non-empty list: the largest of a list of primes in
/// increasing order.
pub fn last_element(l: &[i64]) -> (r: i64)
    requires
        l@.len() >= 1,
    ensures
        r == l@.last(),
{
    l[l.len() - 1]
}

/// The last two entries of a list of length at least two, in their order.
pub fn last_two(l: &[i64]) -> (r: (i64, i64))
    requires
        l@.len() >= 2,
    ensures
        r == (l@[l@.len() - 2], l@[l@.len() - 1]),
{
    (l[l.len() - 2], l[l.len() - 1])
}

/// The pairs `(p, 2 * p + 1)` for the primes `p` up to `limit`, in increasing
/// order, for which `isprime` accepts `2 * p + 1`.
pub fn double_primes<F: Fn(i64) -> bool>(limit: i64, isprime: F) -> (r: Vec<(i64, i64)>)
    requires
        2 <= limit <= 4611686018427387903,
        forall|x: i64| call_requires(isprime, (x,)),
    ensures
        forall|i: int| 0 <= i < r@.len() ==> {
            &&& is_prime_number(#[trigger] r@[i].0 as int)
            &&& r@[i].0 <= limit
            &&& r@[i].1 == 2 * r@[i].0 + 1
            &&& call_ensures(isprime, (r@[i].1,), true)
        },
        forall|i: int, k: int| 0 <= i < k < r@.len() ==> #[trigger] r@[i].0 < #[trigger] r@[k].0,
        forall|x: int| 2 <= x <= limit && is_prime_number(x) ==> {
            ||| exists|i: int| 0 <= i < r@.len() && #[trigger] r@[i].0 == x
            ||| call_ensures(isprime, ((2 * x + 1) as i64,), false)
        },
{
    let primes = eratosthenes(limit);
    let mut result: Vec<(i64, i64)> = Vec::new();
    let mut j: usize = 0;
    while j < primes.len()
        invariant
            lists_primes_upto(primes@, limit as int),
            2 <= limit <= 4611686018427387903,
            forall|x: i64| call_requires(isprime, (x,)),
            j <= primes@.len(),
            forall|i: int| 0 <= i < result@.len() ==> {
                &&& is_prime_number(#[trigger] result@[i].0 as int)
                &&& result@[i].0 <= limit
                &&& result@[i].1 == 2 * result@[i].0 + 1
                &&& call_ensures(isprime, (result@[i].1,), true)
            },
            forall|i: int| 0 <= i < result@.len() ==> exists|t: int| 0 <= t < j && primes@[t] == #[trigger] result@[i].0,
            forall|i: int, k: int| 0 <= i < k < result@.len() ==> #[trigger] result@[i].0 < #[trigger] result@[k].0,
            forall|t: int| 0 <= t < j ==> {
                ||| exists|i: int| 0 <= i < result@.len() && #[trigger] result@[i].0 == primes@[t]
                ||| call_ensures(isprime, ((2 * primes@[t] + 1) as i64,), false)
            },
        decreases primes@.len() - j,
    {
        let p = primes[j];
        let candidate = 2 * p + 1;
        let ghost prev = result@;
        if isprime(candidate) {
            result.push((p, candidate));
            proof {
                assert forall|i: int| 0 <= i < prev.len() implies #[trigger] result@[i].0 < p by {
                    let t = choose|t: int| 0 <= t < j && primes@[t] == prev[i].0;
                    assert(primes@[t] < primes@[j as int]);
                }
            }
        }
        proof {
            assert forall|i: int| 0 <= i < result@.len() implies exists|t: int| 0 <= t < j + 1 && primes@[t] == #[trigger] result@[i].0 by {
                if i < prev.len() {
                    let t = choose|t: int| 0 <= t < j && primes@[t] == prev[i].0;
                    assert(primes@[t] == result@[i].0);
                } else {
                    assert(primes@[j as int] == result@[i].0);
                }
            }
            assert forall|t: int| 0 <= t < j + 1 implies {
                ||| exists|i: int| 0 <= i < result@.len() && #[trigger] result@[i].0 == primes@[t]
                ||| call_ensures(isprime, ((2 * primes@[t] + 1) as i64,), false)
            } by {
                if t < j {
                    if exists|i: int| 0 <= i < prev.len() && #[trigger] prev[i].0 == primes@[t] {
                        let i = choose|i: int| 0 <= i < prev.len() && #[trigger] prev[i].0 == primes@[t];
                        assert(result@[i].0 == primes@[t]);
                    }
                } else if result@.len() > prev.len() {
                    assert(result@[prev.len() as int].0 == primes@[t]);
                }
            }
        }
        j = j + 1;
    }
    proof {
        assert forall|x: int| 2 <= x <= limit && is_prime_number(x) implies {
            ||| exists|i: int| 0 <= i < result@.len() && #[trigger] result@[i].0 == x
            ||| call_ensures(isprime, ((2 * x + 1) as i64,), false)
        } by {
            assert(primes@.contains(x as i64));
            let t = choose|t: int| 0 <= t < primes@.len() && primes@[t] == x as i64;
            assert(primes@[t] == x);
        }
    }
    result
}

/// The pairs `(p, p + 2)` for the primes `p` up to `limit`, in increasing
/// order, for which `isprime` accepts `p + 2`.
#[verifier::rlimit(40)]
pub fn twin_primes<F: Fn(i64) -> bool>(limit: i64, isprime: F) -> (r: Vec<(i64, i64)>)
    requires
        2 <= limit <= 9223372036854775805,
        forall|x: i64| call_requires(isprime, (x,)),
    ensures
        forall|i: int| 0 <= i < r@.len() ==> {
            &&& is_prime_number(#[trigger] r@[i].0 as int)
            &&& r@[i].0 <= limit
            &&& r@[i].1 == r@[i].0 + 2
            &&& call_ensures(isprime, (r@[i].1,), true)
        },
        forall|i: int, k: int| 0 <= i < k < r@.len() ==> #[trigger] r@[i].0 < #[trigger] r@[k].0,
        forall|x: int| 2 <= x <= limit && is_prime_number(x) ==> {
            ||| exists|i: int| 0 <= i < r@.len() && #[trigger] r@[i].0 == x
            ||| call_ensures(isprime, ((x + 2) as i64,), false)
        },
{
    let primes = eratosthenes(limit);
    let mut result: Vec<(i64, i64)> = Vec::new();
    let mut j: usize = 0;
    while j < primes.len()
        invariant
            lists_primes_upto(primes@, limit as int),
            2 <= limit <= 9223372036854775805,
            forall|x: i64| call_requires(isprime, (x,)),
            j <= primes@.len(),
            forall|i: int| 0 <= i < result@.len() ==> {
                &&& is_prime_number(#[trigger] result@[i].0 as int)
                &&& result@[i].0 <= limit
                &&& result@[i].1 == result@[i].0 + 2
                &&& call_ensures(isprime, (result@[i].1,), true)
            },
            forall|i: int| 0 <= i < result@.len() ==> exists|t: int| 0 <= t < j && primes@[t] == #[trigger] result@[i].0,
            forall|i: int, k: int| 0 <= i < k < result@.len() ==> #[trigger] result@[i].0 < #[trigger] result@[k].0,
            forall|t: int| 0 <= t < j ==> {
                ||| exists|i: int| 0 <= i < result@.len() && #[trigger] result@[i].0 == primes@[t]
                ||| call_ensures(isprime, ((primes@[t] + 2) as i64,), false)
            },
        decreases primes@.len() - j,
    {
        let p = primes[j];
        let candidate = p + 2;
        let ghost prev = result@;
        if isprime(candidate) {
            result.push((p, candidate));
            proof {
                assert forall|i: int| 0 <= i < prev.len() implies #[trigger] result@[i].0 < p by {
                    let t = choose|t: int| 0 <= t < j && primes@[t] == prev[i].0;
                    assert(primes@[t] < primes@[j as int]);
                }
            }
        }
        proof {
            assert forall|i: int| 0 <= i < result@.len() implies exists|t: int| 0 <= t < j + 1 && primes@[t] == #[trigger] result@[i].0 by {
                if i < prev.len() {
                    let t = choose|t: int| 0 <= t < j && primes@[t] == prev[i].0;
                    assert(primes@[t] == result@[i].0);
                } else {
                    assert(primes@[j as int] == result@[i].0);
                }
            }
            assert forall|t: int| 0 <= t < j + 1 implies {
                ||| exists|i: int| 0 <= i < result@.len() && #[trigger] result@[i].0 == primes@[t]
                ||| call_ensures(isprime, ((primes@[t] + 2) as i64,), false)
            } by {
                if t < j {
                    if exists|i: int| 0 <= i < prev.len() && #[trigger] prev[i].0 == primes@[t] {
                        let i = choose|i: int| 0 <= i < prev.len() && #[trigger] prev[i].0 == primes@[t];
                        assert(result@[i].0 == primes@[t]);
                    }
                } else if result@.len() > prev.len() {
                    assert(result@[prev.len() as int].0 == primes@[t]);
                }
            }
        }
        j = j + 1;
    }
    proof {
        assert forall|x: int| 2 <= x <= limit && is_prime_number(x) implies {
            ||| exists|i: int| 0 <= i < result@.len() && #[trigger] result@[i].0 == x
            ||| call_ensures(isprime, ((x + 2) as i64,), false)
        } by {
            assert(primes@.contains(x as i64));
            let t = choose|t: int| 0 <= t < primes@.len() && primes@[t] == x as i64;
            assert(primes@[t] == x);
        }
    }
    result
}

} // verus!
