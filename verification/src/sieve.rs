//! Sieve of Eratosthenes up to 10 000.

use vstd::prelude::*;

verus! {

/// Upper bound (inclusive) of the sieve.
pub const LIMIT: usize = 10_000;

/// `n` is prime: at least 2 and divisible by no `d` with `2 <= d < n`.
pub open spec fn is_prime(n: int) -> bool {
    n >= 2 && forall|d: int| 2 <= d < n ==> #[trigger] (n % d) != 0
}

/// `s` lists, in ascending order, exactly the primes below `bound`.
pub open spec fn primes_below(s: Seq<usize>, bound: int) -> bool {
    &&& forall|i: int, j: int| 0 <= i < j < s.len() ==> s[i] < s[j]
    &&& forall|i: int| 0 <= i < s.len() ==> is_prime(s[i] as int) && s[i] < bound
    &&& forall|n: int| 2 <= n < bound && is_prime(n) ==> s.contains(n as usize)
}

/// A number with a divisor `d >= 2` such that `d * d <= k` is not prime.
proof fn lemma_multiple_not_prime(k: int, d: int)
    requires
        2 <= d,
        d * d <= k,
        k % d == 0,
    ensures
        !is_prime(k),
{
    assert(d < k) by (nonlinear_arith)
        requires
            2 <= d,
            d * d <= k,
    ;
    assert((k % d) == 0);
}

/// A number `p >= 2` that is not prime has a divisor `e >= 2` with `e * e <= p`.
proof fn lemma_small_divisor(p: int) -> (e: int)
    requires
        p >= 2,
        !is_prime(p),
    ensures
        2 <= e < p,
        e * e <= p,
        p % e == 0,
{
    let d = choose|d: int| 2 <= d < p && #[trigger] (p % d) == 0;
    let m = p / d;
    vstd::arithmetic::div_mod::lemma_fundamental_div_mod(p, d);
    assert(p == d * m);
    assert(m >= 2) by (nonlinear_arith)
        requires
            p == d * m,
            d < p,
            d >= 2,
    ;
    if d <= m {
        assert(d * d <= d * m) by (nonlinear_arith)
            requires
                d <= m,
                d >= 0,
        ;
        d
    } else {
        assert(m * m <= d * m) by (nonlinear_arith)
            requires
                m < d,
                m >= 0,
        ;
        assert(m < p) by (nonlinear_arith)
            requires
                p == d * m,
                d >= 2,
                m >= 2,
        ;
        assert(p % m == 0) by {
            vstd::arithmetic::div_mod::lemma_mod_multiples_basic(d, m);
            vstd::arithmetic::mul::lemma_mul_is_commutative(d, m);
        }
        m
    }
}

/// Divisibility is transitive: `e | p` and `p | k` give `e | k`.
proof fn lemma_divides_transitive(k: int, p: int, e: int)
    requires
        e > 0,
        p > 0,
        k % p == 0,
        p % e == 0,
    ensures
        k % e == 0,
{
    vstd::arithmetic::div_mod::lemma_fundamental_div_mod(k, p);
    vstd::arithmetic::div_mod::lemma_fundamental_div_mod(p, e);
    let a = k / p;
    let b = p / e;
    assert(k == e * (b * a)) by (nonlinear_arith)
        requires
            k == p * a,
            p == e * b,
    ;
    vstd::arithmetic::div_mod::lemma_mod_multiples_basic(b * a, e);
    vstd::arithmetic::mul::lemma_mul_is_commutative(b * a, e);
}

/// The primes up to [`LIMIT`], in ascending order.
pub fn main_sieve() -> (primes: Vec<usize>)
    ensures
        primes_below(primes@, LIMIT as int + 1),
{
    // `is_composite[k]` is true once `k` has been crossed out.
    let mut is_composite = vec![false; LIMIT + 1];
    let mut primes: Vec<usize> = Vec::new();
    let mut p: usize = 2;
    while p <= LIMIT
        invariant
            2 <= p <= LIMIT + 1,
            is_composite@.len() == LIMIT + 1,
            primes_below(primes@, p as int),
            // only non-primes are crossed out
            forall|k: int| 2 <= k <= LIMIT && #[trigger] is_composite@[k] ==> !is_prime(k),
            // every k with a small divisor d below p is crossed out
            forall|k: int, d: int|
                2 <= d < p && d * d <= k <= LIMIT && #[trigger] (k % d) == 0
                    ==> #[trigger] is_composite@[k],
        decreases LIMIT + 1 - p,
    {
        if !is_composite[p] {
            proof {
                if !is_prime(p as int) {
                    let e = lemma_small_divisor(p as int);
                    assert(is_composite@[p as int]);
                }
            }
            let ghost before = primes@;
            primes.push(p);
            proof {
                assert forall|n: int| 2 <= n < p + 1 && is_prime(n) implies primes@.contains(
                    n as usize,
                ) by {
                    if n < p {
                        assert(before.contains(n as usize));
                        let i = choose|i: int| 0 <= i < before.len() && before[i] == n as usize;
                        assert(primes@[i] == n as usize);
                    } else {
                        assert(primes@[primes@.len() - 1] == n as usize);
                    }
                }
            }
            // Start crossing out at p*p; smaller multiples are already handled.
            assert(p * p <= usize::MAX) by (nonlinear_arith)
                requires
                    p <= LIMIT,
            ;
            let mut multiple = p * p;
            let ghost pp = p * p;
            proof {
                vstd::arithmetic::div_mod::lemma_mod_multiples_basic(p as int, p as int);
            }
            while multiple <= LIMIT
                invariant
                    2 <= p <= LIMIT,
                    is_prime(p as int),
                    pp == p * p,
                    pp <= multiple,
                    multiple <= LIMIT + p || multiple == pp,
                    multiple % p == 0,
                    is_composite@.len() == LIMIT + 1,
                    forall|k: int| 2 <= k <= LIMIT && #[trigger] is_composite@[k] ==> !is_prime(k),
                    forall|k: int, d: int|
                        2 <= d < p && d * d <= k <= LIMIT && #[trigger] (k % d) == 0
                            ==> #[trigger] is_composite@[k],
                    forall|k: int|
                        pp <= k < multiple && k % (p as int) == 0 ==> #[trigger] is_composite@[k],
                decreases LIMIT + p - multiple,
            {
                proof {
                    lemma_multiple_not_prime(multiple as int, p as int);
                }
                is_composite.set(multiple, true);
                proof {
                    assert forall|k: int|
                        pp <= k < multiple + p && k % (p as int) == 0 implies #[trigger] is_composite@[k] by {
                        if k >= multiple {
                            assert(k == multiple) by (nonlinear_arith)
                                requires
                                    multiple <= k < multiple + p,
                                    (multiple as int) % (p as int) == 0,
                                    k % (p as int) == 0,
                                    p > 0,
                            ;
                        }
                    }
                    vstd::arithmetic::div_mod::lemma_mod_adds(multiple as int, p as int, p as int);
                    vstd::arithmetic::div_mod::lemma_mod_self_0(p as int);
                }
                multiple = multiple + p;
            }
            proof {
                assert forall|k: int, d: int|
                    2 <= d < p + 1 && d * d <= k <= LIMIT && #[trigger] (k % d) == 0
                        implies #[trigger] is_composite@[k] by {
                    if d == p {
                        assert(pp <= k < multiple);
                    }
                }
            }
        } else {
            proof {
                assert(!is_prime(p as int));
                assert forall|k: int, d: int|
                    2 <= d < p + 1 && d * d <= k <= LIMIT && #[trigger] (k % d) == 0
                        implies #[trigger] is_composite@[k] by {
                    if d == p {
                        let e = lemma_small_divisor(p as int);
                        lemma_divides_transitive(k, p as int, e);
                        assert(e * e <= k) by (nonlinear_arith)
                            requires
                                e < p,
                                p * p <= k,
                                e >= 0,
                        ;
                        assert(is_composite@[k]) by {
                            assert(2 <= e < p && e * e <= k <= LIMIT && (k % e) == 0);
                        }
                    }
                }
            }
        }
        p = p + 1;
    }
    primes
}

} // verus!
