//! The mathematical model: primality, the number of primes below a bound, and
//! the divisibility facts that the sieve's proof needs.

use vstd::arithmetic::div_mod::{lemma_fundamental_div_mod, lemma_mod_multiples_basic};
use vstd::prelude::*;

verus! {

/// `n` is prime: at least 2, and no `d` with `2 <= d < n` divides it.
pub open spec fn is_prime(n: int) -> bool {
    &&& n >= 2
    &&& forall|d: int| 2 <= d < n ==> #[trigger] (n % d) != 0
}

/// The number of primes `p` with `0 <= p < n`.
pub open spec fn prime_count(n: nat) -> nat
    decreases n,
{
    if n == 0 {
        0
    } else {
        let below = prime_count((n - 1) as nat);
        if is_prime(n - 1) {
            below + 1
        } else {
            below
        }
    }
}

/// No `d` with `2 <= d < bound` and `d < k` divides `k`: what is left of `k`
/// once every candidate below `bound` has struck out its multiples.
pub open spec fn no_divisor_below(k: int, bound: int) -> bool {
    forall|d: int| 2 <= d < bound && d < k ==> #[trigger] (k % d) != 0
}

/// A larger bound never has fewer primes below it: `a <= b` implies
/// `prime_count(a) <= prime_count(b)`, so the sieve's count for `a` is at most
/// its count for `b` whenever both bounds are accepted.
pub proof fn lemma_prime_count_monotone(a: nat, b: nat)
    requires
        a <= b,
    ensures
        prime_count(a) <= prime_count(b),
    decreases b - a,
{
    if a < b {
        lemma_prime_count_monotone(a, (b - 1) as nat);
    }
}

/// There are no more primes below `n` than there are numbers below it.
pub proof fn lemma_prime_count_at_most(n: nat)
    ensures
        prime_count(n) <= n,
    decreases n,
{
    if n > 0 {
        lemma_prime_count_at_most((n - 1) as nat);
    }
}

/// If `d` divides `i` and `i` divides `k`, then `d` divides `k`.
pub proof fn lemma_divides_trans(k: int, i: int, d: int)
    requires
        0 < d,
        0 < i,
        i % d == 0,
        k % i == 0,
    ensures
        k % d == 0,
{
    lemma_fundamental_div_mod(i, d);
    lemma_fundamental_div_mod(k, i);
    let a = i / d;
    let b = k / i;
    assert(k == (a * b) * d) by (nonlinear_arith)
        requires
            i == d * a,
            k == i * b,
    ;
    lemma_mod_multiples_basic(a * b, d);
}

/// A multiple `k > i` of `i` with no divisor below `i` is at least `i * i`:
/// its cofactor `k / i` divides it too, so it cannot be smaller than `i`.
pub proof fn lemma_cofactor_at_least(k: int, i: int)
    requires
        2 <= i < k,
        k % i == 0,
        no_divisor_below(k, i),
    ensures
        i * i <= k,
{
    lemma_fundamental_div_mod(k, i);
    let q = k / i;
    assert(k == i * q);
    assert(q >= 2) by (nonlinear_arith)
        requires
            2 <= i < k,
            k == i * q,
    ;
    if q < i {
        lemma_mod_multiples_basic(i, q);
        assert(k == i * q);
        assert(k % q == 0);
        assert(false);
    }
    assert(i * i <= k) by (nonlinear_arith)
        requires
            2 <= i <= q,
            k == i * q,
    ;
}

/// A composite `k` has a divisor `e` with `2 <= e` and `e * e <= k`.
pub proof fn lemma_small_divisor(k: int, d: int) -> (e: int)
    requires
        2 <= d < k,
        k % d == 0,
    ensures
        2 <= e,
        e * e <= k,
        k % e == 0,
{
    lemma_fundamental_div_mod(k, d);
    let q = k / d;
    assert(k == d * q);
    assert(q >= 2) by (nonlinear_arith)
        requires
            2 <= d < k,
            k == d * q,
    ;
    if d <= q {
        assert(d * d <= k) by (nonlinear_arith)
            requires
                2 <= d <= q,
                k == d * q,
        ;
        d
    } else {
        assert(q * q <= k) by (nonlinear_arith)
            requires
                2 <= q < d,
                k == d * q,
        ;
        lemma_mod_multiples_basic(d, q);
        q
    }
}

/// A number below `i * i` that no `d < i` divides is prime.
pub proof fn lemma_survivor_is_prime(k: int, i: int)
    requires
        2 <= i,
        2 <= k < i * i,
        no_divisor_below(k, i),
    ensures
        is_prime(k),
{
    if !is_prime(k) {
        let d = choose|d: int| 2 <= d < k && #[trigger] (k % d) == 0;
        let e = lemma_small_divisor(k, d);
        assert(e < i && e < k) by (nonlinear_arith)
            requires
                2 <= e,
                e * e <= k,
                k < i * i,
                2 <= i,
        ;
        assert(k % e != 0);
    }
}

/// Letting candidate `i` strike out its multiples from `i * i` on removes,
/// among the numbers that survived every candidate below `i`, exactly those
/// that `i` divides properly.
pub proof fn lemma_strike_multiples(k: int, i: int)
    requires
        2 <= i,
        2 <= k,
        no_divisor_below(k, i),
    ensures
        no_divisor_below(k, i + 1) <==> !(i * i <= k && k % i == 0),
{
    if i * i <= k && k % i == 0 {
        assert(i < k) by (nonlinear_arith)
            requires
                2 <= i,
                i * i <= k,
        ;
    } else if !no_divisor_below(k, i + 1) {
        let d = choose|d: int| 2 <= d < i + 1 && d < k && #[trigger] (k % d) == 0;
        assert(d == i);
        lemma_cofactor_at_least(k, i);
    }
}

/// A candidate `i` that was itself struck out strikes out nothing new.
pub proof fn lemma_composite_strikes_nothing(k: int, i: int)
    requires
        2 <= i,
        2 <= k,
        no_divisor_below(k, i),
        !no_divisor_below(i, i),
    ensures
        no_divisor_below(k, i + 1),
{
    if !no_divisor_below(k, i + 1) {
        let d = choose|d: int| 2 <= d < i && #[trigger] (i % d) == 0;
        assert(k % i == 0 && i < k);
        lemma_divides_trans(k, i, d);
        assert(k % d != 0);
    }
}

} // verus!
