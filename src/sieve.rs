//! The sieve itself.

use crate::arith::{
    is_prime, lemma_composite_strikes_nothing, lemma_prime_count_at_most, lemma_strike_multiples,
    lemma_survivor_is_prime, no_divisor_below, prime_count,
};
use vstd::arithmetic::div_mod::lemma_mod_multiples_basic;
use vstd::prelude::*;

verus! {

/// Size of the primality table: the largest `limit` the sieve accepts.
pub const CAPACITY: usize = 10000;

/// Why a sieve run was refused.
#[derive(Debug, Clone, Copy, PartialEq, Eq, Structural)]
pub enum SieveError {
    /// The bound exceeds the table's capacity.
    InvalidArgument,
}

/// Counts the primes below `limit` with a Sieve of Eratosthenes over a table
/// of `CAPACITY` flags. A `limit` above `CAPACITY` is refused.
pub fn sieve_primes(limit: usize) -> (r: Result<i32, SieveError>)
    ensures
        limit > CAPACITY ==> r == Err::<i32, SieveError>(SieveError::InvalidArgument),
        limit <= CAPACITY ==> (r matches Ok(c) && c == prime_count(limit as nat)),
{
    if limit > CAPACITY {
        return Err(SieveError::InvalidArgument);
    }
    let mut table: Vec<bool> = vec![true; CAPACITY];
    table.set(0, false);
    table.set(1, false);
    let mut i: usize = 2;
    while i * i < limit
        invariant
            limit <= CAPACITY,
            table.len() == CAPACITY,
            2 <= i,
            i * i <= CAPACITY,
            forall|k: int|
                0 <= k < limit ==> #[trigger] table@[k] == (k >= 2 && no_divisor_below(
                    k,
                    i as int,
                )),
        decreases limit - i,
    {
        assert(i < limit && (i + 1) * (i + 1) <= CAPACITY) by (nonlinear_arith)
            requires
                2 <= i,
                i * i < limit,
                limit <= CAPACITY,
        ;
        let ghost before = table@;
        if table[i] {
            let mut j: usize = i * i;
            proof {
                lemma_mod_multiples_basic(i as int, i as int);
            }
            while j < limit
                invariant
                    limit <= CAPACITY,
                    table.len() == CAPACITY,
                    2 <= i < limit,
                    before.len() == CAPACITY,
                    i * i <= j < limit + i,
                    j % i == 0,
                    forall|k: int|
                        0 <= k < limit ==> #[trigger] table@[k] == (before[k] && !(i * i <= k < j
                            && k % (i as int) == 0)),
                decreases limit + i - j,
            {
                table.set(j, false);
                assert forall|k: int| j < k < j + i implies #[trigger] (k % (i as int)) != 0 by {
                    assert(k % (i as int) != 0) by (nonlinear_arith)
                        requires
                            j % i == 0,
                            j < k < j + i,
                            0 < i,
                    ;
                }
                assert((j + i) % (i as int) == 0) by (nonlinear_arith)
                    requires
                        j % i == 0,
                        0 < i,
                ;
                j = j + i;
            }
            assert forall|k: int| 0 <= k < limit implies #[trigger] table@[k] == (k >= 2
                && no_divisor_below(k, i + 1)) by {
                if k >= 2 && no_divisor_below(k, i as int) {
                    lemma_strike_multiples(k, i as int);
                }
            }
        } else {
            assert forall|k: int| 0 <= k < limit implies #[trigger] table@[k] == (k >= 2
                && no_divisor_below(k, i + 1)) by {
                if k >= 2 && no_divisor_below(k, i as int) {
                    lemma_composite_strikes_nothing(k, i as int);
                }
            }
        }
        i = i + 1;
    }
    assert forall|k: int| 0 <= k < limit implies #[trigger] table@[k] == is_prime(k) by {
        if k >= 2 && no_divisor_below(k, i as int) {
            lemma_survivor_is_prime(k, i as int);
        }
    }
    let mut count: i32 = 0;
    for n in 0..limit
        invariant
            limit <= CAPACITY,
            table.len() == CAPACITY,
            count == prime_count(n as nat),
            forall|k: int| 0 <= k < limit ==> #[trigger] table@[k] == is_prime(k),
    {
        proof {
            lemma_prime_count_at_most(n as nat);
        }
        if table[n] {
            count = count + 1;
        }
    }
    Ok(count)
}

/// Runs the sieve over the full table `rounds` times and adds up the counts.
/// Every run starts from a fresh table, so each one contributes the same
/// count: the total is `rounds` times the number of primes below `CAPACITY`.
pub fn run_rounds(rounds: u32) -> (total: u64)
    ensures
        total == rounds * prime_count(CAPACITY as nat),
{
    let mut total: u64 = 0;
    assert(0 * prime_count(CAPACITY as nat) == 0);
    for round in 0..rounds
        invariant
            total == round * prime_count(CAPACITY as nat),
    {
        proof {
            lemma_prime_count_at_most(CAPACITY as nat);
            assert((round + 1) * prime_count(CAPACITY as nat) <= u32::MAX * 10000)
                by (nonlinear_arith)
                requires
                    round < u32::MAX,
                    prime_count(CAPACITY as nat) <= 10000,
            ;
            assert((round + 1) * prime_count(CAPACITY as nat) == round * prime_count(
                CAPACITY as nat,
            ) + prime_count(CAPACITY as nat)) by (nonlinear_arith);
        }
        match sieve_primes(CAPACITY) {
            Ok(count) => {
                total = total + count as u64;
            },
            Err(_) => {},
        }
    }
    total
}

} // verus!
