use primes::{run_rounds, sieve_primes, SieveError, CAPACITY};

#[test]
fn full_table_counts_1229() {
    assert_eq!(sieve_primes(10000), Ok(1229));
    assert_eq!(sieve_primes(CAPACITY), Ok(1229));
}

#[test]
fn limit_two_has_no_primes() {
    assert_eq!(sieve_primes(2), Ok(0));
}

#[test]
fn limit_three_counts_only_two() {
    assert_eq!(sieve_primes(3), Ok(1));
}

#[test]
fn limit_twenty_counts_eight() {
    assert_eq!(sieve_primes(20), Ok(8));
}

#[test]
fn limit_hundred_counts_twenty_five() {
    assert_eq!(sieve_primes(100), Ok(25));
    assert_eq!(sieve_primes(1000), Ok(168));
}

#[test]
fn perfect_square_limits() {
    assert_eq!(sieve_primes(4), Ok(2));
    assert_eq!(sieve_primes(5), Ok(2));
    assert_eq!(sieve_primes(9), Ok(4));
    assert_eq!(sieve_primes(10), Ok(4));
    assert_eq!(sieve_primes(49), Ok(15));
    assert_eq!(sieve_primes(50), Ok(15));
}

#[test]
fn repeated_calls_agree() {
    for _ in 0..20 {
        assert_eq!(sieve_primes(10000), Ok(1229));
    }
    assert_eq!(sieve_primes(20), Ok(8));
    assert_eq!(sieve_primes(10000), Ok(1229));
}

#[test]
fn counts_grow_with_the_limit() {
    let mut previous = 0;
    for limit in 0..=CAPACITY {
        let count = sieve_primes(limit).unwrap();
        assert!(previous <= count);
        previous = count;
    }
    assert_eq!(previous, 1229);
}

#[test]
fn limits_zero_and_one_have_no_primes() {
    assert_eq!(sieve_primes(0), Ok(0));
    assert_eq!(sieve_primes(1), Ok(0));
}

#[test]
fn limit_above_capacity_is_refused() {
    assert_eq!(sieve_primes(20000), Err(SieveError::InvalidArgument));
    assert_eq!(sieve_primes(CAPACITY + 1), Err(SieveError::InvalidArgument));
    assert_eq!(sieve_primes(usize::MAX), Err(SieveError::InvalidArgument));
}

#[test]
fn rounds_add_up_the_same_count() {
    assert_eq!(run_rounds(0), 0);
    assert_eq!(run_rounds(1), 1229);
    assert_eq!(run_rounds(1000), 1_229_000);
}
