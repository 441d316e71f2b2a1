use prime_families::primes::Primes;

fn is_prime_by_trial_division(n: u64) -> bool {
    if n < 2 {
        return false;
    }
    let mut d = 2;
    while d * d <= n {
        if n % d == 0 {
            return false;
        }
        d += 1;
    }
    true
}

#[test]
fn test_example_prime() {
    let primes = Primes::get_between(2, 99_999);
    assert!(primes.contains(&56003));
    assert!(primes.contains(&56993));
    assert!(!primes.contains(&56002));
}

#[test]
fn test_sieve_matches_trial_division() {
    let primes = Primes::get_between(2, 2_000);
    for n in 2..2_000u64 {
        assert_eq!(primes.contains(&n), is_prime_by_trial_division(n));
    }
}

#[test]
fn test_sieve_segment_matches_trial_division() {
    let primes = Primes::get_between(9_000, 10_000);
    for n in 9_000..10_000u64 {
        assert_eq!(primes.contains(&n), is_prime_by_trial_division(n));
    }
    assert!(!primes.contains(&8_999));
    assert!(!primes.contains(&10_007));
}

#[test]
fn test_sieve_vector_ascending() {
    let primes = Primes::get_between(2, 30);
    assert_eq!(primes.vector, vec![2, 3, 5, 7, 11, 13, 17, 19, 23, 29]);
}
