use prime_families::search::search;
use prime_families::search::SearchConfig;
use prime_families::search::SearchError;

fn is_prime_by_trial_division(n: u64) -> bool {
    if n < 2 {
        return false;
    }
    let mut d = 2;
    while d * d <= n {
        if n % d == 0 {
            return false;
        }
        d += 1;
    }
    true
}

fn two_digit_config(family_size: usize) -> SearchConfig {
    SearchConfig {
        min: 10,
        max: 99,
        digit_width: 2,
        min_pattern_len: 1,
        max_pattern_len: 1,
        family_size,
    }
}

#[test]
fn test_search_two_digit_family_of_six() {
    let result = search(&two_digit_config(6)).expect("a two-digit family of six exists");
    assert_eq!(result.primes.len(), 6);
    for &p in &result.primes {
        assert!((10..99).contains(&p));
        assert!(is_prime_by_trial_division(p));
    }
    // One replaced position, so the members share the other digit.
    assert_eq!(result.pattern.iter().filter(|&&b| b).count(), 1);
    let kept = result
        .pattern
        .iter()
        .position(|&b| !b)
        .expect("one position is kept");
    let kept_digit_of = |p: u64| if kept == 0 { p / 10 } else { p % 10 };
    let shared = kept_digit_of(result.primes[0]);
    for &p in &result.primes {
        assert_eq!(kept_digit_of(p), shared);
    }
    // The classical two-digit family: the first case of six reached by the
    // scan replaces the leading digit of 13.
    assert_eq!(result.primes, vec![13, 23, 43, 53, 73, 83]);
    assert_eq!(result.pattern, vec![true, false]);
}

#[test]
fn test_search_is_deterministic() {
    let first = search(&two_digit_config(6)).expect("family exists");
    let second = search(&two_digit_config(6)).expect("family exists");
    assert_eq!(first.primes, second.primes);
    assert_eq!(first.pattern, second.pattern);
}

#[test]
fn test_search_not_found() {
    assert_eq!(search(&two_digit_config(9)).unwrap_err(), SearchError::NotFound);
    assert_eq!(search(&two_digit_config(11)).unwrap_err(), SearchError::NotFound);
}

#[test]
fn test_search_invalid_config() {
    let mut config = two_digit_config(6);
    config.min = 1;
    assert_eq!(search(&config).unwrap_err(), SearchError::InvalidConfig);

    let mut config = two_digit_config(6);
    config.max = 10;
    assert_eq!(search(&config).unwrap_err(), SearchError::InvalidConfig);

    let mut config = two_digit_config(6);
    config.max_pattern_len = 3;
    assert_eq!(search(&config).unwrap_err(), SearchError::InvalidConfig);

    // The range disagrees with the digit width.
    let mut config = two_digit_config(6);
    config.min = 5;
    assert_eq!(search(&config).unwrap_err(), SearchError::InvalidConfig);
}

#[test]
fn test_search_overflow_config() {
    let config = SearchConfig {
        min: 2,
        max: 100,
        digit_width: 19,
        min_pattern_len: 1,
        max_pattern_len: 1,
        family_size: 2,
    };
    assert_eq!(search(&config).unwrap_err(), SearchError::Overflow);
}

#[test]
fn test_search_five_digit_family_of_seven() {
    let config = SearchConfig {
        min: 10_000,
        max: 99_999,
        digit_width: 5,
        min_pattern_len: 1,
        max_pattern_len: 4,
        family_size: 7,
    };
    let result = search(&config).expect("a five-digit family of seven exists");
    assert_eq!(result.primes.len(), 7);
    for &p in &result.primes {
        assert!((10_000..99_999).contains(&p));
        assert!(is_prime_by_trial_division(p));
    }
    let mut sorted = result.primes.clone();
    sorted.sort_unstable();
    sorted.dedup();
    assert_eq!(sorted.len(), 7);
}
