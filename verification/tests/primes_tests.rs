use urso_capture::primes::{
    count_primes_in_segment, count_primes_parallel, count_primes_sequential, isqrt,
    primes_up_to, segment_bounds, use_parallel_sieve,
};

fn naive_count(limit: u64) -> usize {
    (2..=limit).filter(|&n| (2..n).take_while(|d| d * d <= n).all(|d| n % d != 0)).count()
}

#[test]
fn sequential_small_limits() {
    assert_eq!(count_primes_sequential(0), 0);
    assert_eq!(count_primes_sequential(1), 0);
    assert_eq!(count_primes_sequential(2), 1);
    assert_eq!(count_primes_sequential(3), 2);
    assert_eq!(count_primes_sequential(10), 4);
    assert_eq!(count_primes_sequential(100), 25);
    assert_eq!(count_primes_sequential(1000), 168);
}

#[test]
fn sequential_known_counts() {
    assert_eq!(count_primes_sequential(10_000), 1229);
    assert_eq!(count_primes_sequential(100_000), 9592);
    assert_eq!(count_primes_sequential(1_000_000), 78498);
}

#[test]
fn sequential_matches_trial_division() {
    for limit in 0..400u64 {
        assert_eq!(count_primes_sequential(limit), naive_count(limit), "limit {}", limit);
    }
}

#[test]
fn parallel_agrees_with_sequential() {
    for limit in [0u64, 1, 2, 3, 4, 10, 17, 99, 100, 101, 1000, 9999, 10_000, 123_457] {
        for threads in [1usize, 2, 3, 4, 7, 8, 16, 1000] {
            assert_eq!(
                count_primes_parallel(limit, threads),
                count_primes_sequential(limit),
                "limit {} threads {}",
                limit,
                threads
            );
        }
    }
    assert_eq!(count_primes_parallel(1_000_000, 8), 78498);
}

#[test]
fn segment_counts() {
    let base = primes_up_to(4);
    assert_eq!(base, vec![2, 3]);
    assert_eq!(count_primes_in_segment(11, 19, &base), 4);
    assert_eq!(count_primes_in_segment(20, 22, &base), 0);
    assert_eq!(count_primes_in_segment(2, 20, &base), 8);
}

#[test]
fn base_primes_and_roots() {
    assert_eq!(primes_up_to(1), Vec::<usize>::new());
    assert_eq!(primes_up_to(30), vec![2, 3, 5, 7, 11, 13, 17, 19, 23, 29]);
    assert_eq!(isqrt(0), 0);
    assert_eq!(isqrt(15), 3);
    assert_eq!(isqrt(16), 4);
    assert_eq!(isqrt(1_000_000), 1000);
}

#[test]
fn segments_cover_the_range() {
    // n = 100, sqrt = 10, 10 threads: chunk (100 - 10 + 9) / 10 = 9
    assert_eq!(segment_bounds(100, 10, 10, 0), Some((11, 19)));
    assert_eq!(segment_bounds(100, 10, 10, 9), Some((92, 100)));
    assert_eq!(segment_bounds(5, 2, 8, 3), None);
    assert_eq!(segment_bounds(5, 2, 8, 2), Some((5, 5)));
}

#[test]
fn parallel_decision() {
    assert!(!use_parallel_sieve(1_000_000, 1));
    assert!(!use_parallel_sieve(9_999, 8));
    assert!(use_parallel_sieve(10_000, 2));
}
