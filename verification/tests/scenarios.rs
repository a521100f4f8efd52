use segsieve::miller_rabin::is_prime_miller_rabin;
use segsieve::run_analysis;

#[test]
fn window_10_to_30() {
    let report = run_analysis(10, 20, true);
    // The pool reaches up to floor(sqrt(30)) = 5.
    assert_eq!(report.modules, vec![2, 3, 5]);
    assert_eq!(report.primes, vec![11, 13, 17, 19, 23, 29]);
    assert_eq!(report.twins, vec![(11, 13), (17, 19)]);
    assert_eq!(report.eliminated_count, 14);
    assert_eq!(report.total_commands, 20);
    assert_eq!(report.histogram, vec![(1, 8), (2, 6)]);
    assert_eq!(report.verified_count, 6);
    assert_eq!(report.accuracy_hundredths, 10000);
}

#[test]
fn window_0_to_2_is_degenerate() {
    let report = run_analysis(0, 2, true);
    // 0 and 1 are non-prime by definition, so nothing survives.
    assert!(report.primes.is_empty());
    assert!(report.modules.is_empty());
    assert!(report.histogram.is_empty());
    assert_eq!(report.eliminated_count, 0);
    assert!(report.twins.is_empty());
    assert_eq!(report.accuracy_hundredths, 10000);
}

#[test]
fn known_composite_is_eliminated_by_its_smallest_factor() {
    let n: u64 = 1_000_000_000_000_117;
    let start: u64 = 1_000_000_000_000_100;
    let scan_range: u64 = 100;
    let report = run_analysis(start, scan_range, false);
    let idx = (n - start) as usize;
    assert!(!report.flags[idx]);
    assert!(report.hit_counters[idx] >= 1);
    assert!(!report.primes.contains(&n));
    assert!(!is_prime_miller_rabin(n));
    // The elimination is attributable to the smallest pool module that
    // divides the number.
    let smallest = report.modules.iter().copied().find(|&p| n % p == 0);
    let q = smallest.expect("an eliminated number has a pool factor");
    assert!(q * q <= start + scan_range);
    assert_eq!(n % q, 0);
}

#[test]
fn flags_match_hit_counters() {
    let report = run_analysis(10, 20, false);
    for i in 0..report.flags.len() {
        assert_eq!(report.flags[i], report.hit_counters[i] == 0);
    }
}

#[test]
fn histogram_sums_match_eliminated_count() {
    let report = run_analysis(1_000, 500, false);
    let vsum: u64 = report.histogram.iter().map(|&(_, v)| v).sum();
    let kvsum: u64 = report.histogram.iter().map(|&(k, v)| k * v).sum();
    assert_eq!(vsum, report.eliminated_count);
    assert!(kvsum >= report.eliminated_count);
    let mut keys: Vec<u64> = report.histogram.iter().map(|&(k, _)| k).collect();
    let sorted = keys.clone();
    keys.sort_unstable();
    assert_eq!(keys, sorted);
}

#[test]
fn twin_pairs_are_two_apart_and_from_the_list() {
    let report = run_analysis(100, 100, false);
    for &(a, b) in &report.twins {
        assert_eq!(b, a + 2);
        assert!(report.primes.contains(&a));
        assert!(report.primes.contains(&b));
    }
    // Every consecutive pair 2 apart shows up.
    for w in report.primes.windows(2) {
        if w[1] - w[0] == 2 {
            assert!(report.twins.contains(&(w[0], w[1])));
        }
    }
}

#[test]
fn accuracy_is_full_on_a_clean_window() {
    let report = run_analysis(1_000_000, 1_000, true);
    assert!(report.accuracy_hundredths <= 10000);
    assert_eq!(report.accuracy_hundredths, 10000);
    assert_eq!(report.verified_count as usize, report.primes.len());
}
