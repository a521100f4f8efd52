use segsieve::analysis::{build_histogram, collect_primes, count_eliminated_positions, find_twins};
use segsieve::engine::eliminate;
use segsieve::miller_rabin::{accuracy_hundredths, is_prime_miller_rabin, verify_primes};
use segsieve::modular::mod_pow;
use segsieve::pool::{isqrt, sieve_primes};

#[test]
fn mod_pow_small_values() {
    assert_eq!(mod_pow(3, 4, 5), 1);
    assert_eq!(mod_pow(10, 15, 7), 6);
    assert_eq!(mod_pow(2, 10, 1000), 24);
    assert_eq!(mod_pow(5, 0, 7), 1);
    assert_eq!(mod_pow(0, 0, 7), 1);
    assert_eq!(mod_pow(7, 1, 7), 0);
}

#[test]
fn mod_pow_uses_double_width_products() {
    let m = u64::MAX;
    // (m - 1)^2 = m^2 - 2m + 1, which is 1 modulo m.
    assert_eq!(mod_pow(m - 1, 2, m), 1);
    assert_eq!(mod_pow(m - 1, 3, m), m - 1);
    let big = 10_000_000_019u64;
    assert_eq!(mod_pow(big - 1, 2, big), 1);
}

#[test]
fn mod_pow_modulus_one_is_zero() {
    assert_eq!(mod_pow(5, 0, 1), 0);
    assert_eq!(mod_pow(5, 3, 1), 0);
}

#[test]
fn miller_rabin_on_known_primes() {
    for p in [2u64, 3, 5, 7, 11, 13, 97, 2_147_483_647, 1_000_000_007, 1_000_000_009] {
        assert!(is_prime_miller_rabin(p), "{p} is prime");
    }
}

#[test]
fn miller_rabin_on_known_composites() {
    for c in [0u64, 1, 4, 9, 15, 21, 25, 561, 1_000, 2_147_483_649, 1_000_000_007 * 3] {
        assert!(!is_prime_miller_rabin(c), "{c} is composite");
    }
}

#[test]
fn isqrt_edges() {
    assert_eq!(isqrt(0), 0);
    assert_eq!(isqrt(1), 1);
    assert_eq!(isqrt(3), 1);
    assert_eq!(isqrt(4), 2);
    assert_eq!(isqrt(30), 5);
    assert_eq!(isqrt(u64::MAX), 4_294_967_295);
}

#[test]
fn sieve_lists_every_prime_once() {
    assert_eq!(sieve_primes(0), Vec::<u64>::new());
    assert_eq!(sieve_primes(1), Vec::<u64>::new());
    assert_eq!(sieve_primes(2), vec![2]);
    assert_eq!(sieve_primes(30), vec![2, 3, 5, 7, 11, 13, 17, 19, 23, 29]);
    let pool = sieve_primes(100);
    assert_eq!(pool.len(), 25);
    for &p in &pool {
        assert!(is_prime_miller_rabin(p));
    }
    for w in pool.windows(2) {
        assert!(w[0] < w[1]);
    }
}

#[test]
fn eliminate_counts_each_module_hit() {
    let modules = vec![2u64, 3u64];
    let mut flags = vec![true; 10];
    let mut hits = vec![0u64; 10];
    let total = eliminate(10, 10, &modules, &mut flags, &mut hits);
    // Window [10, 20): multiples of 2 are 10,12,14,16,18; of 3 are 12,15,18.
    assert_eq!(total, 8);
    assert_eq!(hits, vec![1, 0, 2, 0, 1, 1, 1, 0, 2, 0]);
    assert_eq!(
        flags,
        vec![false, true, false, true, false, false, false, true, false, true]
    );
}

#[test]
fn collect_skips_numbers_below_two() {
    let flags = vec![true, true, true, false, true];
    let primes = collect_primes(0, 5, &flags);
    assert_eq!(primes, vec![2, 4]);
    let eliminated = count_eliminated_positions(&flags);
    assert_eq!(eliminated, 1);
}

#[test]
fn histogram_counts_by_hit_value() {
    let flags = vec![true, false, false, true, false];
    let hits = vec![0u64, 2, 1, 0, 2];
    let hist = build_histogram(&flags, &hits);
    assert_eq!(hist, vec![(1, 1), (2, 2)]);
}

#[test]
fn twins_from_a_plain_list() {
    let primes = vec![3u64, 5, 7, 11, 13, 23];
    let twins = find_twins(&primes);
    assert_eq!(twins, vec![(3, 5), (5, 7), (11, 13)]);
    let empty = find_twins(&Vec::new());
    assert!(empty.is_empty());
}

#[test]
fn verify_primes_counts_certified_entries() {
    let list = vec![11u64, 13, 15, 17];
    assert_eq!(verify_primes(&list), 3);
}

#[test]
fn accuracy_hundredths_is_exact() {
    assert_eq!(accuracy_hundredths(0, 0), 10000);
    assert_eq!(accuracy_hundredths(3, 3), 10000);
    assert_eq!(accuracy_hundredths(1, 2), 5000);
    assert_eq!(accuracy_hundredths(2, 3), 6666);
    assert_eq!(accuracy_hundredths(0, 5), 0);
}
