//! Segmented modular-elimination analysis of a window of 64-bit integers.
//!
//! A pool of small prime "modules" is generated by a classic sieve, each
//! module eliminates its multiples inside a half-open window `[start, end)`
//! while a per-position hit counter records how many modules struck each
//! position, and the surviving numbers are reported together with collision
//! and twin-pair statistics plus an independent Miller-Rabin cross-check.

use vstd::prelude::*;

pub mod analysis;
pub mod engine;
pub mod miller_rabin;
pub mod modular;
pub mod pool;
pub mod primality;

verus! {

use crate::analysis::{
    build_histogram, collect_primes, count_eliminated, count_eliminated_positions, count_hits_eq,
    find_twins, hist_kvsum, hist_vsum, twins_of,
};
use crate::engine::{count_dividing, eliminate, lemma_count_dividing_bound, seq_sum};
use crate::miller_rabin::{accuracy_hundredths, count_mr, verify_primes};
use crate::pool::{isqrt, lemma_ascending_len_bound, sieve_primes};
use crate::primality::{divides, is_prime, lemma_composite_has_small_prime_factor};

/// Everything one analysis run produces.
pub struct AnalysisReport {
    /// The window's lower bound.
    pub start: u64,
    /// The window's width; the window is `[start, start + scan_range)`.
    pub scan_range: u64,
    /// The module pool: all primes up to the square root of the window end.
    pub modules: Vec<u64>,
    /// One survival flag per window position, true while alive.
    pub flags: Vec<bool>,
    /// One hit counter per window position.
    pub hit_counters: Vec<u64>,
    /// Raw count of marking operations summed over all modules.
    pub total_commands: u128,
    /// How many positions were eliminated.
    pub eliminated_count: u64,
    /// The numbers whose position survived every module.
    pub primes: Vec<u64>,
    /// Ascending (hit count, occurrences) pairs over eliminated positions.
    pub histogram: Vec<(u64, u64)>,
    /// Consecutive surviving primes exactly 2 apart.
    pub twins: Vec<(u64, u64)>,
    /// How many survivors the independent verifier certified.
    pub verified_count: u64,
    /// The accuracy ratio in hundredths of a percent.
    pub accuracy_hundredths: u64,
}

/// The pool holds exactly the primes whose square does not exceed `end`,
/// in strictly ascending order.
pub open spec fn pool_exact(mods: Seq<u64>, end: int) -> bool {
    &&& forall|j: int|
        0 <= j < mods.len() ==> is_prime(#[trigger] mods[j] as int) && (mods[j] as int) * (
        mods[j] as int) <= end
    &&& forall|j1: int, j2: int| 0 <= j1 < j2 < mods.len() ==> mods[j1] < mods[j2]
    &&& forall|q: u64|
        is_prime(q as int) && (q as int) * (q as int) <= end ==> mods.contains(q)
}

/// Flags and hit counters exactly reflect which modules divide each window
/// number: the counter holds the number of dividing modules, and the flag
/// fell exactly when at least one module divides.
pub open spec fn elimination_exact(
    start: int,
    scan: int,
    mods: Seq<u64>,
    flags: Seq<bool>,
    hits: Seq<u64>,
) -> bool {
    &&& flags.len() == scan
    &&& hits.len() == scan
    &&& forall|i: int|
        0 <= i < scan ==> #[trigger] hits[i] == count_dividing(mods, start + i, mods.len() as int)
    &&& forall|i: int| 0 <= i < scan ==> (#[trigger] flags[i] <==> hits[i] == 0)
    &&& forall|i: int|
        0 <= i < scan ==> ((!#[trigger] flags[i]) <==> exists|j: int|
            0 <= j < mods.len() && #[trigger] divides(mods[j] as int, start + i))
}

/// Law: a position is eliminated exactly when its counter took at least
/// one hit, and exactly when its number has a prime factor other than
/// itself whose square is within the window end. The window must start
/// above the pool bound: a window that contains a module eliminates that
/// module's own (prime) position, since the module divides it.
pub proof fn lemma_elimination_characterization(
    start: int,
    scan: int,
    mods: Seq<u64>,
    flags: Seq<bool>,
    hits: Seq<u64>,
    i: int,
)
    requires
        pool_exact(mods, start + scan),
        elimination_exact(start, scan, mods, flags, hits),
        start * start > start + scan,
        start >= 0,
        0 <= i < scan,
    ensures
        (!flags[i]) <==> hits[i] >= 1,
        (!flags[i]) <==> exists|q: u64|
            is_prime(q as int) && (q as int) * (q as int) <= start + scan && q as int != start + i
                && #[trigger] divides(q as int, start + i),
{
    let n = start + i;
    if !flags[i] {
        let j = choose|j: int| 0 <= j < mods.len() && #[trigger] divides(mods[j] as int, n);
        let q = mods[j];
        assert(is_prime(q as int) && (q as int) * (q as int) <= start + scan);
        assert(q as int != n) by {
            if q as int == n {
                assert(n * n > start + scan) by (nonlinear_arith)
                    requires
                        n >= start >= 0,
                        start * start > start + scan,
                ;
            }
        }
    }
    if exists|q: u64|
        is_prime(q as int) && (q as int) * (q as int) <= start + scan && q as int != start + i
            && #[trigger] divides(q as int, start + i) {
        let q = choose|q: u64|
            is_prime(q as int) && (q as int) * (q as int) <= start + scan && q as int != start + i
                && #[trigger] divides(q as int, start + i);
        assert(mods.contains(q));
        let j = choose|j: int| 0 <= j < mods.len() && mods[j] == q;
        assert(divides(mods[j] as int, n));
        assert(!flags[i]);
    }
}

/// Law: no surviving number is divisible by any pool module other than
/// itself — a survivor's position took no hit from any module at all.
pub proof fn lemma_prime_list_pure(
    start: int,
    scan: int,
    mods: Seq<u64>,
    flags: Seq<bool>,
    hits: Seq<u64>,
    primes: Seq<u64>,
)
    requires
        elimination_exact(start, scan, mods, flags, hits),
        forall|t: int|
            0 <= t < primes.len() ==> start <= #[trigger] primes[t] as int
                && (primes[t] as int) < start + scan && flags[primes[t] as int - start],
    ensures
        forall|t: int, j: int|
            0 <= t < primes.len() && 0 <= j < mods.len() && mods[j] as int != primes[t] as int
                ==> !(#[trigger] divides(mods[j] as int, primes[t] as int)),
{
    assert forall|t: int, j: int|
        0 <= t < primes.len() && 0 <= j < mods.len() && mods[j] as int != primes[t] as int
        implies !(#[trigger] divides(mods[j] as int, primes[t] as int)) by {
        let i = primes[t] as int - start;
        assert(flags[i]);
    }
}

/// Runs the whole analysis: pool generation, segmented elimination with
/// hit counting, the surviving prime list, collision histogram, twin
/// pairs, and (when enabled) the independent verification pass with its
/// accuracy ratio.
#[verifier::rlimit(60)]
pub fn run_analysis(start: u64, scan_range: u64, run_verifier: bool) -> (report: AnalysisReport)
    requires
        scan_range >= 1,
        start as int + scan_range as int <= u64::MAX as int,
        scan_range as int <= usize::MAX as int,
        (start as int + scan_range as int) < (usize::MAX as int) * (usize::MAX as int),
    ensures
        report.start == start,
        report.scan_range == scan_range,
        pool_exact(report.modules@, start as int + scan_range as int),
        elimination_exact(
            start as int,
            scan_range as int,
            report.modules@,
            report.flags@,
            report.hit_counters@,
        ),
        report.total_commands == seq_sum(report.hit_counters@),
        report.eliminated_count == count_eliminated(report.flags@, scan_range as int),
        // The surviving prime list: in-window, ascending, exactly the alive
        // positions at or above 2, and every listed number really is prime.
        forall|t: int|
            0 <= t < report.primes@.len() ==> start <= #[trigger] report.primes@[t]
                && (report.primes@[t] as int) < start as int + scan_range as int,
        forall|t: int|
            0 <= t < report.primes@.len() ==> #[trigger] report.primes@[t] >= 2
                && report.flags@[report.primes@[t] as int - start as int],
        forall|t1: int, t2: int|
            0 <= t1 < t2 < report.primes@.len() ==> report.primes@[t1] < report.primes@[t2],
        forall|i: int|
            0 <= i < scan_range && report.flags@[i] && start as int + i >= 2
                ==> report.primes@.contains((start + i) as u64),
        forall|t: int|
            0 <= t < report.primes@.len() ==> is_prime(#[trigger] report.primes@[t] as int),
        // Completeness: a window that starts above the pool bound keeps
        // every prime it contains.
        (start as int) * (start as int) > start as int + scan_range as int ==> forall|p: u64|
            start <= p && (p as int) < start as int + scan_range as int && is_prime(p as int)
                ==> report.primes@.contains(p),
        // The histogram: ascending keys, exact counts, complete, and its
        // sums against the eliminated count.
        forall|t: int|
            0 <= t < report.histogram@.len() ==> (#[trigger] report.histogram@[t]).0 >= 1
                && report.histogram@[t].1 >= 1,
        forall|t1: int, t2: int|
            0 <= t1 < t2 < report.histogram@.len() ==> report.histogram@[t1].0
                < report.histogram@[t2].0,
        forall|t: int|
            0 <= t < report.histogram@.len() ==> (#[trigger] report.histogram@[t]).1
                == count_hits_eq(
                report.flags@,
                report.hit_counters@,
                report.histogram@[t].0,
                scan_range as int,
            ),
        forall|k: u64|
            count_hits_eq(report.flags@, report.hit_counters@, k, scan_range as int) > 0
                ==> exists|t: int|
                0 <= t < report.histogram@.len() && (#[trigger] report.histogram@[t]).0 == k,
        hist_vsum(report.histogram@) == report.eliminated_count,
        hist_kvsum(report.histogram@) >= report.eliminated_count,
        (hist_kvsum(report.histogram@) == report.eliminated_count) <==> (forall|i: int|
            0 <= i < scan_range ==> report.flags@[i] || #[trigger] report.hit_counters@[i] == 1),
        // The twin list, pinned exactly.
        report.twins@ == twins_of(report.primes@, report.primes@.len() - 1),
        // The verification pass and the accuracy ratio.
        report.verified_count == if run_verifier {
            count_mr(report.primes@, report.primes@.len() as int)
        } else {
            0int
        },
        (run_verifier && report.primes@.len() > 0) ==> report.accuracy_hundredths as int == (
        report.verified_count as int * 10000) / (report.primes@.len() as int),
        (!run_verifier || report.primes@.len() == 0) ==> report.accuracy_hundredths == 10000,
        report.accuracy_hundredths <= 10000,
{
    let end = start + scan_range;
    let limit = isqrt(end);
    proof {
        assert((limit as int) < usize::MAX as int) by (nonlinear_arith)
            requires
                (limit as int) * (limit as int) <= end as int,
                (end as int) < (usize::MAX as int) * (usize::MAX as int),
                limit as int >= 0,
                usize::MAX as int >= 0,
        ;
    }
    let modules = sieve_primes(limit);
    proof {
        lemma_ascending_len_bound(modules@, limit);
        assert forall|j: int| 0 <= j < modules@.len() implies is_prime(
            #[trigger] modules@[j] as int,
        ) && (modules@[j] as int) * (modules@[j] as int) <= end as int by {
            assert((modules@[j] as int) * (modules@[j] as int) <= (limit as int) * (
            limit as int)) by (nonlinear_arith)
                requires
                    0 <= modules@[j] as int <= limit as int,
            ;
        }
        assert forall|q: u64|
            is_prime(q as int) && (q as int) * (q as int) <= end as int implies modules@.contains(
            q,
        ) by {
            if q > limit {
                assert((q as int) * (q as int) >= (limit as int + 1) * (limit as int + 1))
                    by (nonlinear_arith)
                    requires
                        q as int >= limit as int + 1,
                ;
            }
        }
    }
    let mut flags = make_flags(scan_range as usize);
    let mut hits = make_hits(scan_range as usize);
    let total = eliminate(start, scan_range, &modules, &mut flags, &mut hits);
    let eliminated = count_eliminated_positions(&flags);
    let primes = collect_primes(start, scan_range, &flags);
    proof {
        assert forall|i: int| 0 <= i < hits@.len() implies #[trigger] hits@[i] < u64::MAX by {
            lemma_count_dividing_bound(modules@, start as int + i, modules@.len() as int);
        }
        assert forall|t: int| 0 <= t < primes@.len() implies is_prime(
            #[trigger] primes@[t] as int,
        ) by {
            let n = primes@[t] as int;
            let i = n - start;
            if !is_prime(n) {
                lemma_composite_has_small_prime_factor(n);
                let q = choose|q: int|
                    is_prime(q) && 2 <= q < n && #[trigger] divides(q, n) && q * q <= n;
                assert(modules@.contains(q as u64));
                let j = choose|j: int| 0 <= j < modules@.len() && modules@[j] == q as u64;
                assert(divides(modules@[j] as int, start as int + i));
                assert(!flags@[i]);
            }
        }
        if (start as int) * (start as int) > end as int {
            assert forall|p: u64|
                start <= p && (p as int) < end as int && is_prime(p as int) implies primes@
                .contains(p) by {
                let i = p as int - start as int;
                if !flags@[i] {
                    let j = choose|j: int|
                        0 <= j < modules@.len() && #[trigger] divides(
                            modules@[j] as int,
                            start as int + i,
                        );
                    let q = modules@[j];
                    crate::primality::lemma_prime_divisor_is_self(q as int, p as int);
                    assert((p as int) * (p as int) > end as int) by (nonlinear_arith)
                        requires
                            p as int >= start as int >= 0,
                            (start as int) * (start as int) > end as int,
                    ;
                }
            }
        }
    }
    let hist = build_histogram(&flags, &hits);
    let twins = find_twins(&primes);
    let valid = if run_verifier {
        verify_primes(&primes)
    } else {
        0
    };
    let plen = primes.len();
    let acc = if run_verifier {
        accuracy_hundredths(valid, plen as u64)
    } else {
        10000
    };
    let ghost flv = flags@;
    let ghost htv = hits@;
    let ghost histv = hist@;
    let report = AnalysisReport {
        start,
        scan_range,
        modules,
        flags,
        hit_counters: hits,
        total_commands: total,
        eliminated_count: eliminated,
        primes,
        histogram: hist,
        twins,
        verified_count: valid,
        accuracy_hundredths: acc,
    };
    proof {
        assert forall|k: u64|
            count_hits_eq(report.flags@, report.hit_counters@, k, scan_range as int) > 0
            implies exists|t: int|
            0 <= t < report.histogram@.len() && (#[trigger] report.histogram@[t]).0 == k by {
            assert(count_hits_eq(flv, htv, k, flv.len() as int) > 0);
            let t = choose|t: int| 0 <= t < histv.len() && (#[trigger] histv[t]).0 == k;
            assert(report.histogram@[t].0 == k);
        }
    }
    report
}

/// A vector of `n` survival flags, all alive.
fn make_flags(n: usize) -> (v: Vec<bool>)
    ensures
        v@.len() == n,
        forall|i: int| 0 <= i < n ==> v@[i],
{
    let mut v: Vec<bool> = Vec::new();
    while v.len() < n
        invariant
            v@.len() <= n,
            forall|i: int| 0 <= i < v@.len() ==> v@[i],
        decreases n - v.len(),
    {
        v.push(true);
    }
    v
}

/// A vector of `n` hit counters, all zero.
fn make_hits(n: usize) -> (v: Vec<u64>)
    ensures
        v@.len() == n,
        forall|i: int| 0 <= i < n ==> v@[i] == 0,
{
    let mut v: Vec<u64> = Vec::new();
    while v.len() < n
        invariant
            v@.len() <= n,
            forall|i: int| 0 <= i < v@.len() ==> v@[i] == 0,
        decreases n - v.len(),
    {
        v.push(0);
    }
    v
}

} // verus!
