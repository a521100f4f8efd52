//! The collision and twin analyzer: builds the surviving prime list from the
//! survival flags, the histogram of hit counts over the eliminated
//! positions, and the list of adjacent prime pairs exactly 2 apart.

use vstd::prelude::*;

verus! {

/// How many of the first `n` positions were eliminated.
pub open spec fn count_eliminated(flags: Seq<bool>, n: int) -> int
    decreases n,
{
    if n <= 0 {
        0
    } else {
        count_eliminated(flags, n - 1) + if flags[n - 1] {
            0int
        } else {
            1int
        }
    }
}

/// How many of the first `n` positions were eliminated with exactly `k` hits.
pub open spec fn count_hits_eq(flags: Seq<bool>, hits: Seq<u64>, k: u64, n: int) -> int
    decreases n,
{
    if n <= 0 {
        0
    } else {
        count_hits_eq(flags, hits, k, n - 1) + if !flags[n - 1] && hits[n - 1] == k {
            1int
        } else {
            0int
        }
    }
}

/// How many of the first `n` positions were eliminated with at most `k` hits.
pub open spec fn count_hits_le(flags: Seq<bool>, hits: Seq<u64>, k: u64, n: int) -> int
    decreases n,
{
    if n <= 0 {
        0
    } else {
        count_hits_le(flags, hits, k, n - 1) + if !flags[n - 1] && hits[n - 1] <= k {
            1int
        } else {
            0int
        }
    }
}

/// The sum of the histogram's occurrence counts.
pub open spec fn hist_vsum(h: Seq<(u64, u64)>) -> int
    decreases h.len(),
{
    if h.len() == 0 {
        0
    } else {
        hist_vsum(h.drop_last()) + h.last().1
    }
}

/// The sum of hit-count times occurrence-count over the histogram.
pub open spec fn hist_kvsum(h: Seq<(u64, u64)>) -> int
    decreases h.len(),
{
    if h.len() == 0 {
        0
    } else {
        hist_kvsum(h.drop_last()) + h.last().0 * h.last().1
    }
}

proof fn lemma_count_le_step(flags: Seq<bool>, hits: Seq<u64>, k: u64, n: int)
    requires
        k >= 1,
    ensures
        count_hits_le(flags, hits, k, n) == count_hits_le(flags, hits, (k - 1) as u64, n)
            + count_hits_eq(flags, hits, k, n),
    decreases n,
{
    if n > 0 {
        lemma_count_le_step(flags, hits, k, n - 1);
    }
}

proof fn lemma_count_le_all(flags: Seq<bool>, hits: Seq<u64>, k: u64, n: int)
    requires
        forall|i: int| 0 <= i < n ==> (flags[i] || #[trigger] hits[i] <= k),
    ensures
        count_hits_le(flags, hits, k, n) == count_eliminated(flags, n),
    decreases n,
{
    if n > 0 {
        lemma_count_le_all(flags, hits, k, n - 1);
    }
}

proof fn lemma_count_le_zero(flags: Seq<bool>, hits: Seq<u64>, n: int)
    requires
        forall|i: int| 0 <= i < n ==> (flags[i] <==> #[trigger] hits[i] == 0),
    ensures
        count_hits_le(flags, hits, 0, n) == 0,
    decreases n,
{
    if n > 0 {
        lemma_count_le_zero(flags, hits, n - 1);
    }
}

/// The exact-hit-count tally is positive exactly when a witness position
/// exists.
pub proof fn lemma_count_hits_eq_pos(flags: Seq<bool>, hits: Seq<u64>, k: u64, n: int)
    ensures
        count_hits_eq(flags, hits, k, n) >= 0,
        (count_hits_eq(flags, hits, k, n) > 0) <==> (exists|i: int|
            0 <= i < n && !flags[i] && #[trigger] hits[i] == k),
    decreases n,
{
    if n > 0 {
        lemma_count_hits_eq_pos(flags, hits, k, n - 1);
    }
}

proof fn lemma_hist_sums(h: Seq<(u64, u64)>)
    requires
        forall|t: int| 0 <= t < h.len() ==> (#[trigger] h[t]).0 >= 1 && h[t].1 >= 1,
    ensures
        hist_kvsum(h) >= hist_vsum(h),
        (hist_kvsum(h) == hist_vsum(h)) <==> (forall|t: int|
            0 <= t < h.len() ==> (#[trigger] h[t]).0 == 1),
    decreases h.len(),
{
    if h.len() > 0 {
        let d = h.drop_last();
        assert forall|t: int| 0 <= t < d.len() implies (#[trigger] d[t]).0 >= 1 && d[t].1
            >= 1 by {
            assert(d[t] == h[t]);
        }
        lemma_hist_sums(d);
        let k = h.last().0;
        let v = h.last().1;
        assert(k as int * v as int >= v as int) by (nonlinear_arith)
            requires
                k >= 1,
                v >= 0,
        ;
        assert(k as int * v as int == v as int ==> k as int == 1) by (nonlinear_arith)
            requires
                k >= 1,
                v >= 1,
        ;
        assert(h[h.len() - 1] == h.last());
        if hist_kvsum(h) == hist_vsum(h) {
            assert forall|t: int| 0 <= t < h.len() implies (#[trigger] h[t]).0 == 1 by {
                if t < h.len() - 1 {
                    assert(h[t] == d[t]);
                }
            }
        }
        if forall|t: int| 0 <= t < h.len() ==> (#[trigger] h[t]).0 == 1 {
            assert forall|t: int| 0 <= t < d.len() implies (#[trigger] d[t]).0 == 1 by {
                assert(d[t] == h[t]);
            }
            assert((h[h.len() - 1]).0 == 1);
            assert(hist_kvsum(d) == hist_vsum(d));
            assert(k as int * v as int == v as int) by (nonlinear_arith)
                requires
                    k as int == 1,
            ;
        }
    }
}

/// Counts the eliminated positions.
pub fn count_eliminated_positions(flags: &Vec<bool>) -> (c: u64)
    ensures
        c == count_eliminated(flags@, flags@.len() as int),
{
    let mut c: u64 = 0;
    let mut i: usize = 0;
    while i < flags.len()
        invariant
            0 <= i <= flags@.len(),
            c == count_eliminated(flags@, i as int),
            c <= i,
        decreases flags@.len() - i,
    {
        if !flags[i] {
            c = c + 1;
        }
        i = i + 1;
    }
    c
}

/// Builds the surviving prime list: every window position whose flag is
/// still alive contributes its absolute number, in ascending order.
/// Numbers below 2 are non-prime by definition and never listed.
pub fn collect_primes(start: u64, scan_range: u64, flags: &Vec<bool>) -> (primes: Vec<u64>)
    requires
        flags@.len() == scan_range,
        start as int + scan_range as int <= u64::MAX as int,
    ensures
        forall|t: int|
            0 <= t < primes@.len() ==> start <= #[trigger] primes@[t] && (primes@[t] as int)
                < start as int + scan_range as int,
        forall|t: int|
            0 <= t < primes@.len() ==> #[trigger] primes@[t] >= 2 && flags@[primes@[t] as int
                - start as int],
        forall|t1: int, t2: int| 0 <= t1 < t2 < primes@.len() ==> primes@[t1] < primes@[t2],
        forall|i: int|
            0 <= i < scan_range && flags@[i] && start as int + i >= 2 ==> primes@.contains(
                (start + i) as u64,
            ),
{
    let mut primes: Vec<u64> = Vec::new();
    let mut i: usize = 0;
    while i < flags.len()
        invariant
            flags@.len() == scan_range,
            start as int + scan_range as int <= u64::MAX as int,
            0 <= i <= scan_range,
            forall|t: int|
                0 <= t < primes@.len() ==> start <= #[trigger] primes@[t] && (primes@[t] as int)
                    < start as int + i as int,
            forall|t: int|
                0 <= t < primes@.len() ==> #[trigger] primes@[t] >= 2 && flags@[primes@[t] as int
                    - start as int],
            forall|t1: int, t2: int| 0 <= t1 < t2 < primes@.len() ==> primes@[t1] < primes@[t2],
            forall|ii: int|
                0 <= ii < i && flags@[ii] && start as int + ii >= 2 ==> primes@.contains(
                    (start + ii) as u64,
                ),
        decreases scan_range - i,
    {
        let num = start + (i as u64);
        if flags[i] && num >= 2 {
            let ghost old_primes = primes@;
            primes.push(num);
            proof {
                assert forall|ii: int|
                    0 <= ii < i + 1 && flags@[ii] && start as int + ii >= 2 implies primes@
                    .contains((start + ii) as u64) by {
                    if ii < i {
                        let t = choose|t: int|
                            0 <= t < old_primes.len() && old_primes[t] == (start + ii) as u64;
                        assert(primes@[t] == (start + ii) as u64);
                    } else {
                        assert(primes@[primes@.len() - 1] == (start + ii) as u64);
                    }
                }
            }
        }
        i = i + 1;
    }
    primes
}

/// Builds the collision histogram: for every hit count that occurs among
/// the eliminated positions, in ascending order, how many positions were
/// struck exactly that often. The occurrence counts sum to the eliminated
/// total, and the hit-weighted sum can only exceed it unless every
/// eliminated position was struck exactly once.
pub fn build_histogram(flags: &Vec<bool>, hits: &Vec<u64>) -> (hist: Vec<(u64, u64)>)
    requires
        flags@.len() == hits@.len(),
        forall|i: int| 0 <= i < flags@.len() ==> (flags@[i] <==> #[trigger] hits@[i] == 0),
        forall|i: int| 0 <= i < hits@.len() ==> #[trigger] hits@[i] < u64::MAX,
    ensures
        forall|t: int| 0 <= t < hist@.len() ==> (#[trigger] hist@[t]).0 >= 1 && hist@[t].1 >= 1,
        forall|t1: int, t2: int| 0 <= t1 < t2 < hist@.len() ==> hist@[t1].0 < hist@[t2].0,
        forall|t: int|
            0 <= t < hist@.len() ==> (#[trigger] hist@[t]).1 == count_hits_eq(
                flags@,
                hits@,
                hist@[t].0,
                flags@.len() as int,
            ),
        forall|k: u64|
            count_hits_eq(flags@, hits@, k, flags@.len() as int) > 0 ==> exists|t: int|
                0 <= t < hist@.len() && (#[trigger] hist@[t]).0 == k,
        hist_vsum(hist@) == count_eliminated(flags@, flags@.len() as int),
        hist_kvsum(hist@) >= count_eliminated(flags@, flags@.len() as int),
        (hist_kvsum(hist@) == count_eliminated(flags@, flags@.len() as int)) <==> (forall|i: int|
            0 <= i < flags@.len() ==> flags@[i] || #[trigger] hits@[i] == 1),
{
    let n = flags.len();
    let ghost fl = flags@;
    let ghost ht = hits@;
    let mut maxh: u64 = 0;
    let mut i: usize = 0;
    while i < n
        invariant
            fl == flags@,
            ht == hits@,
            n == fl.len(),
            fl.len() == ht.len(),
            0 <= i <= n,
            maxh < u64::MAX,
            forall|ii: int| 0 <= ii < i && !fl[ii] ==> #[trigger] ht[ii] <= maxh,
            forall|ii: int| 0 <= ii < ht.len() ==> #[trigger] ht[ii] < u64::MAX,
        decreases n - i,
    {
        if !flags[i] {
            let h = hits[i];
            if h > maxh {
                maxh = h;
            }
        }
        i = i + 1;
    }
    let mut hist: Vec<(u64, u64)> = Vec::new();
    let mut k: u64 = 1;
    proof {
        lemma_count_le_zero(fl, ht, fl.len() as int);
    }
    while k <= maxh
        invariant
            fl == flags@,
            ht == hits@,
            n == fl.len(),
            fl.len() == ht.len(),
            maxh < u64::MAX,
            1 <= k <= maxh + 1,
            forall|i2: int| 0 <= i2 < n && !fl[i2] ==> #[trigger] ht[i2] <= maxh,
            forall|i2: int| 0 <= i2 < fl.len() ==> (fl[i2] <==> #[trigger] ht[i2] == 0),
            forall|t: int|
                0 <= t < hist@.len() ==> 1 <= (#[trigger] hist@[t]).0 < k && hist@[t].1 >= 1,
            forall|t1: int, t2: int| 0 <= t1 < t2 < hist@.len() ==> hist@[t1].0 < hist@[t2].0,
            forall|t: int|
                0 <= t < hist@.len() ==> (#[trigger] hist@[t]).1 == count_hits_eq(
                    fl,
                    ht,
                    hist@[t].0,
                    fl.len() as int,
                ),
            forall|kk: u64|
                1 <= kk < k && count_hits_eq(fl, ht, kk, fl.len() as int) > 0 ==> exists|t: int|
                    0 <= t < hist@.len() && (#[trigger] hist@[t]).0 == kk,
            hist_vsum(hist@) == count_hits_le(fl, ht, (k - 1) as u64, fl.len() as int),
        decreases maxh - k + 1,
    {
        let mut c: u64 = 0;
        let mut i2: usize = 0;
        while i2 < n
            invariant
                fl == flags@,
                ht == hits@,
                n == fl.len(),
                fl.len() == ht.len(),
                0 <= i2 <= n,
                c == count_hits_eq(fl, ht, k, i2 as int),
                c <= i2,
            decreases n - i2,
        {
            if !flags[i2] && hits[i2] == k {
                c = c + 1;
            }
            i2 = i2 + 1;
        }
        proof {
            lemma_count_le_step(fl, ht, k, fl.len() as int);
        }
        if c > 0 {
            let ghost old_hist = hist@;
            hist.push((k, c));
            proof {
                assert(hist@.drop_last() =~= old_hist);
                assert forall|kk: u64|
                    1 <= kk < k + 1 && count_hits_eq(fl, ht, kk, fl.len() as int) > 0
                    implies exists|t: int|
                    0 <= t < hist@.len() && (#[trigger] hist@[t]).0 == kk by {
                    if kk < k {
                        let t = choose|t: int|
                            0 <= t < old_hist.len() && (#[trigger] old_hist[t]).0 == kk;
                        assert(hist@[t].0 == kk);
                    } else {
                        assert(hist@[hist@.len() - 1].0 == kk);
                    }
                }
            }
        } else {
            proof {
                lemma_count_hits_eq_pos(fl, ht, k, fl.len() as int);
            }
        }
        k = k + 1;
    }
    proof {
        lemma_count_le_all(fl, ht, (k - 1) as u64, fl.len() as int);
        assert forall|kk: u64|
            count_hits_eq(fl, ht, kk, fl.len() as int) > 0 implies exists|t: int|
            0 <= t < hist@.len() && (#[trigger] hist@[t]).0 == kk by {
            lemma_count_hits_eq_pos(fl, ht, kk, fl.len() as int);
            let i3 = choose|i3: int| 0 <= i3 < fl.len() && !fl[i3] && #[trigger] ht[i3] == kk;
            assert(1 <= kk <= maxh);
        }
        lemma_hist_sums(hist@);
        // The weighted sum equals the eliminated count exactly when every
        // eliminated position was struck exactly once.
        if forall|t: int| 0 <= t < hist@.len() ==> (#[trigger] hist@[t]).0 == 1 {
            assert forall|i3: int| 0 <= i3 < fl.len() implies fl[i3] || #[trigger] ht[i3]
                == 1 by {
                if !fl[i3] {
                    lemma_count_hits_eq_pos(fl, ht, ht[i3], fl.len() as int);
                    let t = choose|t: int|
                        0 <= t < hist@.len() && (#[trigger] hist@[t]).0 == ht[i3];
                    assert(ht[i3] == 1);
                }
            }
        }
        if forall|i3: int| 0 <= i3 < fl.len() ==> fl[i3] || #[trigger] ht[i3] == 1 {
            assert forall|t: int| 0 <= t < hist@.len() implies (#[trigger] hist@[t]).0 == 1 by {
                lemma_count_hits_eq_pos(fl, ht, hist@[t].0, fl.len() as int);
                let i3 = choose|i3: int|
                    0 <= i3 < fl.len() && !fl[i3] && #[trigger] ht[i3] == hist@[t].0;
            }
        }
    }
    hist
}

/// A pair drawn from two consecutive entries of `ps` that differ by
/// exactly 2.
pub open spec fn is_twin_pair(ps: Seq<u64>, pair: (u64, u64)) -> bool {
    exists|j: int|
        0 <= j < ps.len() - 1 && #[trigger] ps[j] == pair.0 && ps[j + 1] == pair.1 && pair.1
            == pair.0 + 2
}

/// The twin pairs found among the first `n + 1` entries of `ps`, in order.
pub open spec fn twins_of(ps: Seq<u64>, n: int) -> Seq<(u64, u64)>
    decreases n,
{
    if n <= 0 {
        Seq::empty()
    } else {
        twins_of(ps, n - 1) + if ps[n] == ps[n - 1] + 2 {
            seq![(ps[n - 1], ps[n])]
        } else {
            Seq::empty()
        }
    }
}

/// Each twin pair is two consecutive source entries exactly 2 apart.
pub proof fn lemma_twins_of_pairs(ps: Seq<u64>, n: int)
    requires
        n < ps.len(),
    ensures
        forall|t: int|
            0 <= t < twins_of(ps, n).len() ==> is_twin_pair(ps, #[trigger] twins_of(ps, n)[t]),
        forall|t: int|
            0 <= t < twins_of(ps, n).len() ==> (#[trigger] twins_of(ps, n)[t]).1 == twins_of(
                ps,
                n,
            )[t].0 + 2,
    decreases n,
{
    if n > 0 {
        lemma_twins_of_pairs(ps, n - 1);
        let d = twins_of(ps, n - 1);
        let w = twins_of(ps, n);
        if ps[n] == ps[n - 1] + 2 {
            let pair = (ps[n - 1], ps[n]);
            assert(w == d + seq![pair]);
            assert(w[w.len() - 1] == pair);
            assert(is_twin_pair(ps, pair)) by {
                assert(ps[n - 1] == pair.0);
            }
            assert forall|t: int| 0 <= t < d.len() implies w[t] == d[t] by {}
        } else {
            assert(w =~= d);
        }
    }
}

/// Every two consecutive source entries exactly 2 apart yield a twin pair.
pub proof fn lemma_twins_of_complete(ps: Seq<u64>, n: int)
    requires
        n < ps.len(),
    ensures
        forall|jj: int|
            0 <= jj < n && ps[jj + 1] == (#[trigger] ps[jj]) + 2 ==> twins_of(ps, n).contains(
                (ps[jj], ps[jj + 1]),
            ),
    decreases n,
{
    if n > 0 {
        lemma_twins_of_complete(ps, n - 1);
        let d = twins_of(ps, n - 1);
        let w = twins_of(ps, n);
        assert forall|jj: int|
            0 <= jj < n && ps[jj + 1] == (#[trigger] ps[jj]) + 2 implies w.contains(
            (ps[jj], ps[jj + 1]),
        ) by {
            if jj < n - 1 {
                let t = choose|t: int| 0 <= t < d.len() && d[t] == (ps[jj], ps[jj + 1]);
                assert(w[t] == (ps[jj], ps[jj + 1]));
            } else {
                assert(ps[n] == ps[n - 1] + 2);
                assert(w[w.len() - 1] == (ps[jj], ps[jj + 1]));
            }
        }
    }
}

/// The twin pairs come in the order of an ascending source list.
pub proof fn lemma_twins_of_sorted(ps: Seq<u64>, n: int)
    requires
        n < ps.len(),
        forall|t1: int, t2: int| 0 <= t1 < t2 < ps.len() ==> ps[t1] < ps[t2],
    ensures
        forall|t1: int, t2: int|
            0 <= t1 < t2 < twins_of(ps, n).len() ==> twins_of(ps, n)[t1].0 < twins_of(ps, n)[t2].0,
        0 <= n ==> forall|t: int|
            0 <= t < twins_of(ps, n).len() ==> (#[trigger] twins_of(ps, n)[t]).0 < ps[n],
    decreases n,
{
    if n > 0 {
        lemma_twins_of_sorted(ps, n - 1);
        let d = twins_of(ps, n - 1);
        let w = twins_of(ps, n);
        if ps[n] == ps[n - 1] + 2 {
            assert(w == d + seq![(ps[n - 1], ps[n])]);
            assert(w[w.len() - 1] == (ps[n - 1], ps[n]));
            assert forall|t: int| 0 <= t < d.len() implies w[t] == d[t] by {}
        } else {
            assert(w =~= d);
        }
    }
}

/// Walks the prime list once and pairs each two consecutive entries that
/// differ by exactly 2.
pub fn find_twins(primes: &Vec<u64>) -> (twins: Vec<(u64, u64)>)
    requires
        forall|t1: int, t2: int| 0 <= t1 < t2 < primes@.len() ==> primes@[t1] < primes@[t2],
    ensures
        twins@ == twins_of(primes@, primes@.len() - 1),
{
    let mut twins: Vec<(u64, u64)> = Vec::new();
    if primes.len() == 0 {
        proof {
            assert(twins@ =~= twins_of(primes@, primes@.len() - 1));
        }
        return twins;
    }
    proof {
        assert(twins@ =~= twins_of(primes@, 0));
    }
    let mut j: usize = 0;
    while j < primes.len() - 1
        invariant
            primes@.len() >= 1,
            0 <= j <= primes@.len() - 1,
            forall|t1: int, t2: int| 0 <= t1 < t2 < primes@.len() ==> primes@[t1] < primes@[t2],
            twins@ == twins_of(primes@, j as int),
        decreases primes@.len() - 1 - j,
    {
        let a = primes[j];
        let b = primes[j + 1];
        let ghost old_twins = twins@;
        if b - a == 2 {
            twins.push((a, b));
        }
        proof {
            assert(primes@[j as int] == a && primes@[j as int + 1] == b);
            assert(a < b);
            if b - a == 2 {
                assert(primes@[j as int + 1] == primes@[j as int] + 2);
                assert(twins@ =~= old_twins + seq![(a, b)]);
            } else {
                assert(primes@[j as int + 1] != primes@[j as int] + 2);
                assert(twins@ =~= old_twins + Seq::empty());
            }
        }
        j = j + 1;
    }
    twins
}

} // verus!
