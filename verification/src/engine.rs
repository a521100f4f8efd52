//! The segmented elimination engine: every module strikes each of its
//! multiples inside the window `[start, start + scan_range)`, flipping the
//! survival flag of the position and incrementing its hit counter, and the
//! raw count of marking operations is returned.

use vstd::prelude::*;

verus! {

use vstd::pervasive::VecAdditionalExecFns;
use vstd::arithmetic::div_mod::{
    lemma_add_mod_noop, lemma_mod_add_multiples_vanish, lemma_mod_self_0, lemma_small_mod,
};
use crate::primality::divides;

/// How many of the first `upto` modules divide `n`.
pub open spec fn count_dividing(mods: Seq<u64>, n: int, upto: int) -> int
    decreases upto,
{
    if upto <= 0 {
        0
    } else {
        count_dividing(mods, n, upto - 1) + if divides(mods[upto - 1] as int, n) {
            1int
        } else {
            0int
        }
    }
}

/// The count of dividing modules is between 0 and the number considered.
pub proof fn lemma_count_dividing_bound(mods: Seq<u64>, n: int, upto: int)
    requires
        0 <= upto <= mods.len(),
    ensures
        0 <= count_dividing(mods, n, upto) <= upto,
    decreases upto,
{
    if upto > 0 {
        lemma_count_dividing_bound(mods, n, upto - 1);
    }
}

/// The count of dividing modules is zero exactly when none of them divides.
pub proof fn lemma_count_dividing_zero(mods: Seq<u64>, n: int, upto: int)
    requires
        0 <= upto <= mods.len(),
    ensures
        (count_dividing(mods, n, upto) == 0) <==> (forall|j: int|
            0 <= j < upto ==> !(#[trigger] divides(mods[j] as int, n))),
    decreases upto,
{
    if upto > 0 {
        lemma_count_dividing_zero(mods, n, upto - 1);
        lemma_count_dividing_bound(mods, n, upto - 1);
    }
}

/// The sum of a sequence of counters.
pub open spec fn seq_sum(s: Seq<u64>) -> int
    decreases s.len(),
{
    if s.len() == 0 {
        0
    } else {
        seq_sum(s.drop_last()) + s.last()
    }
}

/// Updating one counter moves the sum by the difference.
pub proof fn lemma_seq_sum_update(s: Seq<u64>, i: int, v: u64)
    requires
        0 <= i < s.len(),
    ensures
        seq_sum(s.update(i, v)) == seq_sum(s) - s[i] + v,
    decreases s.len(),
{
    if i == s.len() - 1 {
        assert(s.update(i, v).drop_last() =~= s.drop_last());
    } else {
        lemma_seq_sum_update(s.drop_last(), i, v);
        assert(s.update(i, v).drop_last() =~= s.drop_last().update(i, v));
    }
}

/// A sequence of counters each at most `b` sums to at most `len * b`.
pub proof fn lemma_seq_sum_bound(s: Seq<u64>, b: int)
    requires
        forall|i: int| 0 <= i < s.len() ==> s[i] <= b,
    ensures
        0 <= seq_sum(s),
        seq_sum(s) <= s.len() * b,
    decreases s.len(),
{
    if s.len() > 0 {
        lemma_seq_sum_bound(s.drop_last(), b);
        assert((s.len() - 1) * b + b == s.len() * b) by (nonlinear_arith);
    }
}

/// Runs the elimination pass. For each module `p` the first in-window
/// multiple of `p` is located by the direct-offset formula and every
/// multiple from there on is struck: its flag is cleared and its hit
/// counter incremented. The return value counts marking operations, so a
/// position struck by several modules is counted once per module.
pub fn eliminate(
    start: u64,
    scan_range: u64,
    modules: &Vec<u64>,
    flags: &mut Vec<bool>,
    hits: &mut Vec<u64>,
) -> (total: u128)
    requires
        start as int + scan_range as int <= u64::MAX as int,
        old(flags)@.len() == scan_range,
        old(hits)@.len() == scan_range,
        forall|i: int| 0 <= i < scan_range ==> old(flags)@[i],
        forall|i: int| 0 <= i < scan_range ==> old(hits)@[i] == 0,
        forall|j: int| 0 <= j < modules@.len() ==> #[trigger] modules@[j] >= 2,
    ensures
        final(flags)@.len() == scan_range,
        final(hits)@.len() == scan_range,
        forall|i: int|
            0 <= i < scan_range ==> final(hits)@[i] == count_dividing(
                modules@,
                start as int + i,
                modules@.len() as int,
            ),
        forall|i: int| 0 <= i < scan_range ==> (final(flags)@[i] <==> final(hits)@[i] == 0),
        forall|i: int|
            0 <= i < scan_range ==> ((!final(flags)@[i]) <==> exists|j: int|
                0 <= j < modules@.len() && #[trigger] divides(
                    modules@[j] as int,
                    start as int + i,
                )),
        total == seq_sum(final(hits)@),
{
    let mut total: u128 = 0;
    let mut j: usize = 0;
    // Reading the lengths through the vectors pins both counts into the
    // usize range, which the counter bounds below lean on.
    let _scan_fits_usize = flags.len();
    let _module_count = modules.len();
    proof {
        lemma_seq_sum_bound(hits@, 0);
        assert(scan_range as int <= usize::MAX as int);
        assert(modules@.len() <= usize::MAX as int);
    }
    while j < modules.len()
        invariant
            start as int + scan_range as int <= u64::MAX as int,
            scan_range as int <= usize::MAX as int,
            modules@.len() <= usize::MAX as int,
            flags@.len() == scan_range,
            hits@.len() == scan_range,
            0 <= j <= modules@.len(),
            forall|jj: int| 0 <= jj < modules@.len() ==> #[trigger] modules@[jj] >= 2,
            forall|i: int|
                0 <= i < scan_range ==> hits@[i] == count_dividing(
                    modules@,
                    start as int + i,
                    j as int,
                ),
            forall|i: int| 0 <= i < scan_range ==> #[trigger] hits@[i] <= j,
            forall|i: int|
                0 <= i < scan_range ==> ((!#[trigger] flags@[i]) <==> exists|jj: int|
                    0 <= jj < j && #[trigger] divides(modules@[jj] as int, start as int + i)),
            total == seq_sum(hits@),
        decreases modules@.len() - j,
    {
        let p = modules[j];
        let rem = start % p;
        let first = (p - rem) % p;
        proof {
            lemma_mod_self_0(p as int);
            if rem > 0 {
                lemma_small_mod((p - rem) as nat, p as nat);
            }
            assert(first as int == if rem == 0 { 0int } else { p as int - rem as int });
            lemma_add_mod_noop(start as int, first as int, p as int);
            lemma_small_mod(first as nat, p as nat);
            assert(divides(p as int, start as int + first as int));
            assert forall|i: int| 0 <= i < first implies !(#[trigger] divides(
                p as int,
                start as int + i,
            )) by {
                lemma_add_mod_noop(start as int, i, p as int);
                lemma_small_mod(i as nat, p as nat);
                lemma_small_mod((rem as int + i) as nat, p as nat);
            }
        }
        let mut cur: u64 = first;
        while cur < scan_range
            invariant
                start as int + scan_range as int <= u64::MAX as int,
                scan_range as int <= usize::MAX as int,
                modules@.len() <= usize::MAX as int,
                flags@.len() == scan_range,
                hits@.len() == scan_range,
                0 <= j < modules@.len(),
                p == modules@[j as int],
                p >= 2,
                cur < scan_range ==> divides(p as int, start as int + cur as int),
                forall|i: int|
                    0 <= i < scan_range ==> hits@[i] == count_dividing(
                        modules@,
                        start as int + i,
                        j as int,
                    ) + if divides(p as int, start as int + i) && i < cur as int {
                        1int
                    } else {
                        0int
                    },
                forall|i: int| 0 <= i < scan_range ==> #[trigger] hits@[i] <= j + 1,
                forall|i: int|
                    0 <= i < scan_range ==> ((!#[trigger] flags@[i]) <==> (exists|jj: int|
                        0 <= jj < j && #[trigger] divides(modules@[jj] as int, start as int + i))
                        || (divides(p as int, start as int + i) && i < cur as int)),
                total == seq_sum(hits@),
            decreases scan_range - cur,
        {
            let idx = cur as usize;
            let h = hits[idx];
            proof {
                lemma_count_dividing_bound(modules@, start as int + cur as int, j as int);
                lemma_seq_sum_update(hits@, cur as int, (h + 1) as u64);
                lemma_seq_sum_bound(hits@, j as int + 1);
                assert(scan_range as int * (j as int + 1) <= u64::MAX as int * u64::MAX as int)
                    by (nonlinear_arith)
                    requires
                        0 <= scan_range as int <= u64::MAX as int,
                        0 <= j as int + 1 <= u64::MAX as int,
                ;
            }
            hits.set(idx, h + 1);
            flags.set(idx, false);
            total = total + 1;
            let room = scan_range - cur;
            if p < room {
                proof {
                    assert forall|i: int| cur < i < cur + p implies !(#[trigger] divides(
                        p as int,
                        start as int + i,
                    )) by {
                        lemma_add_mod_noop(start as int + cur as int, i - cur, p as int);
                        lemma_small_mod((i - cur) as nat, p as nat);
                    }
                    lemma_mod_add_multiples_vanish(start as int + cur as int, p as int);
                }
                cur = cur + p;
            } else {
                proof {
                    assert forall|i: int| cur < i < scan_range implies !(#[trigger] divides(
                        p as int,
                        start as int + i,
                    )) by {
                        lemma_add_mod_noop(start as int + cur as int, i - cur, p as int);
                        lemma_small_mod((i - cur) as nat, p as nat);
                    }
                }
                cur = scan_range;
            }
        }
        proof {
            assert forall|i: int| 0 <= i < scan_range implies ((!#[trigger] flags@[i])
                <==> exists|jj: int|
                    0 <= jj < j + 1 && #[trigger] divides(
                        modules@[jj] as int,
                        start as int + i,
                    )) by {
                if !flags@[i] {
                    if exists|jj: int|
                        0 <= jj < j && #[trigger] divides(modules@[jj] as int, start as int + i) {
                        let jj = choose|jj: int|
                            0 <= jj < j && #[trigger] divides(
                                modules@[jj] as int,
                                start as int + i,
                            );
                        assert(divides(modules@[jj] as int, start as int + i));
                    } else {
                        assert(divides(modules@[j as int] as int, start as int + i));
                    }
                }
            }
        }
        j = j + 1;
    }
    proof {
        assert forall|i: int| 0 <= i < scan_range implies (flags@[i] <==> hits@[i] == 0) by {
            lemma_count_dividing_zero(modules@, start as int + i, modules@.len() as int);
        }
    }
    total
}

} // verus!
