//! The module pool generator: an integer square root for the window bound
//! and a classic sieve that returns, in ascending order, every prime up to
//! that bound — the "modules" that drive the elimination engine.

use vstd::prelude::*;

verus! {

use vstd::pervasive::VecAdditionalExecFns;
use vstd::arithmetic::div_mod::{lemma_add_mod_noop, lemma_mod_add_multiples_vanish, lemma_small_mod};
use crate::primality::{
    divides, is_prime, lemma_composite_has_small_prime_factor, lemma_divides_mul,
};

/// The floor of the square root, by binary search on 64-bit inputs.
pub fn isqrt(n: u64) -> (r: u64)
    ensures
        (r as int) * (r as int) <= n as int,
        (n as int) < (r as int + 1) * (r as int + 1),
        r <= 0xFFFF_FFFFu64,
{
    let mut lo: u64 = 0;
    let mut hi: u64 = 0x1_0000_0000;
    proof {
        assert((hi as int) * (hi as int) > n as int) by (nonlinear_arith)
            requires
                hi as int == 0x1_0000_0000,
                n as int <= 0xFFFF_FFFF_FFFF_FFFF,
        ;
    }
    while hi - lo > 1
        invariant
            lo < hi,
            hi <= 0x1_0000_0000u64,
            (lo as int) * (lo as int) <= n as int,
            (n as int) < (hi as int) * (hi as int),
        decreases hi - lo,
    {
        let mid = lo + (hi - lo) / 2;
        proof {
            assert((mid as int) * (mid as int) < 0x1_0000_0000_0000_0000_0000_0000_0000_0000)
                by (nonlinear_arith)
                requires
                    mid as int <= 0x1_0000_0000,
            ;
        }
        if (mid as u128) * (mid as u128) <= n as u128 {
            lo = mid;
        } else {
            hi = mid;
        }
    }
    lo
}

/// The marking relation of the sieve: after all primes below `p` have run,
/// a slot `i` is struck exactly when some prime `q < p` with `q * q <= i`
/// divides it.
spec fn marked_by(q: int, i: int, p: int) -> bool {
    is_prime(q) && 2 <= q < p && divides(q, i) && q * q <= i
}

/// Generates the ascending list of all primes up to `limit` by a classic
/// sieve: each prime strikes its multiples from its square upward.
pub fn sieve_primes(limit: u64) -> (modules: Vec<u64>)
    requires
        limit <= 0xFFFF_FFFFu64,
        limit as int + 1 <= usize::MAX as int,
    ensures
        forall|j: int|
            0 <= j < modules@.len() ==> is_prime(#[trigger] modules@[j] as int)
                && modules@[j] <= limit,
        forall|j1: int, j2: int|
            0 <= j1 < j2 < modules@.len() ==> modules@[j1] < modules@[j2],
        forall|q: u64| 2 <= q <= limit && is_prime(q as int) ==> modules@.contains(q),
{
    let n: usize = (limit as usize) + 1;
    let mut alive: Vec<bool> = Vec::new();
    while alive.len() < n
        invariant
            alive@.len() <= n,
            forall|i: int| 0 <= i < alive@.len() ==> alive@[i],
        decreases n - alive.len(),
    {
        alive.push(true);
    }
    let mut modules: Vec<u64> = Vec::new();
    let mut p: u64 = 2;
    while p <= limit
        invariant
            alive@.len() == limit as int + 1,
            2 <= p,
            limit >= 2 ==> p <= limit as int + 1,
            limit < 2 ==> p == 2,
            limit <= 0xFFFF_FFFFu64,
            forall|i: int|
                2 <= i <= limit ==> ((!#[trigger] alive@[i]) <==> exists|q: int|
                    #[trigger] marked_by(q, i, p as int)),
            forall|j: int|
                0 <= j < modules@.len() ==> is_prime(#[trigger] modules@[j] as int)
                    && 2 <= modules@[j] < p,
            forall|j1: int, j2: int|
                0 <= j1 < j2 < modules@.len() ==> modules@[j1] < modules@[j2],
            forall|q: u64| 2 <= q < p && is_prime(q as int) ==> modules@.contains(q),
        decreases limit as int + 1 - p as int,
    {
        if alive[p as usize] {
            proof {
                if !is_prime(p as int) {
                    lemma_composite_has_small_prime_factor(p as int);
                    let q = choose|q: int|
                        is_prime(q) && 2 <= q < p && #[trigger] divides(q, p as int)
                            && q * q <= p;
                    assert(marked_by(q, p as int, p as int));
                    assert(!alive@[p as int]);
                }
            }
            let ghost old_modules = modules@;
            modules.push(p);
            proof {
                assert forall|q: u64| 2 <= q < p + 1 && is_prime(q as int) implies modules@
                    .contains(q) by {
                    if q < p {
                        let j = choose|j: int| 0 <= j < old_modules.len() && old_modules[j] == q;
                        assert(modules@[j] == q);
                    } else {
                        assert(modules@[modules@.len() - 1] == q);
                    }
                }
            }
            proof {
                assert((p as int) * (p as int) <= 0xFFFF_FFFFi64 * 0xFFFF_FFFFi64)
                    by (nonlinear_arith)
                    requires
                        p as int <= 0xFFFF_FFFF,
                ;
            }
            let mut c: u64 = p * p;
            proof {
                lemma_divides_mul(p as int, p as int);
            }
            while c <= limit
                invariant
                    alive@.len() == limit as int + 1,
                    2 <= p <= limit,
                    limit <= 0xFFFF_FFFFu64,
                    is_prime(p as int),
                    (p as int) * (p as int) <= c as int,
                    divides(p as int, c as int),
                    forall|i: int|
                        2 <= i <= limit ==> ((!#[trigger] alive@[i]) <==> (exists|q: int|
                            #[trigger] marked_by(q, i, p as int)) || (divides(p as int, i)
                            && (p as int) * (p as int) <= i && i < c as int)),
                decreases limit as int + p as int - c as int,
            {
                alive.set(c as usize, false);
                proof {
                    assert forall|i: int| c < i < c + p implies !divides(p as int, i) by {
                        lemma_add_mod_noop(c as int, i - c, p as int);
                        lemma_small_mod((i - c) as nat, p as nat);
                    }
                    lemma_mod_add_multiples_vanish(c as int, p as int);
                }
                c = c + p;
            }
            proof {
                assert forall|i: int| 2 <= i <= limit implies ((!#[trigger] alive@[i])
                    <==> exists|q: int| #[trigger] marked_by(q, i, p as int + 1)) by {
                    if !alive@[i] {
                        if exists|q: int| #[trigger] marked_by(q, i, p as int) {
                            let q = choose|q: int| #[trigger] marked_by(q, i, p as int);
                            assert(marked_by(q, i, p as int + 1));
                        } else {
                            assert(marked_by(p as int, i, p as int + 1));
                        }
                    } else {
                        if exists|q: int| #[trigger] marked_by(q, i, p as int + 1) {
                            let q = choose|q: int| #[trigger] marked_by(q, i, p as int + 1);
                            if q < p {
                                assert(marked_by(q, i, p as int));
                            } else {
                                assert(q == p);
                            }
                            assert(false);
                        }
                    }
                }
            }
        } else {
            proof {
                let qp = choose|q: int| #[trigger] marked_by(q, p as int, p as int);
                assert(divides(qp, p as int));
                assert(!is_prime(p as int));
                assert forall|i: int| 2 <= i <= limit implies ((!#[trigger] alive@[i])
                    <==> exists|q: int| #[trigger] marked_by(q, i, p as int + 1)) by {
                    if !alive@[i] {
                        let q = choose|q: int| #[trigger] marked_by(q, i, p as int);
                        assert(marked_by(q, i, p as int + 1));
                    } else {
                        if exists|q: int| #[trigger] marked_by(q, i, p as int + 1) {
                            let q = choose|q: int| #[trigger] marked_by(q, i, p as int + 1);
                            if q < p {
                                assert(marked_by(q, i, p as int));
                            }
                            assert(false);
                        }
                    }
                }
            }
        }
        p = p + 1;
    }
    modules
}

proof fn lemma_ascending_index_lb(s: Seq<u64>, i: int)
    requires
        forall|j1: int, j2: int| 0 <= j1 < j2 < s.len() ==> s[j1] < s[j2],
        0 <= i < s.len(),
    ensures
        s[i] >= i,
    decreases i,
{
    if i > 0 {
        lemma_ascending_index_lb(s, i - 1);
    }
}

/// A strictly ascending list of values at most `limit` has at most
/// `limit + 1` entries.
pub proof fn lemma_ascending_len_bound(s: Seq<u64>, limit: u64)
    requires
        forall|j1: int, j2: int| 0 <= j1 < j2 < s.len() ==> s[j1] < s[j2],
        forall|j: int| 0 <= j < s.len() ==> #[trigger] s[j] <= limit,
    ensures
        s.len() <= limit as int + 1,
{
    if s.len() > limit as int + 1 {
        lemma_ascending_index_lb(s, limit as int + 1);
    }
}

/// Law: the pool lists every prime up to its bound, each exactly once —
/// every listed module is a prime no larger than the bound, every prime up
/// to the bound occurs, and no module occurs at two positions.
pub proof fn lemma_pool_lists_each_prime_once(mods: Seq<u64>, limit: u64)
    requires
        forall|j: int|
            0 <= j < mods.len() ==> is_prime(#[trigger] mods[j] as int) && mods[j] <= limit,
        forall|j1: int, j2: int| 0 <= j1 < j2 < mods.len() ==> mods[j1] < mods[j2],
        forall|q: u64| 2 <= q <= limit && is_prime(q as int) ==> mods.contains(q),
    ensures
        forall|q: u64| 2 <= q <= limit && is_prime(q as int) ==> mods.contains(q),
        forall|j1: int, j2: int|
            0 <= j1 < mods.len() && 0 <= j2 < mods.len() && mods[j1] == mods[j2] ==> j1 == j2,
{
    assert forall|j1: int, j2: int|
        0 <= j1 < mods.len() && 0 <= j2 < mods.len() && mods[j1] == mods[j2] implies j1 == j2 by {
        if j1 < j2 {
            assert(mods[j1] < mods[j2]);
        }
        if j2 < j1 {
            assert(mods[j2] < mods[j1]);
        }
    }
}

} // verus!
