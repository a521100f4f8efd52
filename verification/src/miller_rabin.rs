//! The independent verifier: a deterministic Miller-Rabin test over a fixed
//! witness set, applied to every surviving candidate, and the accuracy
//! ratio of the sieve against it, kept exact in hundredths of a percent.

use vstd::prelude::*;

verus! {

use vstd::arithmetic::div_mod::{
    lemma_div_is_ordered, lemma_div_multiples_vanish, lemma_mul_mod_noop_general,
};
use vstd::arithmetic::power::{lemma_pow_adds, lemma_pow_mod_noop, lemma_square_is_pow2, pow};
use vstd::arithmetic::power2::{
    lemma2_to64, lemma2_to64_rest, lemma_pow2_adds, lemma_pow2_pos, lemma_pow2_strictly_increases,
    pow2,
};
use crate::modular::mod_pow;

/// The exponent of the largest power of two dividing `m` (0 for odd `m`).
pub open spec fn pow2_factor(m: nat) -> nat
    decreases m,
{
    if m == 0 || m % 2 == 1 {
        0
    } else {
        (1 + pow2_factor((m / 2) as nat)) as nat
    }
}

/// The odd factor left once every power of two is divided out of `m`.
pub open spec fn odd_part(m: nat) -> nat
    decreases m,
{
    if m == 0 || m % 2 == 1 {
        m
    } else {
        odd_part((m / 2) as nat)
    }
}

/// The decomposition `m == odd_part(m) * 2^pow2_factor(m)` with an odd
/// first factor.
pub proof fn lemma_decompose(m: nat)
    requires
        m >= 1,
    ensures
        odd_part(m) % 2 == 1,
        odd_part(m) >= 1,
        odd_part(m) * pow2(pow2_factor(m)) == m,
    decreases m,
{
    lemma2_to64();
    if m % 2 == 1 {
        assert(odd_part(m) == m && pow2_factor(m) == 0);
        assert(m * pow2(0) == m) by (nonlinear_arith)
            requires
                pow2(0) == 1,
        ;
    } else {
        let h = (m / 2) as nat;
        lemma_decompose(h);
        let f = pow2_factor(h);
        lemma_pow2_adds(f, 1);
        assert(pow2(1) == 2);
        assert(odd_part(m) == odd_part(h) && pow2_factor(m) == f + 1);
        assert(m == 2 * h);
        assert(odd_part(h) * pow2(f + 1) == 2 * (odd_part(h) * pow2(f))) by (nonlinear_arith)
            requires
                pow2(f + 1) == pow2(f) * 2,
        ;
    }
}

/// The power-of-two exponent of a 64-bit value is below 64.
proof fn lemma_pow2_factor_bound(m: nat)
    requires
        1 <= m <= u64::MAX,
    ensures
        pow2_factor(m) <= 63,
{
    lemma_decompose(m);
    let f = pow2_factor(m);
    lemma_pow2_pos(f);
    assert(pow2(f) <= m) by (nonlinear_arith)
        requires
            odd_part(m) >= 1,
            pow2(f) >= 1,
            odd_part(m) * pow2(f) == m,
    ;
    if f > 63 {
        if f > 64 {
            lemma_pow2_strictly_increases(64, f);
        }
        lemma2_to64_rest();
        assert(pow2(64) == 0x10000000000000000);
        assert(false);
    }
}

/// The deterministic witness bases used by the verifier.
pub open spec fn mr_bases() -> Seq<u64> {
    seq![2u64, 3u64, 5u64, 7u64, 11u64, 13u64, 17u64, 19u64, 23u64]
}

/// Witness `a` fails to certify odd `n >= 5` composite: `a` raised to the
/// odd part of `n - 1` is 1 modulo `n`, or one of the repeated squarings
/// reaches `n - 1`.
pub open spec fn witness_passes(n: u64, a: u64) -> bool
    recommends
        n >= 5 && n % 2 == 1,
{
    let d = odd_part((n - 1) as nat);
    let r = pow2_factor((n - 1) as nat);
    ||| pow(a as int, d) % (n as int) == 1
    ||| exists|j: nat| j < r && pow(a as int, (d * #[trigger] pow2(j)) as nat) % (n as int) == n - 1
}

/// What the Miller-Rabin verifier decides for `n`: the small special cases
/// directly, and otherwise whether every witness base below `n` passes.
pub open spec fn mr_prime(n: u64) -> bool {
    if n < 2 {
        false
    } else if n == 2 || n == 3 {
        true
    } else if n % 2 == 0 {
        false
    } else {
        forall|k: int|
            0 <= k < mr_bases().len() && #[trigger] mr_bases()[k] < n ==> witness_passes(
                n,
                mr_bases()[k],
            )
    }
}

/// Squaring a residue of `a^e` advances the exponent to `a^(2e)`.
proof fn lemma_mr_square(a: int, d: nat, k: nat, n: int, x: int)
    requires
        n >= 2,
        x == pow(a, (d * pow2(k)) as nat) % n,
    ensures
        (x * x) % n == pow(a, (d * pow2(k + 1)) as nat) % n,
{
    let e = (d * pow2(k)) as nat;
    lemma_pow2_adds(k, 1);
    lemma2_to64();
    assert(pow2(1) == 2);
    assert(d * pow2(k + 1) == e + e) by (nonlinear_arith)
        requires
            pow2(k + 1) == pow2(k) * 2,
            e == d * pow2(k),
    ;
    lemma_pow_adds(a, e, e);
    lemma_mul_mod_noop_general(pow(a, e), pow(a, e), n);
}

/// One pass of the witness loop: whether base `a` leaves `n` looking prime.
fn check_witness(n: u64, a: u64, d: u64, r: u64) -> (passes: bool)
    requires
        n >= 5,
        n % 2 == 1,
        1 <= a < n,
        d as nat == odd_part((n - 1) as nat),
        r as nat == pow2_factor((n - 1) as nat),
    ensures
        passes == witness_passes(n, a),
{
    proof {
        lemma_decompose((n - 1) as nat);
        assert(r >= 1);
        lemma2_to64();
        assert(pow2(0) == 1);
        assert(d as nat * pow2(0) == d as nat);
    }
    let mut x = mod_pow(a, d, n);
    if x == 1 {
        return true;
    }
    if x == n - 1 {
        proof {
            assert(pow(a as int, (d as nat * pow2(0)) as nat) % (n as int) == n - 1);
        }
        return true;
    }
    let mut k: u64 = 0;
    proof {
        assert forall|jj: nat| jj <= 0 implies pow(
            a as int,
            (odd_part((n - 1) as nat) * #[trigger] pow2(jj)) as nat,
        ) % (n as int) != n - 1 by {
            assert(jj == 0);
        }
    }
    while k < r - 1
        invariant
            n >= 5,
            n % 2 == 1,
            1 <= a < n,
            d as nat == odd_part((n - 1) as nat),
            r as nat == pow2_factor((n - 1) as nat),
            r >= 1,
            0 <= k <= r - 1,
            x as int == pow(a as int, (d as nat * pow2(k as nat)) as nat) % (n as int),
            pow(a as int, odd_part((n - 1) as nat)) % (n as int) != 1,
            forall|jj: nat|
                jj <= k ==> pow(
                    a as int,
                    (odd_part((n - 1) as nat) * #[trigger] pow2(jj)) as nat,
                ) % (n as int) != n - 1,
        decreases r - k,
    {
        proof {
            lemma_mr_square(a as int, d as nat, k as nat, n as int, x as int);
            lemma_square_is_pow2(x as int);
            lemma_pow_mod_noop(x as int, 2, n as int);
        }
        x = mod_pow(x, 2, n);
        k = k + 1;
        if x == n - 1 {
            proof {
                assert(pow(a as int, (d as nat * pow2(k as nat)) as nat) % (n as int) == n - 1);
                assert(k < r);
            }
            return true;
        }
        proof {
            assert forall|jj: nat| jj <= k implies pow(
                a as int,
                (odd_part((n - 1) as nat) * #[trigger] pow2(jj)) as nat,
            ) % (n as int) != n - 1 by {
                if jj == k {
                    assert(pow(a as int, (d as nat * pow2(k as nat)) as nat) % (n as int) != n
                        - 1);
                }
            }
        }
    }
    proof {
        assert forall|j: nat| j < r implies pow(
            a as int,
            (odd_part((n - 1) as nat) * #[trigger] pow2(j)) as nat,
        ) % (n as int) != n - 1 by {
            assert(j <= k);
        }
    }
    false
}

/// The `k`-th witness base.
fn nth_base(k: usize) -> (b: u64)
    requires
        k < 9,
    ensures
        b == mr_bases()[k as int],
        b >= 1,
{
    if k == 0 {
        2
    } else if k == 1 {
        3
    } else if k == 2 {
        5
    } else if k == 3 {
        7
    } else if k == 4 {
        11
    } else if k == 5 {
        13
    } else if k == 6 {
        17
    } else if k == 7 {
        19
    } else {
        23
    }
}

/// Decides primality of `n` by deterministic Miller-Rabin over the fixed
/// witness set, exactly as `mr_prime` states it: `n - 1` is split into an
/// odd part and a power of two, and every witness base below `n` must pass.
pub fn is_prime_miller_rabin(n: u64) -> (res: bool)
    ensures
        res == mr_prime(n),
{
    if n < 2 {
        return false;
    }
    if n == 2 || n == 3 {
        return true;
    }
    if n % 2 == 0 {
        return false;
    }
    let mut d: u64 = n - 1;
    let mut r: u64 = 0;
    proof {
        lemma_pow2_factor_bound((n - 1) as nat);
    }
    while d % 2 == 0
        invariant
            n >= 5,
            d >= 1,
            odd_part(d as nat) == odd_part((n - 1) as nat),
            pow2_factor(d as nat) + r == pow2_factor((n - 1) as nat),
            pow2_factor((n - 1) as nat) <= 63,
            r <= 63,
        decreases d,
    {
        proof {
            assert(odd_part(d as nat) == odd_part((d as nat / 2) as nat));
            assert(pow2_factor(d as nat) == 1 + pow2_factor((d as nat / 2) as nat));
        }
        d = d / 2;
        r = r + 1;
    }
    let mut idx: usize = 0;
    while idx < 9
        invariant
            n >= 5,
            n % 2 == 1,
            d as nat == odd_part((n - 1) as nat),
            r as nat == pow2_factor((n - 1) as nat),
            0 <= idx <= 9,
            forall|kk: int|
                0 <= kk < idx && #[trigger] mr_bases()[kk] < n ==> witness_passes(
                    n,
                    mr_bases()[kk],
                ),
        decreases 9 - idx,
    {
        let a = nth_base(idx);
        if a < n {
            let ok = check_witness(n, a, d, r);
            if !ok {
                proof {
                    assert(mr_bases()[idx as int] < n);
                    assert(!witness_passes(n, mr_bases()[idx as int]));
                }
                return false;
            }
        }
        idx = idx + 1;
    }
    true
}

/// How many of the first `n` entries the verifier certifies prime.
pub open spec fn count_mr(s: Seq<u64>, n: int) -> int
    decreases n,
{
    if n <= 0 {
        0
    } else {
        count_mr(s, n - 1) + if mr_prime(s[n - 1]) {
            1int
        } else {
            0int
        }
    }
}

/// Runs the verifier over every candidate and counts how many it certifies.
pub fn verify_primes(primes: &Vec<u64>) -> (valid: u64)
    ensures
        valid == count_mr(primes@, primes@.len() as int),
        valid <= primes@.len(),
{
    let mut valid: u64 = 0;
    let mut i: usize = 0;
    while i < primes.len()
        invariant
            0 <= i <= primes@.len(),
            valid == count_mr(primes@, i as int),
            valid <= i,
        decreases primes@.len() - i,
    {
        if is_prime_miller_rabin(primes[i]) {
            valid = valid + 1;
        }
        i = i + 1;
    }
    valid
}

/// The accuracy ratio in hundredths of a percent: 100.00 for an empty
/// candidate list, otherwise the certified fraction of the list, floored.
pub fn accuracy_hundredths(valid: u64, total: u64) -> (r: u64)
    requires
        valid <= total,
    ensures
        total == 0 ==> r == 10000,
        total > 0 ==> r as int == (valid as int * 10000) / (total as int),
        r <= 10000,
{
    if total == 0 {
        10000
    } else {
        let q = (valid as u128 * 10000) / (total as u128);
        proof {
            lemma_div_is_ordered(
                valid as int * 10000,
                total as int * 10000,
                total as int,
            );
            lemma_div_multiples_vanish(10000, total as int);
        }
        q as u64
    }
}

} // verus!
