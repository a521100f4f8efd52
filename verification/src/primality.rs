//! Divisibility and primality, stated over mathematical integers, together
//! with the facts the sieve and the elimination engine rest on: every
//! composite has a prime factor no larger than its square root, and a prime
//! has no divisor besides itself.

use vstd::prelude::*;

verus! {

use vstd::arithmetic::div_mod::{
    lemma_fundamental_div_mod, lemma_mod_multiples_basic, lemma_mod_self_0, lemma_small_mod,
};
use vstd::arithmetic::mul::{
    lemma_mul_inequality, lemma_mul_is_associative, lemma_mul_is_commutative,
};

/// `d` evenly divides `n` (meaningful for a positive divisor `d`).
pub open spec fn divides(d: int, n: int) -> bool
    recommends
        d >= 1,
{
    n % d == 0
}

/// A number is prime when it is at least 2 and has no proper divisor.
pub open spec fn is_prime(n: int) -> bool {
    n >= 2 && forall|d: int| 2 <= d < n ==> !(#[trigger] divides(d, n))
}

/// A product of a positive number is divisible by it.
pub proof fn lemma_divides_mul(d: int, k: int)
    requires
        d >= 1,
    ensures
        divides(d, d * k),
{
    lemma_mod_multiples_basic(k, d);
    lemma_mul_is_commutative(d, k);
}

/// A positive divisor splits its multiple exactly.
pub proof fn lemma_divides_factor(d: int, n: int)
    requires
        d >= 1,
        divides(d, n),
    ensures
        n == d * (n / d),
{
    lemma_fundamental_div_mod(n, d);
}

/// Divisibility is transitive.
pub proof fn lemma_divides_transitive(a: int, b: int, c: int)
    requires
        a >= 1,
        b >= 1,
        divides(a, b),
        divides(b, c),
    ensures
        divides(a, c),
{
    lemma_divides_factor(a, b);
    lemma_divides_factor(b, c);
    let kb = b / a;
    let kc = c / b;
    assert(c == (a * kb) * kc);
    lemma_mul_is_associative(a, kb, kc);
    lemma_divides_mul(a, kb * kc);
}

/// A divisor of a positive number is no larger than it.
pub proof fn lemma_divides_le(d: int, n: int)
    requires
        d >= 1,
        n >= 1,
        divides(d, n),
    ensures
        d <= n,
{
    if d > n {
        lemma_small_mod(n as nat, d as nat);
        assert(n % d == n);
    }
}

/// The least candidate divisor of `n` at or above `c` (or `n` when none is
/// below `n`).
pub open spec fn least_divisor_from(n: int, c: int) -> int
    decreases n - c,
{
    if c < 2 || c >= n {
        n
    } else if divides(c, n) {
        c
    } else {
        least_divisor_from(n, c + 1)
    }
}

/// The least divisor of `n` that is at least 2.
pub open spec fn least_divisor(n: int) -> int {
    least_divisor_from(n, 2)
}

proof fn lemma_least_divisor_from(n: int, c: int)
    requires
        2 <= c <= n,
    ensures
        c <= least_divisor_from(n, c) <= n,
        divides(least_divisor_from(n, c), n),
        forall|d: int| c <= d < least_divisor_from(n, c) ==> !(#[trigger] divides(d, n)),
    decreases n - c,
{
    if c >= n {
        lemma_mod_self_0(n);
    } else if divides(c, n) {
    } else {
        lemma_least_divisor_from(n, c + 1);
    }
}

/// The least divisor of `n >= 2` divides `n`, is itself prime, and nothing
/// smaller (besides 1) divides `n`.
pub proof fn lemma_least_divisor(n: int)
    requires
        n >= 2,
    ensures
        2 <= least_divisor(n) <= n,
        divides(least_divisor(n), n),
        is_prime(least_divisor(n)),
        forall|d: int| 2 <= d < least_divisor(n) ==> !(#[trigger] divides(d, n)),
{
    lemma_least_divisor_from(n, 2);
    let p = least_divisor(n);
    assert forall|d: int| 2 <= d < p implies !(#[trigger] divides(d, p)) by {
        if divides(d, p) {
            lemma_divides_transitive(d, p, n);
        }
    }
}

/// Every composite number has a prime factor whose square does not exceed it.
pub proof fn lemma_composite_has_small_prime_factor(n: int)
    requires
        n >= 2,
        !is_prime(n),
    ensures
        exists|q: int|
            is_prime(q) && 2 <= q < n && #[trigger] divides(q, n) && q * q <= n,
{
    lemma_least_divisor(n);
    let p = least_divisor(n);
    let d = choose|d: int| 2 <= d < n && #[trigger] divides(d, n);
    assert(divides(d, n));
    assert(p <= d) by {
        if p > d {
            assert(!divides(d, n));
        }
    }
    let k = n / p;
    lemma_divides_factor(p, n);
    assert(n == p * k);
    assert(k >= 2) by (nonlinear_arith)
        requires
            n == p * k,
            2 <= p,
            p < n,
    ;
    lemma_mul_is_commutative(p, k);
    lemma_divides_mul(k, p);
    assert(divides(k, n));
    assert(k < n) by (nonlinear_arith)
        requires
            n == p * k,
            2 <= p,
            2 <= k,
    ;
    assert(p <= k) by {
        if p > k {
            assert(!divides(k, n));
        }
    }
    lemma_mul_inequality(p, k, p);
    lemma_mul_is_commutative(k, p);
    assert(p * p <= n);
}

/// A prime's only divisor at or above 2 is the prime itself.
pub proof fn lemma_prime_divisor_is_self(q: int, n: int)
    requires
        is_prime(n),
        q >= 2,
        divides(q, n),
    ensures
        q == n,
{
    lemma_divides_le(q, n);
    if q < n {
        assert(!divides(q, n));
    }
}

} // verus!
