//! The modular reducer: exact modular exponentiation by square-and-multiply,
//! with double-width intermediate products so that no step can overflow even
//! for moduli close to the full 64-bit range.

use vstd::prelude::*;

verus! {

use vstd::calc;
use vstd::arithmetic::div_mod::{
    lemma_mul_mod_noop_left, lemma_mul_mod_noop_right, lemma_small_mod,
};
use vstd::arithmetic::mul::lemma_mul_is_associative;
use vstd::arithmetic::power::{
    lemma_pow0, lemma_pow_mod_noop, lemma_pow_multiplies, lemma_square_is_pow2, pow,
};

/// One square-and-multiply step: halving the exponent after squaring the
/// base (and folding the base in once when the exponent is odd) preserves
/// the running product modulo `m`.
proof fn lemma_step(res: int, base: int, exp: nat, m: int)
    requires
        m >= 1,
        exp > 0,
    ensures
        exp % 2 == 1 ==> (((res * base) % m) * pow((base * base) % m, (exp / 2) as nat)) % m
            == (res * pow(base, exp)) % m,
        exp % 2 == 0 ==> (res * pow((base * base) % m, (exp / 2) as nat)) % m
            == (res * pow(base, exp)) % m,
{
    let k = (exp / 2) as nat;
    lemma_pow_mod_noop(base * base, k, m);
    lemma_square_is_pow2(base);
    lemma_pow_multiplies(base, 2, k);
    assert(pow(base * base, k) == pow(base, 2 * k));
    if exp % 2 == 1 {
        assert(exp == 2 * k + 1);
        assert(pow(base, exp) == base * pow(base, (exp - 1) as nat)) by {
            reveal(pow);
        }
        calc! {
            (==)
            (((res * base) % m) * pow((base * base) % m, k)) % m; {
                lemma_mul_mod_noop_left(res * base, pow((base * base) % m, k), m);
            }
            ((res * base) * pow((base * base) % m, k)) % m; {
                lemma_mul_mod_noop_right(res * base, pow((base * base) % m, k), m);
                lemma_mul_mod_noop_right(res * base, pow(base * base, k), m);
            }
            ((res * base) * pow(base * base, k)) % m; {
                lemma_mul_is_associative(res, base, pow(base, 2 * k));
            }
            (res * (base * pow(base, 2 * k))) % m; {}
            (res * pow(base, exp)) % m;
        }
    } else {
        assert(exp == 2 * k);
        calc! {
            (==)
            (res * pow((base * base) % m, k)) % m; {
                lemma_mul_mod_noop_right(res, pow((base * base) % m, k), m);
                lemma_mul_mod_noop_right(res, pow(base * base, k), m);
            }
            (res * pow(base * base, k)) % m; {}
            (res * pow(base, exp)) % m;
        }
    }
}

/// Computes `base ^ exp mod modulus` exactly, using 128-bit intermediate
/// products so the squarings cannot overflow.
pub fn mod_pow(base: u64, exp: u64, modulus: u64) -> (r: u64)
    requires
        modulus >= 1,
    ensures
        r as int == pow(base as int, exp as nat) % (modulus as int),
{
    let ghost b0 = base as int;
    let ghost e0 = exp as nat;
    let m128 = modulus as u128;
    let mut res: u64 = 1 % modulus;
    let mut b: u64 = base % modulus;
    let mut e: u64 = exp;
    proof {
        lemma_pow_mod_noop(b0, e0, modulus as int);
        lemma_mul_mod_noop_left(1, pow(b as int, e0), modulus as int);
    }
    while e > 0
        invariant
            modulus >= 1,
            m128 == modulus as u128,
            res < modulus,
            b < modulus,
            (res as int * pow(b as int, e as nat)) % (modulus as int) == pow(b0, e0) % (
            modulus as int),
        decreases e,
    {
        proof {
            lemma_step(res as int, b as int, e as nat, modulus as int);
            assert((res as int) * (b as int) <= (u64::MAX as int) * (u64::MAX as int))
                by (nonlinear_arith)
                requires
                    res as int <= u64::MAX as int,
                    b as int <= u64::MAX as int,
            ;
            assert((b as int) * (b as int) <= (u64::MAX as int) * (u64::MAX as int))
                by (nonlinear_arith)
                requires
                    b as int <= u64::MAX as int,
            ;
        }
        if e % 2 == 1 {
            res = ((res as u128 * b as u128) % m128) as u64;
        }
        b = ((b as u128 * b as u128) % m128) as u64;
        e = e / 2;
    }
    proof {
        lemma_pow0(b as int);
        lemma_small_mod(res as nat, modulus as nat);
    }
    res
}

} // verus!
