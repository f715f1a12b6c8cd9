//! A quick screen for prime candidates.
//!
//! Most random numbers have a small divisor, and most of the others fail
//! Fermat's test to the base 2. Both are settled here at little cost, so
//! that the slow probabilistic test is left with the few numbers that are
//! almost surely prime. The screen never turns down a prime above 2.

use crate::big_num::BigUint;
use crate::encoding::bit_length;
use crate::fermat::lemma_fermat_little;
use crate::number_theory::is_prime;
use vstd::arithmetic::div_mod::{lemma_fundamental_div_mod, lemma_mod_multiples_basic, lemma_small_mod};
use vstd::arithmetic::power::pow;
use vstd::prelude::*;

verus! {

/// The largest divisor that the screen tries.
pub const SIEVE_LIMIT: u32 = 4096;

/// Whether one of the numbers from 2 to `limit` divides `n` and is not `n`
/// itself.
pub open spec fn has_divisor_up_to(n: nat, limit: nat) -> bool {
    exists|d: nat| 2 <= d <= limit && d < n && #[trigger] (n % d) == 0
}

/// Whether `n` passes Fermat's test to the base 2: two to the power `n - 1`
/// leaves the remainder 1.
pub open spec fn passes_fermat(n: nat) -> bool {
    n >= 1 && pow(2, (n - 1) as nat) % (n as int) == 1
}

/// Whether `n` passes the screen with divisors up to `limit`.
pub open spec fn may_be_prime(n: nat, limit: nat) -> bool {
    !has_divisor_up_to(n, limit) && passes_fermat(n)
}

/// What an even number divides is even.
pub proof fn lemma_even_divisor(n: nat, d: nat)
    requires
        d > 0,
        d % 2 == 0,
        n % d == 0,
    ensures
        n % 2 == 0,
{
    lemma_fundamental_div_mod(n as int, d as int);
    lemma_fundamental_div_mod(d as int, 2);
    let k = (n / d) as int;
    let h = (d / 2) as int;
    assert(n == (h * k) * 2) by (nonlinear_arith)
        requires
            n == d * k,
            d == 2 * h,
    ;
    lemma_mod_multiples_basic(h * k, 2);
}

/// Whether one of the numbers from 2 to `limit` divides `candidate` and is
/// not `candidate` itself.
pub fn has_small_divisor(candidate: &BigUint, limit: u32) -> (found: bool)
    ensures
        found == has_divisor_up_to(candidate@, limit as nat),
{
    let ghost n = candidate@;
    if limit < 2 {
        return false;
    }
    if candidate.remainder_by(2) == 0 {
        // an even number: 2 divides it, and is another number unless it is 2
        // or zero
        let two = BigUint::from_u32(2);
        let found = two.less_than(candidate);
        proof {
            if found {
                assert(n % 2 == 0);
            }
        }
        return found;
    }
    let mut d: u32 = 3;
    while d <= limit
        invariant
            3 <= d,
            d % 2 == 1,
            n == candidate@,
            n % 2 == 1,
            forall|k: nat| 2 <= k < d && k < n ==> #[trigger] (n % k) != 0,
        decreases limit + 2 - d,
    {
        if candidate.remainder_by(d) == 0 {
            let divisor = BigUint::from_u32(d);
            if divisor.less_than(candidate) {
                proof {
                    assert(n % (d as nat) == 0);
                }
                return true;
            }
        }
        proof {
            assert forall|k: nat| 2 <= k < d + 2 && k < n implies #[trigger] (n % k) != 0 by {
                if k == d {
                    if n % k == 0 {
                        // then d is n itself or larger, and no larger number is below n
                    }
                } else if k == d + 1 {
                    if n % k == 0 {
                        lemma_even_divisor(n, k);
                    }
                }
            }
        }
        if d >= u32::MAX - 1 {
            return false;
        }
        d = d + 2;
    }
    false
}

/// Whether `candidate` passes Fermat's test to the base 2.
pub fn fermat_test(candidate: &BigUint) -> (passed: bool)
    ensures
        passed == passes_fermat(candidate@),
{
    let one = BigUint::from_u32(1);
    match candidate.sub(&one) {
        Ok(exponent) => {
            let two = BigUint::from_u32(2);
            let power = two.modpow(&exponent, candidate);
            power.eq(&one)
        },
        Err(_) => false,
    }
}

/// Whether `candidate` passes the screen: none of the numbers up to
/// [`SIEVE_LIMIT`] divides it as another number, and it passes Fermat's test
/// to the base 2.
pub fn screen(candidate: &BigUint) -> (passed: bool)
    ensures
        passed == may_be_prime(candidate@, SIEVE_LIMIT as nat),
{
    !has_small_divisor(candidate, SIEVE_LIMIT) && fermat_test(candidate)
}

/// Whether a random number is worth the primality test as a prime of
/// `bits` bits: it has exactly that many bits and passes the screen.
pub fn worth_a_test(candidate: &BigUint, bits: usize) -> (worth: bool)
    ensures
        worth == (bit_length(candidate@) == bits && may_be_prime(candidate@, SIEVE_LIMIT as nat)),
{
    candidate.has_bits(bits) && screen(candidate)
}

/// Whether a random number is kept as a prime of `bits` bits, given what
/// the primality test has said of it: the number has passed the test and
/// has exactly `bits` bits.
pub fn keeps_prime(candidate: &BigUint, bits: usize, passed_test: bool) -> (kept: bool)
    ensures
        kept == (passed_test && bit_length(candidate@) == bits),
{
    passed_test && candidate.has_bits(bits)
}

/// The screen keeps every prime above 2, whatever the limit of its
/// divisors.
pub proof fn lemma_screen_keeps_primes(p: nat, limit: nat)
    requires
        is_prime(p),
        p >= 3,
    ensures
        may_be_prime(p, limit),
{
    lemma_small_mod(2, p);
    lemma_fermat_little(2, p);
}

} // verus!
