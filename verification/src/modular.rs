//! Modular arithmetic on big numbers.

use crate::big_num::{BigInt, BigUint, Digit};
use crate::error::Error;
use crate::number_theory::{
    gcd, is_inverse, lemma_divides_combination, lemma_gcd_symmetric, lemma_inverse_is_mod_inverse,
    mod_inverse,
};
use vstd::arithmetic::div_mod::{
    lemma_fundamental_div_mod, lemma_mod_equivalence, lemma_mod_multiples_basic,
    lemma_mod_multiples_vanish, lemma_mod_self_0, lemma_small_mod,
};
use vstd::prelude::*;

verus! {

/// What [`inverse`] returns for `x` and `modulus`: the inverse of `x` where
/// there is one, and `NotInvertible` where the two share a factor.
///
/// For a positive modulus the inverse is the one number `r` below the modulus
/// with `r * x == 1` modulo it. For the modulus zero, where being congruent
/// means being equal, only 1 has an inverse, itself.
pub open spec fn inverse_result(x: nat, modulus: nat) -> Result<nat, Error> {
    if gcd(x, modulus) != 1 {
        Err(Error::NotInvertible)
    } else if modulus == 0 {
        Ok(1)
    } else {
        Ok(mod_inverse(x, modulus))
    }
}

/// Calculates the modular inverse of `x` for `modulus` with the extended
/// Euclidean algorithm.
///
/// The inverse exists exactly where `x` and `modulus` share no factor;
/// otherwise the result is `NotInvertible`. It lies below the modulus, and
/// its product with `x` leaves the remainder 1.
pub fn inverse(x: BigUint, modulus: BigUint) -> (result: Result<BigUint, Error>)
    ensures
        match result {
            Ok(r) => inverse_result(x@, modulus@) == Ok::<nat, Error>(r@),
            Err(e) => inverse_result(x@, modulus@) == Err::<nat, Error>(e),
        },
        result is Ok <==> gcd(x@, modulus@) == 1,
        result matches Ok(r) ==> (modulus@ > 0 ==> is_inverse(r@, x@, modulus@)),
        result matches Ok(r) ==> (modulus@ > 1 ==> (r@ * x@) % modulus@ == 1),
{
    let one = BigUint::from_digit(Digit::_1);
    if modulus.is_zero() {
        // congruent modulo zero means equal
        return if x.eq(&one) {
            Ok(one)
        } else {
            Err(Error::NotInvertible)
        };
    }
    if modulus.eq(&one) {
        proof {
            assert(gcd(x@, 1) == gcd(1, x@ % 1));
            assert(is_inverse(0, x@, 1));
            lemma_inverse_is_mod_inverse(0, x@, 1);
        }
        return Ok(BigUint::from_digit(Digit::_0));
    }
    let ghost m = modulus@ as int;
    let ghost x0 = x@ as int;
    let mut t = BigInt::from_digit(Digit::_0);
    let mut new_t = BigInt::from_digit(Digit::_1);
    let mut r = BigInt::from_biguint(modulus.clone());
    let mut new_r = BigInt::from_biguint(x);
    proof {
        lemma_mod_self_0(m);
        lemma_mod_multiples_basic(-1, m);
        lemma_small_mod(0, m as nat);
    }
    while !new_r.is_zero()
        invariant
            m >= 2,
            x0 >= 0,
            r@ >= 0,
            new_r@ >= 0,
            gcd(r@ as nat, new_r@ as nat) == gcd(m as nat, x0 as nat),
            (t@ * x0 - r@) % m == 0,
            (new_t@ * x0 - new_r@) % m == 0,
            (t@ <= 0 <= new_t@ && new_t@ * r@ - t@ * new_r@ == m) || (new_t@ <= 0 <= t@ && t@
                * new_r@ - new_t@ * r@ == m),
            -m <= t@ <= m,
            -m <= new_t@ <= m,
        decreases new_r@,
    {
        let quotient = r.div(&new_r);
        let next_t = t.sub(&quotient.mul(&new_t));
        let next_r = r.sub(&quotient.mul(&new_r));
        proof {
            let q = quotient@;
            assert(q == r@ / new_r@);
            lemma_fundamental_div_mod(r@, new_r@);
            assert(next_r@ == r@ % new_r@) by (nonlinear_arith)
                requires
                    next_r@ == r@ - q * new_r@,
                    r@ == new_r@ * q + r@ % new_r@,
            ;
            assert(q >= 0) by (nonlinear_arith)
                requires
                    q == r@ / new_r@,
                    r@ >= 0,
                    new_r@ > 0,
            ;
            lemma_divides_combination(m, t@ * x0 - r@, 1, new_t@ * x0 - new_r@, -q);
            assert((t@ * x0 - r@) * 1 + (new_t@ * x0 - new_r@) * (-q) == next_t@ * x0 - next_r@)
                by (nonlinear_arith)
                requires
                    next_t@ == t@ - q * new_t@,
                    next_r@ == r@ - q * new_r@,
            ;
            lemma_step_keeps_determinant(t@, new_t@, r@, new_r@, q, m);
        }
        t = new_t;
        new_t = next_t;
        r = new_r;
        new_r = next_r;
    }
    proof {
        lemma_gcd_symmetric(m as nat, x0 as nat);
    }
    if !r.eq(&BigInt::from_digit(Digit::_1)) {
        return Err(Error::NotInvertible);
    }
    proof {
        // t is none of -m, 0 and m: each would make 1 a multiple of m
        lemma_small_mod(1, m as nat);
        if t@ == 0 {
            assert(t@ * x0 - 1 == -1) by (nonlinear_arith)
                requires
                    t@ == 0,
            ;
        } else if t@ == m {
            lemma_mod_multiples_vanish(x0, -1, m);
        } else if t@ == -m {
            lemma_mod_multiples_vanish(-x0, -1, m);
            assert((-m) * x0 == m * (-x0)) by (nonlinear_arith);
        }
        lemma_mod_multiples_vanish(-1, -1 + m, m);
        assert((-1int) % m == m - 1) by {
            lemma_small_mod((m - 1) as nat, m as nat);
            assert(m * (-1) + (-1 + m) == -1);
        }
        assert(t@ != 0 && t@ != m && t@ != -m);
    }
    let normalized = if t.is_negative() {
        t.add(&BigInt::from_biguint(modulus))
    } else {
        t
    };
    let result = normalized.magnitude();
    proof {
        let v = result@ as int;
        assert((v * x0 - 1) % m == 0) by {
            if v != t@ {
                lemma_mod_multiples_vanish(x0, t@ * x0 - 1, m);
                assert(m * x0 + (t@ * x0 - 1) == (t@ + m) * x0 - 1) by (nonlinear_arith);
            }
        }
        lemma_mod_equivalence(v * x0, 1, m);
        assert(is_inverse(result@, x0 as nat, m as nat));
        lemma_inverse_is_mod_inverse(result@, x0 as nat, m as nat);
    }
    Ok(result)
}

/// One step of the extended Euclidean algorithm keeps the two coefficients
/// on opposite sides of zero, their determinant with the remainders at the
/// modulus, and the new coefficient within the modulus.
proof fn lemma_step_keeps_determinant(t: int, new_t: int, r: int, new_r: int, q: int, m: int)
    requires
        q >= 0,
        r >= 0,
        new_r > 0,
        r - q * new_r >= 0,
        (t <= 0 <= new_t && new_t * r - t * new_r == m) || (new_t <= 0 <= t && t * new_r - new_t
            * r == m),
    ensures
        ({
            let next_t = t - q * new_t;
            let next_r = r - q * new_r;
            &&& (new_t <= 0 <= next_t && next_t * new_r - new_t * next_r == m) || (next_t <= 0
                <= new_t && new_t * next_r - next_t * new_r == m)
            &&& -m <= next_t <= m
        }),
{
    let next_t = t - q * new_t;
    let next_r = r - q * new_r;
    assert(next_t * new_r - new_t * next_r == t * new_r - new_t * r) by (nonlinear_arith)
        requires
            next_t == t - q * new_t,
            next_r == r - q * new_r,
    ;
    if t <= 0 <= new_t {
        assert(q * new_t >= 0) by (nonlinear_arith)
            requires
                q >= 0,
                new_t >= 0,
        ;
        assert(-next_t <= m) by (nonlinear_arith)
            requires
                new_t * next_r - next_t * new_r == m,
                new_t >= 0,
                next_r >= 0,
                next_t <= 0,
                new_r >= 1,
        ;
    } else {
        assert(q * new_t <= 0) by (nonlinear_arith)
            requires
                q >= 0,
                new_t <= 0,
        ;
        assert(next_t <= m) by (nonlinear_arith)
            requires
                next_t * new_r - new_t * next_r == m,
                new_t <= 0,
                next_r >= 0,
                next_t >= 0,
                new_r >= 1,
        ;
    }
}

} // verus!
