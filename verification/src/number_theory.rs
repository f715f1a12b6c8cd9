//! Divisibility, greatest common divisors, primes and modular inverses over
//! the mathematical integers.

use vstd::arithmetic::div_mod::{
    lemma_fundamental_div_mod, lemma_mod_bound, lemma_mod_multiples_basic,
    lemma_mod_multiples_vanish, lemma_mod_self_0, lemma_mod_twice, lemma_mul_mod_noop_left,
    lemma_mul_mod_noop_right, lemma_small_mod,
};
use vstd::arithmetic::mul::lemma_mul_strictly_positive;
use vstd::prelude::*;

verus! {

/// The greatest common divisor of `a` and `b`, with `gcd(a, 0) == a`.
pub open spec fn gcd(a: nat, b: nat) -> nat
    decreases b,
{
    if b == 0 {
        a
    } else {
        gcd(b, a % b)
    }
}

/// Whether `p` is a prime number.
pub open spec fn is_prime(p: nat) -> bool {
    p >= 2 && forall|d: nat| 1 < d < p ==> #[trigger] (p % d) != 0
}

/// Whether `r` is the inverse of `x` for the modulus `m`, reduced into
/// `0..m`.
pub open spec fn is_inverse(r: nat, x: nat, m: nat) -> bool {
    m > 0 && r < m && (r * x) % m == 1nat % m
}

/// The inverse of `x` for the modulus `m`. It means something only where
/// `gcd(x, m) == 1` and `m > 0`.
pub open spec fn mod_inverse(x: nat, m: nat) -> nat {
    choose|r: nat| is_inverse(r, x, m)
}

/// A sum of two multiples of `d` is a multiple of `d`.
pub proof fn lemma_divides_combination(d: int, a: int, x: int, b: int, y: int)
    requires
        d > 0,
        a % d == 0,
        b % d == 0,
    ensures
        (a * x + b * y) % d == 0,
{
    lemma_fundamental_div_mod(a, d);
    lemma_fundamental_div_mod(b, d);
    let k = (a / d) * x + (b / d) * y;
    assert(a * x + b * y == k * d) by (nonlinear_arith)
        requires
            a == d * (a / d),
            b == d * (b / d),
            k == (a / d) * x + (b / d) * y,
    ;
    lemma_mod_multiples_basic(k, d);
}

/// A positive multiple of `d` is at least `d`.
pub proof fn lemma_divisor_at_most(d: int, n: int)
    requires
        d > 0,
        n > 0,
        n % d == 0,
    ensures
        d <= n,
{
    if n < d {
        lemma_small_mod(n as nat, d as nat);
    }
}

/// The greatest common divisor divides both numbers, and is zero only where
/// both are.
pub proof fn lemma_gcd_divides(a: nat, b: nat)
    ensures
        (a > 0 || b > 0) ==> gcd(a, b) > 0,
        gcd(a, b) > 0 ==> a % gcd(a, b) == 0 && b % gcd(a, b) == 0,
        a == 0 && b == 0 ==> gcd(a, b) == 0,
    decreases b,
{
    if b == 0 {
        if a > 0 {
            lemma_mod_self_0(a as int);
            lemma_small_mod(0, a);
        }
    } else {
        lemma_gcd_divides(b, a % b);
        let g = gcd(a, b) as int;
        lemma_fundamental_div_mod(a as int, b as int);
        lemma_divides_combination(g, b as int, (a / b) as int, (a % b) as int, 1);
        assert(b * (a / b) + (a % b) * 1 == a);
    }
}

/// Bezout's identity: the greatest common divisor is an integer combination
/// of the two numbers. The pair returned holds the coefficients.
pub proof fn lemma_bezout(a: nat, b: nat) -> (c: (int, int))
    ensures
        a * c.0 + b * c.1 == gcd(a, b),
    decreases b,
{
    if b == 0 {
        (1, 0)
    } else {
        let (x, y) = lemma_bezout(b, a % b);
        lemma_fundamental_div_mod(a as int, b as int);
        let q = (a / b) as int;
        let r = (a % b) as int;
        assert(a * y + b * (x - q * y) == b * x + r * y) by (nonlinear_arith)
            requires
                a == b * q + r,
        ;
        (y, x - q * y)
    }
}

/// Every common divisor divides the greatest one.
pub proof fn lemma_common_divisor_divides_gcd(a: nat, b: nat, d: nat)
    requires
        d > 0,
        a % d == 0,
        b % d == 0,
    ensures
        gcd(a, b) % d == 0,
{
    let (x, y) = lemma_bezout(a, b);
    lemma_divides_combination(d as int, a as int, x, b as int, y);
}

/// The greatest common divisor does not depend on the order of the two
/// numbers.
pub proof fn lemma_gcd_symmetric(a: nat, b: nat)
    ensures
        gcd(a, b) == gcd(b, a),
{
    lemma_gcd_divides(a, b);
    lemma_gcd_divides(b, a);
    let g = gcd(a, b);
    let h = gcd(b, a);
    if g > 0 {
        lemma_common_divisor_divides_gcd(b, a, g);
        lemma_common_divisor_divides_gcd(a, b, h);
        lemma_divisor_at_most(g as int, h as int);
        lemma_divisor_at_most(h as int, g as int);
    }
}

/// A prime shares no factor with a number that it does not divide.
pub proof fn lemma_prime_coprime(p: nat, a: nat)
    requires
        is_prime(p),
        a % p != 0,
    ensures
        gcd(a, p) == 1,
{
    lemma_gcd_divides(a, p);
    let g = gcd(a, p);
    lemma_divisor_at_most(g as int, p as int);
    if g == p {
        assert(a % p == 0);
    } else if g > 1 {
        assert(p % g != 0);
    }
}

/// Euclid's lemma: a prime that divides a product divides one of its
/// factors.
pub proof fn lemma_prime_divides_product(p: nat, a: int, b: int)
    requires
        is_prime(p),
        (a * b) % (p as int) == 0,
    ensures
        a % (p as int) == 0 || b % (p as int) == 0,
{
    let pi = p as int;
    let a0 = (a % pi) as nat;
    if a0 != 0 {
        lemma_mod_twice(a, pi);
        lemma_prime_coprime(p, a0);
        let (x, y) = lemma_bezout(a0, p);
        // a0 * x + p * y == 1, so b == (a0 * b) * x + p * (y * b)
        lemma_mul_mod_noop_left(a, b, pi);
        assert((a0 * b) % pi == 0);
        lemma_mod_self_0(pi);
        lemma_divides_combination(pi, a0 * b, x, pi, y * b);
        assert((a0 * b) * x + pi * (y * b) == b) by (nonlinear_arith)
            requires
                a0 * x + pi * y == 1,
        ;
    }
}

/// A number that two coprime numbers divide is divided by their product.
pub proof fn lemma_coprime_divisors_multiply(p: nat, q: nat, n: int)
    requires
        p > 0,
        q > 0,
        gcd(p, q) == 1,
        n % (p as int) == 0,
        n % (q as int) == 0,
    ensures
        p * q > 0,
        n % ((p * q) as int) == 0,
{
    let (x, y) = lemma_bezout(p, q);
    let pi = p as int;
    let qi = q as int;
    lemma_fundamental_div_mod(n, pi);
    lemma_fundamental_div_mod(n, qi);
    let k = (n / qi) * x + (n / pi) * y;
    assert(n == k * (pi * qi)) by (nonlinear_arith)
        requires
            pi * x + qi * y == 1,
            n == pi * (n / pi),
            n == qi * (n / qi),
            k == (n / qi) * x + (n / pi) * y,
    ;
    lemma_mul_strictly_positive(pi, qi);
    lemma_mod_multiples_basic(k, pi * qi);
}

/// A number that is coprime to the modulus has an inverse.
pub proof fn lemma_inverse_exists(x: nat, m: nat)
    requires
        m > 0,
        gcd(x, m) == 1,
    ensures
        is_inverse(mod_inverse(x, m), x, m),
{
    let (s, t) = lemma_bezout(x, m);
    let mi = m as int;
    let r = (s % mi) as nat;
    lemma_mod_bound(s, mi);
    // (s * x) % m == (1 - m * t) % m == 1 % m
    lemma_mul_mod_noop_left(s, x as int, mi);
    assert(s * x == mi * (-t) + 1) by (nonlinear_arith)
        requires
            x * s + mi * t == 1,
    ;
    lemma_mod_multiples_vanish(-t, 1, mi);
    assert(is_inverse(r, x, m));
}

/// The inverse is unique: two inverses of one number for one modulus are
/// equal.
pub proof fn lemma_inverse_unique(r1: nat, r2: nat, x: nat, m: nat)
    requires
        is_inverse(r1, x, m),
        is_inverse(r2, x, m),
    ensures
        r1 == r2,
{
    let mi = m as int;
    if m == 1 {
    } else {
        // r1 == r1 * (r2 * x) == (r1 * x) * r2 == r2   (mod m)
        lemma_small_mod(1, m);
        lemma_small_mod(r1, m);
        lemma_small_mod(r2, m);
        lemma_mul_mod_noop_right(r1 as int, (r2 * x) as int, mi);
        lemma_mul_mod_noop_right(r2 as int, (r1 * x) as int, mi);
        assert(r1 * (r2 * x) == r2 * (r1 * x)) by (nonlinear_arith);
        assert(r1 * 1 == r1 && r2 * 1 == r2);
    }
}

/// A number that meets [`is_inverse`] is the inverse.
pub proof fn lemma_inverse_is_mod_inverse(r: nat, x: nat, m: nat)
    requires
        is_inverse(r, x, m),
    ensures
        r == mod_inverse(x, m),
{
    lemma_inverse_unique(r, mod_inverse(x, m), x, m);
}

} // verus!
