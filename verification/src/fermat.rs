//! Fermat's little theorem and what RSA draws from it: raising to the power
//! `e * d` gives a number back where `e * d` is one more than a multiple of
//! `(p - 1) * (q - 1)`.

use crate::number_theory::{
    gcd, is_prime, lemma_coprime_divisors_multiply, lemma_divisor_at_most, lemma_prime_coprime,
    lemma_prime_divides_product,
};
use vstd::arithmetic::div_mod::{
    lemma_fundamental_div_mod, lemma_mod_bound, lemma_mod_equivalence, lemma_mul_mod_noop_general,
    lemma_small_mod,
};
use vstd::arithmetic::mul::{lemma_mul_nonnegative, lemma_mul_strictly_positive};
use vstd::arithmetic::power::{
    lemma1_pow, lemma_pow0, lemma_pow1, lemma_pow_adds, lemma_pow_mod_noop, lemma_pow_multiplies,
    pow,
};
use vstd::prelude::*;
use vstd::seq_lib::{commutative_foldl, lemma_fold_left_permutation, seq_to_set_is_finite};
use vstd::set_lib::lemma_subset_equality;

verus! {

/// Multiplication followed by a reduction by `p`, as a folding step.
pub open spec fn times_mod(p: int) -> spec_fn(int, int) -> int {
    |acc: int, x: int| (acc * x) % p
}

/// The product of the numbers of `s`, reduced by `p` after each step.
pub open spec fn product_mod(s: Seq<int>, p: int) -> int {
    s.fold_left(1, times_mod(p))
}

/// The numbers `1, 2, .., n`.
pub open spec fn residues(n: nat) -> Seq<int> {
    Seq::new(n, |i: int| i + 1)
}

/// The numbers `a * 1, a * 2, .., a * n`, each reduced by `p`.
pub open spec fn scaled_residues(a: int, p: int, n: nat) -> Seq<int> {
    Seq::new(n, |i: int| (a * (i + 1)) % p)
}

/// Two sequences without repetitions, of one length, of which one holds
/// only what the other holds, hold the same things equally often.
pub proof fn lemma_same_elements_same_multiset<A>(s1: Seq<A>, s2: Seq<A>)
    requires
        s1.no_duplicates(),
        s2.no_duplicates(),
        s1.len() == s2.len(),
        forall|i: int| 0 <= i < s2.len() ==> s1.contains(#[trigger] s2[i]),
    ensures
        s1.to_multiset() == s2.to_multiset(),
{
    broadcast use vstd::seq_lib::group_to_multiset_ensures;

    s1.unique_seq_to_set();
    s2.unique_seq_to_set();
    seq_to_set_is_finite(s1);
    seq_to_set_is_finite(s2);
    assert(s2.to_set().subset_of(s1.to_set())) by {
        assert forall|x: A| s2.to_set().contains(x) implies s1.to_set().contains(x) by {
            let i = choose|i: int| 0 <= i < s2.len() && s2[i] == x;
            assert(s1.contains(s2[i]));
        }
    }
    lemma_subset_equality(s2.to_set(), s1.to_set());
    s1.lemma_multiset_has_no_duplicates();
    s2.lemma_multiset_has_no_duplicates();
    assert forall|x: A| s1.to_multiset().count(x) == s2.to_multiset().count(x) by {
        assert(s1.to_set().contains(x) == s2.to_set().contains(x));
        assert(s1.contains(x) == s2.contains(x));
    }
    assert(s1.to_multiset() =~= s2.to_multiset());
}

/// The folding step does not mind the order of the factors.
pub proof fn lemma_times_mod_commutative(p: int)
    requires
        p > 0,
    ensures
        commutative_foldl(times_mod(p)),
{
    let f = times_mod(p);
    assert forall|x: int, y: int, v: int| #[trigger] f(f(v, x), y) == f(f(v, y), x) by {
        lemma_mul_mod_noop_general(v * x, y, p);
        lemma_mul_mod_noop_general(v * y, x, p);
        assert((v * x) * y == (v * y) * x) by (nonlinear_arith);
    }
}

/// The product of `a * 1, .., a * n` is `a` to the power `n` times the
/// product of `1, .., n`, modulo `p`.
pub proof fn lemma_scaled_product(a: int, p: int, n: nat)
    requires
        p > 0,
    ensures
        product_mod(scaled_residues(a, p, n), p) % p == (pow(a, n) * product_mod(residues(n), p))
            % p,
    decreases n,
{
    let f = times_mod(p);
    if n == 0 {
        lemma_pow0(a);
    } else {
        let m = (n - 1) as nat;
        lemma_scaled_product(a, p, m);
        let s = residues(n);
        let t = scaled_residues(a, p, n);
        assert(s.drop_last() =~= residues(m));
        assert(t.drop_last() =~= scaled_residues(a, p, m));
        let w0 = product_mod(residues(m), p);
        let t0 = product_mod(scaled_residues(a, p, m), p);
        let x = n as int;
        assert(product_mod(s, p) == (w0 * x) % p);
        assert(product_mod(t, p) == (t0 * ((a * x) % p)) % p);
        let am = pow(a, m);
        assert(pow(a, n) == a * am) by {
            reveal(pow);
        }
        // t0 == am * w0 (mod p), so t0 * (a * x) == (a * am) * (w0 * x) (mod p)
        lemma_mul_mod_noop_general(t0, a * x, p);
        lemma_mul_mod_noop_general(am * w0, a * x, p);
        lemma_mul_mod_noop_general(a * am, w0 * x, p);
        assert((am * w0) * (a * x) == (a * am) * (w0 * x)) by (nonlinear_arith);
        lemma_mod_bound(t0 * ((a * x) % p), p);
        lemma_small_mod(product_mod(t, p) as nat, p as nat);
    }
}

/// The product of `1, .., n` is no multiple of a prime above `n`.
pub proof fn lemma_residue_product_nonzero(p: nat, n: nat)
    requires
        is_prime(p),
        n < p,
    ensures
        product_mod(residues(n), p as int) % (p as int) != 0,
        0 <= product_mod(residues(n), p as int) < p,
    decreases n,
{
    let pi = p as int;
    if n == 0 {
        lemma_small_mod(1, p);
    } else {
        let m = (n - 1) as nat;
        lemma_residue_product_nonzero(p, m);
        let s = residues(n);
        assert(s.drop_last() =~= residues(m));
        let w0 = product_mod(residues(m), pi);
        assert(product_mod(s, pi) == (w0 * n) % pi);
        lemma_mod_bound(w0 * n, pi);
        lemma_small_mod(product_mod(s, pi) as nat, p);
        if (w0 * n) % pi == 0 {
            lemma_prime_divides_product(p, w0, n as int);
            lemma_small_mod(n, p);
        }
    }
}

/// Multiplying `1, .., p - 1` by a number that the prime `p` does not divide
/// only reorders them modulo `p`.
pub proof fn lemma_scaling_permutes(a: int, p: nat)
    requires
        is_prime(p),
        a % (p as int) != 0,
    ensures
        residues((p - 1) as nat).to_multiset() == scaled_residues(
            a,
            p as int,
            (p - 1) as nat,
        ).to_multiset(),
{
    let pi = p as int;
    let n = (p - 1) as nat;
    let s = residues(n);
    let t = scaled_residues(a, pi, n);
    assert forall|i: int, j: int| 0 <= i < j < t.len() implies t[i] != t[j] by {
        if t[i] == t[j] {
            lemma_mod_equivalence(a * (j + 1), a * (i + 1), pi);
            assert(a * (j + 1) - a * (i + 1) == a * (j - i)) by (nonlinear_arith);
            lemma_prime_divides_product(p, a, j - i);
            lemma_small_mod((j - i) as nat, p);
        }
    }
    assert(t.no_duplicates());
    assert(s.no_duplicates());
    assert forall|i: int| 0 <= i < t.len() implies s.contains(#[trigger] t[i]) by {
        lemma_mod_bound(a * (i + 1), pi);
        if t[i] == 0 {
            lemma_prime_divides_product(p, a, i + 1);
            lemma_small_mod((i + 1) as nat, p);
        }
        assert(s[t[i] - 1] == t[i]);
    }
    lemma_same_elements_same_multiset(s, t);
}

/// Fermat's little theorem: a number that the prime `p` does not divide,
/// raised to the power `p - 1`, leaves the remainder 1.
pub proof fn lemma_fermat_little(a: int, p: nat)
    requires
        is_prime(p),
        a % (p as int) != 0,
    ensures
        pow(a, (p - 1) as nat) % (p as int) == 1,
{
    let pi = p as int;
    let n = (p - 1) as nat;
    let w = product_mod(residues(n), pi);
    let t = product_mod(scaled_residues(a, pi, n), pi);
    let power = pow(a, n);
    lemma_scaling_permutes(a, p);
    lemma_times_mod_commutative(pi);
    lemma_fold_left_permutation(residues(n), scaled_residues(a, pi, n), times_mod(pi), 1int);
    assert(w == t);
    lemma_scaled_product(a, pi, n);
    lemma_residue_product_nonzero(p, n);
    // w == power * w (mod p), and p does not divide w
    lemma_mod_equivalence(power * w, w, pi);
    assert(power * w - w == (power - 1) * w) by (nonlinear_arith);
    lemma_prime_divides_product(p, power - 1, w);
    lemma_mod_equivalence(power, 1, pi);
    lemma_small_mod(1, p);
}

/// A power whose exponent is one more than a multiple of `p - 1` leaves the
/// remainder of its base, for a prime `p`.
pub proof fn lemma_power_cycle(m: int, p: nat, k: nat)
    requires
        is_prime(p),
    ensures
        (p - 1) * k >= 0,
        pow(m, ((p - 1) * k + 1) as nat) % (p as int) == m % (p as int),
{
    let pi = p as int;
    let n = (p - 1) as nat;
    lemma_mul_nonnegative(n as int, k as int);
    let cycles = (n * k) as nat;
    lemma_pow_adds(m, cycles, 1);
    lemma_pow1(m);
    assert(pow(m, cycles + 1) == pow(m, cycles) * m);
    if m % pi == 0 {
        lemma_mul_mod_noop_general(pow(m, cycles), m, pi);
        assert(pow(m, cycles) * 0 == 0);
        lemma_small_mod(0, p);
    } else {
        lemma_fermat_little(m, p);
        lemma_pow_multiplies(m, n, k);
        lemma_pow_mod_noop(pow(m, n), k, pi);
        lemma1_pow(k);
        lemma_small_mod(1, p);
        assert(pow(m, cycles) % pi == 1);
        lemma_mul_mod_noop_general(pow(m, cycles), m, pi);
        assert(1 * (m % pi) == m % pi);
        vstd::arithmetic::div_mod::lemma_mod_twice(m, pi);
    }
}

/// Two different primes share no factor.
pub proof fn lemma_distinct_primes_coprime(p: nat, q: nat)
    requires
        is_prime(p),
        is_prime(q),
        p != q,
    ensures
        gcd(p, q) == 1,
{
    if p % q == 0 {
        lemma_divisor_at_most(q as int, p as int);
        assert(p % q != 0);
    }
    lemma_prime_coprime(q, p);
}

/// The heart of RSA: where `e * d` is one more than a multiple of
/// `(p - 1) * (q - 1)` for two different primes, raising to the power
/// `e * d` gives every number below `p * q` back.
pub proof fn lemma_rsa_exponents_cancel(m: nat, e: nat, d: nat, p: nat, q: nat)
    requires
        is_prime(p),
        is_prime(q),
        p != q,
        (e * d) % (((p - 1) * (q - 1)) as nat) == 1,
    ensures
        p * q > 0,
        pow(m as int, e * d) % ((p * q) as int) == m % (p * q),
{
    let pi = p as int;
    let qi = q as int;
    let phi = (p - 1) * (q - 1);
    lemma_mul_strictly_positive(pi - 1, qi - 1);
    lemma_mul_strictly_positive(pi, qi);
    lemma_mul_nonnegative(e as int, d as int);
    let ed = (e * d) as int;
    lemma_fundamental_div_mod(ed, phi);
    let k = ed / phi;
    vstd::arithmetic::div_mod::lemma_div_pos_is_pos(ed, phi);
    let x = pow(m as int, e * d);
    assert(x % pi == m % p) by {
        let cycles = ((q - 1) * k) as nat;
        assert((q - 1) * k >= 0) by (nonlinear_arith)
            requires
                q >= 1,
                k >= 0,
        ;
        lemma_power_cycle(m as int, p, cycles);
        assert((p - 1) * cycles + 1 == ed) by (nonlinear_arith)
            requires
                cycles == (q - 1) * k,
                ed == phi * k + 1,
                phi == (p - 1) * (q - 1),
        ;
    }
    assert(x % qi == m % q) by {
        let cycles = ((p - 1) * k) as nat;
        assert((p - 1) * k >= 0) by (nonlinear_arith)
            requires
                p >= 1,
                k >= 0,
        ;
        lemma_power_cycle(m as int, q, cycles);
        assert((q - 1) * cycles + 1 == ed) by (nonlinear_arith)
            requires
                cycles == (p - 1) * k,
                ed == phi * k + 1,
                phi == (p - 1) * (q - 1),
        ;
    }
    lemma_mod_equivalence(x, m as int, pi);
    lemma_mod_equivalence(x, m as int, qi);
    lemma_distinct_primes_coprime(p, q);
    lemma_coprime_divisors_multiply(p, q, x - m);
    lemma_mod_equivalence(x, m as int, pi * qi);
}

/// Raising to the power `e` and then to the power `d`, with a reduction by
/// `n` after each, is raising to the power `e * d`.
pub proof fn lemma_pow_mod_twice(m: nat, e: nat, d: nat, n: nat)
    requires
        n > 0,
    ensures
        e * d >= 0,
        pow(pow(m as int, e) % (n as int), d) % (n as int) == pow(m as int, e * d) % (n as int),
{
    lemma_mul_nonnegative(e as int, d as int);
    lemma_pow_mod_noop(pow(m as int, e), d, n as int);
    lemma_pow_multiplies(m as int, e, d);
}

} // verus!
