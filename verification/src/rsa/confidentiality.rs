//! RSA encryption and decryption.
//!
//! A message is encrypted with the public key, which anyone may hold, and
//! only the owner of the secret key can decrypt it. The bytes of a message
//! are read as one big-endian number, so a message is limited by the modulus:
//! a larger one is reduced by it and cannot be recovered, and leading zero
//! bytes are lost.

use super::{PublicKey, SecretKey, E};
use crate::big_num::BigUint;
use crate::encoding::{
    be_bytes, be_value, is_canonical, lemma_be_bytes_value, lemma_canonical_is_be_bytes,
};
use crate::error::Error;
use crate::fermat::{lemma_pow_mod_twice, lemma_rsa_exponents_cancel};
use crate::modular::{inverse, inverse_result};
use crate::number_theory::{gcd, is_prime, lemma_inverse_exists, mod_inverse};
use vstd::arithmetic::div_mod::lemma_small_mod;
use vstd::arithmetic::power::pow;
use vstd::prelude::*;

verus! {

pub type Message = Vec<u8>;

pub type Plaintext = Message;

pub type Ciphertext = Message;

/// `base` to the power `exponent`, reduced by `modulus`.
pub open spec fn pow_mod(base: nat, exponent: nat, modulus: nat) -> nat {
    (pow(base as int, exponent) % (modulus as int)) as nat
}

/// The ciphertext of `plaintext` under the modulus `n`: the bytes of
/// `plaintext` to the power [`E`], reduced by `n`.
pub open spec fn encrypted(plaintext: Seq<u8>, n: nat) -> Seq<u8> {
    be_bytes(pow_mod(be_value(plaintext), E as nat, n))
}

/// The private exponent that belongs to the primes `p` and `q`: the inverse
/// of [`E`] for `(p - 1) * (q - 1)`.
pub open spec fn private_exponent(p: nat, q: nat) -> Result<nat, Error> {
    if p == 0 || q == 0 {
        Err(Error::Underflow)
    } else {
        inverse_result(E as nat, ((p - 1) * (q - 1)) as nat)
    }
}

/// The plaintext of `ciphertext` under the primes `p` and `q`, or `BadKey`
/// where the two have no private exponent.
pub open spec fn decrypted(ciphertext: Seq<u8>, p: nat, q: nat) -> Result<Seq<u8>, Error> {
    match private_exponent(p, q) {
        Ok(d) => Ok(be_bytes(pow_mod(be_value(ciphertext), d, p * q))),
        Err(_) => Err(Error::BadKey),
    }
}

/// The public exponent as a big number.
pub fn public_exponent() -> (e: BigUint)
    ensures
        e@ == E,
{
    BigUint::from_u32(E as u32)
}

/// Encrypts `plaintext` for the owner of `pk`: `c = m^e mod n`, with the
/// fixed exponent [`E`] and the modulus of `pk`.
pub fn encrypt(plaintext: Plaintext, pk: &PublicKey) -> (ciphertext: Ciphertext)
    ensures
        ciphertext@ == encrypted(plaintext@, pk@),
{
    let number = BigUint::from_bytes_be(plaintext.as_slice());
    let modulus = pk.modulus();
    let cipher = number.modpow(&public_exponent(), &modulus);
    cipher.to_bytes_be()
}

/// Decrypts `ciphertext` with the secret key: `m = c^d mod n`, where `d` is
/// the inverse of [`E`] for `(p - 1) * (q - 1)` and `n = p * q`.
///
/// Fails with `BadKey` where the key has no such inverse.
pub fn decrypt(ciphertext: Ciphertext, sk: SecretKey) -> (plaintext: Result<Plaintext, Error>)
    ensures
        match plaintext {
            Ok(m) => decrypted(ciphertext@, sk@.0, sk@.1) == Ok::<Seq<u8>, Error>(m@),
            Err(e) => decrypted(ciphertext@, sk@.0, sk@.1) == Err::<Seq<u8>, Error>(e),
        },
{
    let number = BigUint::from_bytes_be(ciphertext.as_slice());
    let (p, q) = sk.into_primes();
    match create_d(&p, &q) {
        Ok(d) => {
            let modulus = p.mul(&q);
            proof {
                assert(p@ * q@ != 0) by (nonlinear_arith)
                    requires
                        p@ >= 1,
                        q@ >= 1,
                ;
            }
            let message = number.modpow(&d, &modulus);
            Ok(message.to_bytes_be())
        },
        Err(_) => Err(Error::BadKey),
    }
}

/// Derives the private exponent from the two primes.
fn create_d(p: &BigUint, q: &BigUint) -> (d: Result<BigUint, Error>)
    ensures
        match d {
            Ok(d) => private_exponent(p@, q@) == Ok::<nat, Error>(d@),
            Err(e) => private_exponent(p@, q@) == Err::<nat, Error>(e),
        },
{
    let one = BigUint::from_u32(1);
    let p_less = match p.sub(&one) {
        Ok(difference) => difference,
        Err(e) => { return Err(e); },
    };
    let q_less = match q.sub(&one) {
        Ok(difference) => difference,
        Err(e) => { return Err(e); },
    };
    let modulus = p_less.mul(&q_less);
    inverse(public_exponent(), modulus)
}

/// Whether `n`, `p` and `q` make a key pair as key generation means it: two
/// different primes, their product, and [`E`] sharing no factor with
/// `(p - 1) * (q - 1)`.
pub open spec fn valid_key_pair(n: nat, p: nat, q: nat) -> bool {
    &&& is_prime(p)
    &&& is_prime(q)
    &&& p != q
    &&& n == p * q
    &&& gcd(E as nat, ((p - 1) * (q - 1)) as nat) == 1
}

/// A valid key pair has a private exponent, and the product of the two
/// exponents is one more than a multiple of `(p - 1) * (q - 1)`.
pub proof fn lemma_private_exponent(n: nat, p: nat, q: nat) -> (d: nat)
    requires
        valid_key_pair(n, p, q),
    ensures
        private_exponent(p, q) == Ok::<nat, Error>(d),
        (E as nat * d) % (((p - 1) * (q - 1)) as nat) == 1,
        n > 0,
{
    let phi = ((p - 1) * (q - 1)) as nat;
    assert(phi >= 2 && n > 0) by (nonlinear_arith)
        requires
            p >= 2,
            q >= 2,
            p != q,
            phi == (p - 1) * (q - 1),
            n == p * q,
    ;
    lemma_inverse_exists(E as nat, phi);
    let d = mod_inverse(E as nat, phi);
    lemma_small_mod(1, phi);
    assert(d * (E as nat) == E as nat * d) by (nonlinear_arith);
    d
}

/// The numbers behind encryption and decryption undo each other, in either
/// order.
pub proof fn lemma_exponents_undo(m: nat, n: nat, p: nat, q: nat, d: nat)
    requires
        valid_key_pair(n, p, q),
        private_exponent(p, q) == Ok::<nat, Error>(d),
        m < n,
    ensures
        pow_mod(pow_mod(m, E as nat, n), d, n) == m,
        pow_mod(pow_mod(m, d, n), E as nat, n) == m,
{
    let e = E as nat;
    let d0 = lemma_private_exponent(n, p, q);
    assert(d0 == d);
    lemma_rsa_exponents_cancel(m, e, d, p, q);
    lemma_pow_mod_twice(m, e, d, n);
    lemma_pow_mod_twice(m, d, e, n);
    assert(e * d == d * e) by (nonlinear_arith);
    lemma_small_mod(m, n);
    vstd::arithmetic::div_mod::lemma_mod_bound(pow(m as int, e), n as int);
    vstd::arithmetic::div_mod::lemma_mod_bound(pow(m as int, d), n as int);
}

/// Decryption undoes encryption: under a valid key pair, a message in its
/// shortest form whose number lies below the modulus comes back as it was.
pub proof fn lemma_decrypt_undoes_encrypt(message: Seq<u8>, n: nat, p: nat, q: nat)
    requires
        valid_key_pair(n, p, q),
        is_canonical(message),
        be_value(message) < n,
    ensures
        decrypted(encrypted(message, n), p, q) == Ok::<Seq<u8>, Error>(message),
{
    let d = lemma_private_exponent(n, p, q);
    let m = be_value(message);
    lemma_exponents_undo(m, n, p, q, d);
    lemma_be_bytes_value(pow_mod(m, E as nat, n));
    lemma_canonical_is_be_bytes(message);
}

/// Encryption undoes decryption: under a valid key pair, decrypting bytes in
/// their shortest form whose number lies below the modulus succeeds, and
/// encrypting the outcome gives the bytes back.
pub proof fn lemma_encrypt_undoes_decrypt(bytes: Seq<u8>, n: nat, p: nat, q: nat)
    requires
        valid_key_pair(n, p, q),
        be_value(bytes) < n,
    ensures
        decrypted(bytes, p, q) is Ok,
        encrypted(decrypted(bytes, p, q).unwrap(), n) == be_bytes(be_value(bytes)),
        is_canonical(bytes) ==> encrypted(decrypted(bytes, p, q).unwrap(), n) == bytes,
{
    let d = lemma_private_exponent(n, p, q);
    let m = be_value(bytes);
    lemma_exponents_undo(m, n, p, q, d);
    lemma_be_bytes_value(pow_mod(m, d, n));
    if is_canonical(bytes) {
        lemma_canonical_is_be_bytes(bytes);
    }
}

} // verus!
