//! RSA keys, key generation, and the signed and encrypted envelope.

use crate::big_num::BigUint;
use crate::encoding::{
    be_bytes, be_value, bit_length, lemma_bit_length_product, lemma_bit_length_product_at_least,
    lemma_long_number_is_large, lemma_value_below_pow2,
};
use crate::error::Error;
use crate::number_theory::{gcd, is_prime, lemma_gcd_symmetric};
use crate::screening::{keeps_prime, may_be_prime, screen, SIEVE_LIMIT};
use self::authenticity::{
    lemma_own_signature_accepted, lemma_sign_then_verify, sha256_digest, sign, verdict, verify,
    Signature, Verification,
};
use self::confidentiality::{
    decrypt, decrypted, encrypt, encrypted, lemma_decrypt_undoes_encrypt, public_exponent,
    valid_key_pair, Ciphertext, Message, Plaintext,
};
use crate::encoding::{is_canonical, lemma_be_bytes_value};
use vstd::bytes::{
    lemma_auto_spec_u64_to_from_le_bytes, spec_u64_from_le_bytes, spec_u64_to_le_bytes,
    u64_from_le_bytes, u64_to_le_bytes,
};
use vstd::prelude::*;
use vstd::slice::{slice_subrange, slice_to_vec};

pub mod authenticity;
pub mod confidentiality;

verus! {

/// The public exponent, shared by all keys.
pub const E: i32 = 3;

/// How many random numbers [`keygen`] draws for each bit of the key size
/// before it gives up.
pub const ATTEMPTS_PER_BIT: u64 = 64;

/// The public half of a key pair: the modulus `n = p * q`, which is never
/// zero.
#[derive(Debug)]
pub struct PublicKey {
    n: BigUint,
}

/// The secret half of a key pair: the two primes.
#[derive(Debug)]
pub struct SecretKey {
    p: BigUint,
    q: BigUint,
}

pub type KeyPair = (PublicKey, SecretKey);

/// The two kinds of key.
#[derive(Clone, Copy, Debug, PartialEq, Eq, Structural)]
pub enum Key {
    PublicKey,
    SecretKey,
}

impl View for PublicKey {
    type V = nat;

    /// The modulus.
    closed spec fn view(&self) -> nat {
        self.n@
    }
}

impl View for SecretKey {
    type V = (nat, nat);

    /// The two primes, `p` first.
    closed spec fn view(&self) -> (nat, nat) {
        (self.p@, self.q@)
    }
}

impl PublicKey {
    #[verifier::type_invariant]
    spec fn modulus_positive(self) -> bool {
        self.n@ > 0
    }

    /// The public key with the modulus `n`, or `ConversionError` where `n`
    /// is zero.
    pub fn new(n: BigUint) -> (key: Result<Self, Error>)
        ensures
            match key {
                Ok(k) => n@ > 0 && k@ == n@,
                Err(e) => n@ == 0 && e == Error::ConversionError,
            },
    {
        if n.is_zero() {
            Err(Error::ConversionError)
        } else {
            Ok(PublicKey { n })
        }
    }

    /// The modulus.
    pub fn modulus(&self) -> (n: BigUint)
        ensures
            n@ == self@,
            n@ > 0,
    {
        proof {
            use_type_invariant(self);
        }
        self.n.clone()
    }

    /// The size of the modulus in bits, or `u32::MAX` where it is larger
    /// than that.
    pub fn bit_size(&self) -> (bits: u32)
        ensures
            bits == if bit_length(self@) > u32::MAX {
                u32::MAX as nat
            } else {
                bit_length(self@)
            },
    {
        self.n.bit_size()
    }
}

impl Clone for PublicKey {
    fn clone(&self) -> (copy: Self)
        ensures
            copy@ == self@,
    {
        proof {
            use_type_invariant(self);
        }
        PublicKey { n: self.n.clone() }
    }
}

impl SecretKey {
    /// The secret key with the primes `p` and `q`. Nothing is asked of the
    /// two numbers here: a key that cannot decrypt shows as `BadKey` when it
    /// is used.
    pub fn new(p: BigUint, q: BigUint) -> (key: Self)
        ensures
            key@ == (p@, q@),
    {
        SecretKey { p, q }
    }

    /// The two primes, `p` first.
    pub fn into_primes(self) -> (primes: (BigUint, BigUint))
        ensures
            primes.0@ == self@.0,
            primes.1@ == self@.1,
    {
        (self.p, self.q)
    }
}

impl Clone for SecretKey {
    fn clone(&self) -> (copy: Self)
        ensures
            copy@ == self@,
    {
        SecretKey { p: self.p.clone(), q: self.q.clone() }
    }
}

/// The verdict on two candidate primes for a key of `bit_size` bits:
/// whether they make a key pair, or the failure that they lead to.
///
/// Two equal candidates are turned down, then two that are together longer
/// than the key may be. A candidate of zero has no predecessor, which shows
/// as `Underflow`. What is left is accepted where [`E`] shares no factor with
/// `(p - 1) * (q - 1)`.
pub open spec fn candidate_verdict(p: nat, q: nat, bit_size: nat) -> Result<bool, Error> {
    if p == q {
        Ok(false)
    } else if bit_length(p) + bit_length(q) > bit_size {
        Ok(false)
    } else if p == 0 || q == 0 {
        Err(Error::Underflow)
    } else {
        Ok(gcd(E as nat, ((p - 1) * (q - 1)) as nat) == 1)
    }
}

/// Whether a number can be one of the two primes as far as the public
/// exponent goes: it has a predecessor, which shares no factor with [`E`].
pub open spec fn suits_exponent(candidate: nat) -> bool {
    candidate >= 1 && gcd(E as nat, (candidate - 1) as nat) == 1
}

/// Makes a key pair of two candidate primes, or nothing where the
/// candidates are turned down. See [`candidate_verdict`].
pub fn try_key_pair(p: BigUint, q: BigUint, bit_size: u32) -> (pair: Result<
    Option<KeyPair>,
    Error,
>)
    ensures
        match pair {
            Ok(Some((pk, sk))) => {
                &&& candidate_verdict(p@, q@, bit_size as nat) == Ok::<bool, Error>(true)
                &&& pk@ == p@ * q@
                &&& sk@ == (p@, q@)
                &&& bit_length(pk@) <= bit_size
            },
            Ok(None) => candidate_verdict(p@, q@, bit_size as nat) == Ok::<bool, Error>(false),
            Err(e) => candidate_verdict(p@, q@, bit_size as nat) == Err::<bool, Error>(e),
        },
{
    if p.eq(&q) {
        return Ok(None);
    }
    if !p.fits_in_bits(bit_size) || !q.fits_in_bits(bit_size) {
        return Ok(None);
    }
    if p.bit_size() as u64 + q.bit_size() as u64 > bit_size as u64 {
        return Ok(None);
    }
    let one = BigUint::from_u32(1);
    let p_less = match p.sub(&one) {
        Ok(difference) => difference,
        Err(e) => { return Err(e); },
    };
    let q_less = match q.sub(&one) {
        Ok(difference) => difference,
        Err(e) => { return Err(e); },
    };
    let modulus = p_less.mul(&q_less);
    if !public_exponent().co_prime(&modulus) {
        return Ok(None);
    }
    let n = p.mul(&q);
    proof {
        assert(p@ * q@ > 0) by (nonlinear_arith)
            requires
                p@ >= 1,
                q@ >= 1,
        ;
        lemma_bit_length_product(p@, q@);
    }
    match PublicKey::new(n) {
        Ok(public_key) => Ok(Some((public_key, SecretKey::new(p, q)))),
        Err(e) => Err(e),
    }
}

/// Whether `candidate` can be one of the two primes as far as the public
/// exponent goes, see [`suits_exponent`].
pub fn check_exponent(candidate: &BigUint) -> (suits: bool)
    ensures
        suits == suits_exponent(candidate@),
{
    match candidate.sub(&BigUint::from_u32(1)) {
        Ok(predecessor) => {
            proof {
                lemma_coprime_to_three(predecessor@);
            }
            !predecessor.rem(&public_exponent()).is_zero()
        },
        Err(_) => false,
    }
}

/// A number shares no factor with three exactly where three does not
/// divide it.
pub proof fn lemma_coprime_to_three(x: nat)
    ensures
        gcd(3, x) == 1 <==> x % 3 != 0,
{
    lemma_gcd_symmetric(3, x);
    let r = x % 3;
    assert(gcd(x, 3) == gcd(3, r));
    if r == 0 {
        assert(gcd(3, 0) == 3);
    } else if r == 1 {
        assert(gcd(3, 1) == gcd(1, 0));
    } else {
        assert(gcd(3, 2) == gcd(2, 1));
        assert(gcd(2, 1) == gcd(1, 0));
    }
}

/// Whether a random number is worth the primality test as a candidate of
/// `bits` bits: it has exactly that many bits, it suits the public exponent,
/// and it passes the quick screen, which a prime of this kind always does.
pub fn worth_testing(candidate: &BigUint, bits: u32) -> (worth: bool)
    ensures
        worth == (bit_length(candidate@) == bits && suits_exponent(candidate@) && may_be_prime(
            candidate@,
            SIEVE_LIMIT as nat,
        )),
{
    candidate.has_bits(bits as usize) && check_exponent(candidate) && screen(candidate)
}

/// Whether key generation keeps a random number as one of its two primes,
/// given what the primality test has said of it: the number has passed the
/// test, has exactly `bits` bits and suits the public exponent.
pub fn keeps_candidate(candidate: &BigUint, bits: u32, passed_test: bool) -> (kept: bool)
    ensures
        kept == (passed_test && bit_length(candidate@) == bits && suits_exponent(candidate@)),
{
    keeps_prime(candidate, bits as usize, passed_test) && check_exponent(candidate)
}

/// Draws random numbers until [`keeps_candidate`] keeps one, with at most
/// `*draws` draws. Only a number that is [`worth_testing`] is handed to the
/// primality test. Every draw is taken off `*draws`; nothing comes back
/// where they run out.
fn draw_prime(bits: u32, draws: &mut u64) -> (prime: Option<BigUint>)
    ensures
        *final(draws) <= *old(draws),
        match prime {
            Some(p) => {
                &&& *final(draws) < *old(draws)
                &&& suits_exponent(p@)
                &&& bit_length(p@) == bits
                &&& may_be_prime(p@, SIEVE_LIMIT as nat)
                &&& p@ % 2 == 1
            },
            None => *final(draws) == 0,
        },
{
    while *draws > 0
        invariant
            *draws <= *old(draws),
        decreases *draws,
    {
        *draws = *draws - 1;
        let candidate = BigUint::random(bits as usize);
        if worth_testing(&candidate, bits) {
            let passed_test = candidate.prime();
            if keeps_candidate(&candidate, bits, passed_test) {
                return Some(candidate);
            }
        }
    }
    None
}

/// What holds of every key pair that key generation hands out for a key of
/// `bit_size` bits: the first prime has half of the bits, rounded down, and
/// the second has the rest; both are odd and have passed the quick screen;
/// the two differ; the public exponent shares no factor with
/// `(p - 1) * (q - 1)`; and the modulus is their product, which has
/// `bit_size` bits or one less.
pub open spec fn generated(n: nat, p: nat, q: nat, bit_size: nat) -> bool {
    &&& bit_length(p) == bit_size / 2
    &&& bit_length(q) == bit_size - bit_size / 2
    &&& p % 2 == 1 && q % 2 == 1
    &&& may_be_prime(p, SIEVE_LIMIT as nat)
    &&& may_be_prime(q, SIEVE_LIMIT as nat)
    &&& p != q
    &&& candidate_verdict(p, q, bit_size) == Ok::<bool, Error>(true)
    &&& n == p * q
    &&& bit_size <= bit_length(n) + 1
    &&& bit_length(n) <= bit_size
}

/// A generated key pair is a valid one wherever its two numbers are indeed
/// prime, so that the laws of encryption and signatures hold of it.
pub proof fn lemma_generated_key_is_valid(n: nat, p: nat, q: nat, bit_size: nat)
    requires
        generated(n, p, q, bit_size),
        is_prime(p),
        is_prime(q),
    ensures
        valid_key_pair(n, p, q),
{
}

/// Signatures under a generated key of 258 bits or more, wherever its two
/// numbers are indeed prime: the signature of a message is rejected for
/// every message with another digest, and it is accepted for the message
/// itself where the digest does not begin with a zero byte.
///
/// A digest has 32 bytes, as [`sign`] and [`verify`] say of every message
/// that they are given; the modulus of such a key is above every number of
/// 32 bytes.
pub proof fn lemma_signatures_of_generated_keys(
    message: Seq<u8>,
    other: Seq<u8>,
    n: nat,
    p: nat,
    q: nat,
    bit_size: nat,
)
    requires
        generated(n, p, q, bit_size),
        is_prime(p),
        is_prime(q),
        bit_size >= 258,
        sha256_digest(message).len() == 32,
        sha256_digest(other).len() == 32,
    ensures
        decrypted(sha256_digest(message), p, q) is Ok,
        sha256_digest(other) != sha256_digest(message) ==> verdict(
            sha256_digest(other),
            decrypted(sha256_digest(message), p, q).unwrap(),
            n,
        ) == Verification::Reject,
        sha256_digest(message)[0] != 0 ==> verdict(
            sha256_digest(message),
            decrypted(sha256_digest(message), p, q).unwrap(),
            n,
        ) == Verification::Accept,
{
    let digest = sha256_digest(message);
    lemma_generated_key_is_valid(n, p, q, bit_size);
    lemma_value_below_pow2(digest);
    lemma_long_number_is_large(n, 256);
    lemma_sign_then_verify(message, other, n, p, q);
}

/// Generates an RSA key pair for a modulus of `bit_size` bits, with at most
/// `max_attempts` draws of a random number.
///
/// The first prime is looked for among the numbers of `bit_size / 2` bits,
/// the second among those of the rest of the bits. A random number goes to
/// the primality test where it is [`worth_testing`], and becomes a candidate
/// where [`keeps_candidate`] keeps it, so that numbers which the last test of
/// [`candidate_verdict`] would turn down are not tested for primality at all.
/// Two candidates that [`candidate_verdict`] turns down are both thrown away
/// and two new ones are looked for. Where `max_attempts` numbers were drawn
/// and no pair was accepted, the result is `AttemptsExhausted`; below four
/// bits, where the first number would have one bit at most and could not be
/// a prime, it is so at once.
///
/// That the two numbers are prime rests on a probabilistic test and is not
/// part of the contract.
pub fn keygen_with_limit(bit_size: u32, max_attempts: u64) -> (pair: Result<KeyPair, Error>)
    ensures
        match pair {
            Ok((pk, sk)) => generated(pk@, sk@.0, sk@.1, bit_size as nat),
            Err(e) => e == Error::AttemptsExhausted,
        },
        max_attempts < 2 ==> pair is Err,
        bit_size < 4 ==> pair is Err,
{
    if bit_size < 4 {
        return Err(Error::AttemptsExhausted);
    }
    let p_size: u32 = bit_size / 2;
    let q_size: u32 = bit_size - p_size;
    let mut draws: u64 = max_attempts;
    while draws > 0
        invariant
            draws <= max_attempts,
            bit_size >= 4,
            p_size == bit_size / 2,
            q_size == bit_size - bit_size / 2,
        decreases draws,
    {
        let p_candidate = match draw_prime(p_size, &mut draws) {
            Some(prime) => prime,
            None => { return Err(Error::AttemptsExhausted); },
        };
        let q_candidate = match draw_prime(q_size, &mut draws) {
            Some(prime) => prime,
            None => { return Err(Error::AttemptsExhausted); },
        };
        proof {
            lemma_bit_length_product_at_least(p_candidate@, q_candidate@);
        }
        match try_key_pair(p_candidate, q_candidate, bit_size) {
            Ok(Some(pair)) => { return Ok(pair); },
            Ok(None) => {},
            Err(e) => {
                return Err(e);
            },
        }
    }
    Err(Error::AttemptsExhausted)
}

/// Generates an RSA key pair for a modulus of `bit_size` bits, or of one bit
/// less.
///
/// The pair holds a [`PublicKey`] that encrypts and a [`SecretKey`] that
/// decrypts. For security a `bit_size` of 2048 or more is recommended. The
/// search for primes is given up after [`ATTEMPTS_PER_BIT`] draws for each
/// bit of the size, see [`keygen_with_limit`]; with sizes of a few bits,
/// where no two primes fit, it always is.
pub fn keygen(bit_size: u32) -> (pair: Result<KeyPair, Error>)
    ensures
        match pair {
            Ok((pk, sk)) => generated(pk@, sk@.0, sk@.1, bit_size as nat),
            Err(e) => e == Error::AttemptsExhausted,
        },
        bit_size < 4 ==> pair is Err,
{
    keygen_with_limit(bit_size, ATTEMPTS_PER_BIT * (bit_size as u64))
}

/// What travels inside an envelope: a message, its signature and the
/// public key of the signer.
#[derive(Debug)]
pub struct Data {
    pub message: Message,
    pub signature: Signature,
    pub sender: PublicKey,
}

impl View for Data {
    type V = (Seq<u8>, Seq<u8>, nat);

    /// The message, the signature and the modulus of the sender.
    open spec fn view(&self) -> (Seq<u8>, Seq<u8>, nat) {
        (self.message@, self.signature@, self.sender@)
    }
}

/// One field on the wire: its length as eight little-endian bytes, then its
/// bytes.
pub open spec fn frame(field: Seq<u8>) -> Seq<u8> {
    spec_u64_to_le_bytes(field.len() as u64) + field
}

/// An envelope on the wire: the message, the signature and the big-endian
/// bytes of the sender's modulus, each as a [`frame`].
pub open spec fn envelope_bytes(message: Seq<u8>, signature: Seq<u8>, sender: nat) -> Seq<u8> {
    frame(message) + frame(signature) + frame(be_bytes(sender))
}

/// The field that starts at `start` in `bytes` and the place where it ends,
/// or nothing where the bytes end too early.
pub open spec fn field_at(bytes: Seq<u8>, start: int) -> Option<(Seq<u8>, int)> {
    if start < 0 || start + 8 > bytes.len() {
        None
    } else {
        let length = spec_u64_from_le_bytes(bytes.subrange(start, start + 8)) as int;
        if start + 8 + length > bytes.len() {
            None
        } else {
            Some((bytes.subrange(start + 8, start + 8 + length), start + 8 + length))
        }
    }
}

/// The envelope that `bytes` begins with, or nothing where they do not
/// begin with one. Bytes after the envelope are ignored, leading zero bytes
/// of the sender's modulus are accepted, and a modulus of zero is no key.
pub open spec fn parsed_envelope(bytes: Seq<u8>) -> Option<(Seq<u8>, Seq<u8>, nat)> {
    match field_at(bytes, 0) {
        None => None,
        Some((message, after_message)) => match field_at(bytes, after_message) {
            None => None,
            Some((signature, after_signature)) => match field_at(bytes, after_signature) {
                None => None,
                Some((sender, _)) => if be_value(sender) == 0 {
                    None
                } else {
                    Some((message, signature, be_value(sender)))
                },
            },
        },
    }
}

/// Appends one field to `out`.
fn write_field(out: &mut Vec<u8>, field: &Vec<u8>)
    ensures
        final(out)@ == old(out)@ + frame(field@),
{
    let mut header = u64_to_le_bytes(field.len() as u64);
    let ghost before = out@;
    out.append(&mut header);
    let mut i: usize = 0;
    while i < field.len()
        invariant
            i <= field.len(),
            out@ == before + spec_u64_to_le_bytes(field.len() as u64) + field@.subrange(0, i as int),
        decreases field.len() - i,
    {
        out.push(field[i]);
        i = i + 1;
        proof {
            assert(field@.subrange(0, i as int) =~= field@.subrange(0, i - 1).push(
                field@[i - 1],
            ));
        }
    }
    proof {
        assert(field@.subrange(0, i as int) =~= field@);
        assert(out@ =~= before + frame(field@));
    }
}

/// Reads the field that starts at `start`.
fn read_field(bytes: &Vec<u8>, start: usize) -> (field: Option<(Vec<u8>, usize)>)
    ensures
        match field {
            Some((content, end)) => field_at(bytes@, start as int) == Some((content@, end as int)),
            None => field_at(bytes@, start as int) is None,
        },
{
    let len = bytes.len();
    if start > len || len - start < 8 {
        return None;
    }
    let length = u64_from_le_bytes(slice_subrange(bytes.as_slice(), start, start + 8));
    let rest = len - start - 8;
    if length > rest as u64 {
        return None;
    }
    let end = start + 8 + length as usize;
    let content = slice_to_vec(slice_subrange(bytes.as_slice(), start + 8, end));
    Some((content, end))
}

impl Data {
    /// The envelope on the wire, see [`envelope_bytes`].
    pub fn to_bytes(&self) -> (bytes: Vec<u8>)
        ensures
            bytes@ == envelope_bytes(self.message@, self.signature@, self.sender@),
    {
        let mut out: Vec<u8> = Vec::new();
        write_field(&mut out, &self.message);
        write_field(&mut out, &self.signature);
        let modulus = self.sender.modulus().to_bytes_be();
        write_field(&mut out, &modulus);
        proof {
            assert(out@ =~= envelope_bytes(self.message@, self.signature@, self.sender@));
        }
        out
    }

    /// The envelope that `bytes` begins with, or `SerializationError` where
    /// they do not begin with one. See [`parsed_envelope`].
    pub fn from_bytes(bytes: &Vec<u8>) -> (data: Result<Data, Error>)
        ensures
            match data {
                Ok(d) => parsed_envelope(bytes@) == Some(d@),
                Err(e) => e == Error::SerializationError && parsed_envelope(bytes@) is None,
            },
    {
        let (message, after_message) = match read_field(bytes, 0) {
            Some(field) => field,
            None => { return Err(Error::SerializationError); },
        };
        let (signature, after_signature) = match read_field(bytes, after_message) {
            Some(field) => field,
            None => { return Err(Error::SerializationError); },
        };
        let (modulus, _) = match read_field(bytes, after_signature) {
            Some(field) => field,
            None => { return Err(Error::SerializationError); },
        };
        match PublicKey::new(BigUint::from_bytes_be(modulus.as_slice())) {
            Ok(sender) => Ok(Data { message, signature, sender }),
            Err(_) => Err(Error::SerializationError),
        }
    }
}

/// What [`pack`] returns: the signed envelope, encrypted for the receiver,
/// or `BadKey` where the sender's key cannot sign.
pub open spec fn packed(
    message: Seq<u8>,
    sender_n: nat,
    sender_p: nat,
    sender_q: nat,
    receiver_n: nat,
) -> Result<Seq<u8>, Error> {
    match decrypted(sha256_digest(message), sender_p, sender_q) {
        Ok(signature) => Ok(encrypted(envelope_bytes(message, signature, sender_n), receiver_n)),
        Err(e) => Err(e),
    }
}

/// What is returned for an envelope once it is decrypted: its message
/// where the signature in it belongs to the message under the sender's key
/// in it, `VerificationRejected` where it does not, and `SerializationError`
/// where the bytes hold no envelope.
pub open spec fn opened(plain: Seq<u8>) -> Result<Seq<u8>, Error> {
    match parsed_envelope(plain) {
        None => Err(Error::SerializationError),
        Some((message, signature, sender)) => if verdict(
            sha256_digest(message),
            signature,
            sender,
        ) == Verification::Accept {
            Ok(message)
        } else {
            Err(Error::VerificationRejected)
        },
    }
}

/// What [`unpack`] returns: `BadKey` where the receiver's key cannot
/// decrypt, and else what [`opened`] says of the decrypted bytes.
pub open spec fn unpacked(ciphertext: Seq<u8>, p: nat, q: nat) -> Result<Seq<u8>, Error> {
    match decrypted(ciphertext, p, q) {
        Ok(plain) => opened(plain),
        Err(e) => Err(e),
    }
}

/// Signs `message` with the sender's key pair, puts message, signature and
/// the sender's public key into an envelope and encrypts the envelope for
/// the receiver: sign, then encrypt.
pub fn pack(message: Plaintext, sender: KeyPair, receiver: &PublicKey) -> (ciphertext: Result<
    Ciphertext,
    Error,
>)
    ensures
        match ciphertext {
            Ok(c) => packed(message@, sender.0@, sender.1@.0, sender.1@.1, receiver@) == Ok::<
                Seq<u8>,
                Error,
            >(c@),
            Err(e) => packed(message@, sender.0@, sender.1@.0, sender.1@.1, receiver@) == Err::<
                Seq<u8>,
                Error,
            >(e),
        },
{
    let (sender_pk, sender_sk) = sender;
    let signature = match sign(message.clone(), sender_sk) {
        Ok(signature) => signature,
        Err(e) => { return Err(e); },
    };
    let data = Data { message, signature, sender: sender_pk };
    let data_bytes = data.to_bytes();
    Ok(encrypt(data_bytes, receiver))
}

/// Decrypts an envelope with the receiver's key, checks the signature in it
/// against the message and the sender's key in it, and hands out the
/// message where the signature is accepted.
pub fn unpack(ciphertext: Ciphertext, receiver: SecretKey) -> (message: Result<Plaintext, Error>)
    ensures
        match message {
            Ok(m) => unpacked(ciphertext@, receiver@.0, receiver@.1) == Ok::<Seq<u8>, Error>(m@),
            Err(e) => unpacked(ciphertext@, receiver@.0, receiver@.1) == Err::<Seq<u8>, Error>(e),
        },
{
    let plain = match decrypt(ciphertext, receiver) {
        Ok(plain) => plain,
        Err(e) => { return Err(e); },
    };
    let data = match Data::from_bytes(&plain) {
        Ok(data) => data,
        Err(e) => { return Err(e); },
    };
    let Data { message, signature, sender } = data;
    match verify(message.clone(), signature, sender) {
        Verification::Reject => Err(Error::VerificationRejected),
        Verification::Accept => Ok(message),
    }
}

/// Reading an envelope gives back what was written, whatever follows it:
/// for fields whose lengths fit into eight bytes and a modulus that is not
/// zero.
pub proof fn lemma_envelope_round_trip(
    message: Seq<u8>,
    signature: Seq<u8>,
    sender: nat,
    tail: Seq<u8>,
)
    requires
        message.len() <= u64::MAX,
        signature.len() <= u64::MAX,
        be_bytes(sender).len() <= u64::MAX,
        sender > 0,
    ensures
        parsed_envelope(envelope_bytes(message, signature, sender) + tail) == Some(
            (message, signature, sender),
        ),
{
    lemma_auto_spec_u64_to_from_le_bytes();
    lemma_be_bytes_value(sender);
    let modulus = be_bytes(sender);
    let bytes = envelope_bytes(message, signature, sender) + tail;
    let a = 8 + message.len() as int;
    let b = a + 8 + signature.len();
    let c = b + 8 + modulus.len();
    assert(bytes.subrange(0, 8) =~= spec_u64_to_le_bytes(message.len() as u64));
    assert(bytes.subrange(8, a) =~= message);
    assert(field_at(bytes, 0) == Some((message, a)));
    assert(bytes.subrange(a, a + 8) =~= spec_u64_to_le_bytes(signature.len() as u64));
    assert(bytes.subrange(a + 8, b) =~= signature);
    assert(field_at(bytes, a) == Some((signature, b)));
    assert(bytes.subrange(b, b + 8) =~= spec_u64_to_le_bytes(modulus.len() as u64));
    assert(bytes.subrange(b + 8, c) =~= modulus);
    assert(field_at(bytes, b) == Some((modulus, c)));
}

/// Unpacking undoes packing: with valid key pairs on both sides, the
/// message that was packed comes out again, provided that the sender's
/// modulus outranks the digest of the message and the receiver's modulus
/// outranks the whole envelope, both read as numbers in their shortest form.
///
/// The envelope holds the message, a signature and the sender's modulus, so
/// the last condition asks for a receiver key that is much longer than the
/// sender's.
pub proof fn lemma_unpack_undoes_pack(
    message: Seq<u8>,
    sender_n: nat,
    sender_p: nat,
    sender_q: nat,
    receiver_n: nat,
    receiver_p: nat,
    receiver_q: nat,
)
    requires
        valid_key_pair(sender_n, sender_p, sender_q),
        valid_key_pair(receiver_n, receiver_p, receiver_q),
    ensures
        ({
            let digest = sha256_digest(message);
            let signature = decrypted(digest, sender_p, sender_q);
            is_canonical(digest) && be_value(digest) < sender_n ==> {
                &&& signature is Ok
                &&& packed(message, sender_n, sender_p, sender_q, receiver_n) is Ok
                &&& ({
                    let envelope = envelope_bytes(message, signature.unwrap(), sender_n);
                    &&& message.len() <= u64::MAX
                    &&& signature.unwrap().len() <= u64::MAX
                    &&& be_bytes(sender_n).len() <= u64::MAX
                    &&& is_canonical(envelope)
                    &&& be_value(envelope) < receiver_n
                }) ==> unpacked(
                    packed(message, sender_n, sender_p, sender_q, receiver_n).unwrap(),
                    receiver_p,
                    receiver_q,
                ) == Ok::<Seq<u8>, Error>(message)
            }
        }),
{
    let digest = sha256_digest(message);
    if is_canonical(digest) && be_value(digest) < sender_n {
        lemma_own_signature_accepted(digest, sender_n, sender_p, sender_q);
        let signature = decrypted(digest, sender_p, sender_q).unwrap();
        let envelope = envelope_bytes(message, signature, sender_n);
        if message.len() <= u64::MAX && signature.len() <= u64::MAX && be_bytes(sender_n).len()
            <= u64::MAX && is_canonical(envelope) && be_value(envelope) < receiver_n {
            lemma_decrypt_undoes_encrypt(envelope, receiver_n, receiver_p, receiver_q);
            assert(sender_n > 0) by (nonlinear_arith)
                requires
                    sender_n == sender_p * sender_q,
                    sender_p >= 2,
                    sender_q >= 2,
            ;
            lemma_envelope_round_trip(message, signature, sender_n, Seq::<u8>::empty());
            assert(envelope + Seq::<u8>::empty() =~= envelope);
        }
    }
}

} // verus!
