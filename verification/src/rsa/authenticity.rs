//! RSA signatures.
//!
//! A signature is made of the SHA-256 digest of a message, not of the message
//! itself, and it is checked against a fresh digest. Were the message signed
//! directly, anyone could pick a signature, encrypt it with the public key
//! and present the outcome as the signed message.

use super::confidentiality::{
    decrypt, decrypted, encrypt, encrypted, lemma_encrypt_undoes_decrypt, valid_key_pair, Message,
};
use super::{PublicKey, SecretKey};
use crate::encoding::{
    be_value, is_canonical, lemma_be_bytes_value, lemma_same_length_injective,
};
use crate::error::Error;
use vstd::prelude::*;

verus! {

pub type Signature = Vec<u8>;

/// The outcome of checking a signature.
#[derive(Clone, Copy, Debug, PartialEq, Eq, Structural)]
pub enum Verification {
    /// The signature belongs to the message.
    Accept,
    /// The signature does not belong to the message.
    Reject,
}

/// The SHA-256 digest of a message.
pub uninterp spec fn sha256_digest(message: Seq<u8>) -> Seq<u8>;

/// `Sha256` of the crate `sha2`, fed with `message` in one `update` and then
/// finalized: the digest of the message, which has 32 bytes.
#[verifier::external_body]
fn hash(message: &Message) -> (digest: Message)
    ensures
        digest@ == sha256_digest(message@),
        digest@.len() == 32,
{
    let mut hasher = <sha2::Sha256 as sha2::Digest>::new();
    sha2::Digest::update(&mut hasher, message);
    sha2::Digest::finalize(hasher).to_vec()
}

/// The verdict on `signature` for a message with the digest `digest`:
/// `Accept` exactly where encrypting the signature gives the digest.
pub open spec fn verdict(digest: Seq<u8>, signature: Seq<u8>, n: nat) -> Verification {
    if digest == encrypted(signature, n) {
        Verification::Accept
    } else {
        Verification::Reject
    }
}

/// Signs `message` with the secret key: the signature is the decrypted
/// digest of the message, a digest of 32 bytes.
///
/// Fails with `BadKey` where the key has no private exponent.
pub fn sign(message: Message, sk: SecretKey) -> (signature: Result<Signature, Error>)
    ensures
        match signature {
            Ok(s) => decrypted(sha256_digest(message@), sk@.0, sk@.1) == Ok::<Seq<u8>, Error>(s@),
            Err(e) => decrypted(sha256_digest(message@), sk@.0, sk@.1) == Err::<Seq<u8>, Error>(
                e,
            ),
        },
        sha256_digest(message@).len() == 32,
{
    let digest = hash(&message);
    decrypt(digest, sk)
}

/// Checks `signature` against `message` and the signer's public key: the
/// signature is accepted exactly where encrypting it gives the digest of the
/// message, a digest of 32 bytes.
pub fn verify(message: Message, signature: Signature, pk: PublicKey) -> (verification:
    Verification)
    ensures
        verification == verdict(sha256_digest(message@), signature@, pk@),
        sha256_digest(message@).len() == 32,
{
    let digest = hash(&message);
    verify_digest(&digest, signature, &pk)
}

/// Checks `signature` against the digest of a message and the signer's
/// public key.
pub fn verify_digest(digest: &Message, signature: Signature, pk: &PublicKey) -> (verification:
    Verification)
    ensures
        verification == verdict(digest@, signature@, pk@),
{
    let unsign = encrypt(signature, pk);
    if *digest == unsign {
        proof {
            assert(digest@ =~= unsign@);
        }
        Verification::Accept
    } else {
        Verification::Reject
    }
}

/// A signature is accepted for what it was made of: under a valid key pair,
/// signing a digest in its shortest form whose number lies below the modulus
/// succeeds, and the signature is accepted for that digest.
///
/// [`sign`] makes its signature of `sha256_digest(message)` and [`verify`]
/// checks against the same digest, so a message and its own signature are
/// accepted wherever the digest of the message meets the two conditions.
pub proof fn lemma_own_signature_accepted(digest: Seq<u8>, n: nat, p: nat, q: nat)
    requires
        valid_key_pair(n, p, q),
        is_canonical(digest),
        be_value(digest) < n,
    ensures
        decrypted(digest, p, q) is Ok,
        verdict(digest, decrypted(digest, p, q).unwrap(), n) == Verification::Accept,
{
    lemma_encrypt_undoes_decrypt(digest, n, p, q);
}

/// A signature is rejected for anything else: under a valid key pair, the
/// signature made of one digest whose number lies below the modulus is
/// rejected for every other digest of the same length.
///
/// All digests of [`sha256_digest`] have one length, so the signature of a
/// message is rejected for every message with another digest.
pub proof fn lemma_other_digest_rejected(
    digest: Seq<u8>,
    other: Seq<u8>,
    n: nat,
    p: nat,
    q: nat,
)
    requires
        valid_key_pair(n, p, q),
        be_value(digest) < n,
        other.len() == digest.len(),
        other != digest,
    ensures
        decrypted(digest, p, q) is Ok,
        verdict(other, decrypted(digest, p, q).unwrap(), n) == Verification::Reject,
{
    lemma_encrypt_undoes_decrypt(digest, n, p, q);
    let unsigned = encrypted(decrypted(digest, p, q).unwrap(), n);
    if other == unsigned {
        lemma_be_bytes_value(be_value(digest));
        lemma_same_length_injective(other, digest);
    }
}

/// The two laws above in terms of messages: where the digest of `message`
/// is in its shortest form and its number lies below the modulus, the
/// signature of `message` is accepted for `message`, and it is rejected for
/// every `other` whose digest has the same length and differs.
pub proof fn lemma_sign_then_verify(message: Seq<u8>, other: Seq<u8>, n: nat, p: nat, q: nat)
    requires
        valid_key_pair(n, p, q),
    ensures
        ({
            let digest = sha256_digest(message);
            let other_digest = sha256_digest(other);
            be_value(digest) < n ==> {
                &&& decrypted(digest, p, q) is Ok
                &&& is_canonical(digest) ==> verdict(
                    digest,
                    decrypted(digest, p, q).unwrap(),
                    n,
                ) == Verification::Accept
                &&& other_digest.len() == digest.len() && other_digest != digest ==> verdict(
                    other_digest,
                    decrypted(digest, p, q).unwrap(),
                    n,
                ) == Verification::Reject
            }
        }),
{
    let digest = sha256_digest(message);
    let other_digest = sha256_digest(other);
    if be_value(digest) < n {
        lemma_encrypt_undoes_decrypt(digest, n, p, q);
        if is_canonical(digest) {
            lemma_own_signature_accepted(digest, n, p, q);
        }
        if other_digest.len() == digest.len() && other_digest != digest {
            lemma_other_digest_rejected(digest, other_digest, n, p, q);
        }
    }
}

} // verus!
