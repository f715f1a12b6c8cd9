use rustnetworking::big_num::BigUint;
use rustnetworking::error::Error;
use rustnetworking::p2p::P2pErr;
use rustnetworking::rsa::authenticity::{sign, verify, verify_digest, Verification};
use rustnetworking::rsa::confidentiality::{decrypt, encrypt};
use rustnetworking::rsa::{pack, try_key_pair, unpack, Data, KeyPair, PublicKey, SecretKey};
use sha2::{Digest, Sha256};

fn from_hex(text: &str) -> Vec<u8> {
    (0..text.len() / 2)
        .map(|i| u8::from_str_radix(&text[2 * i..2 * i + 2], 16).unwrap())
        .collect()
}

fn key_pair(p: &str, q: &str) -> KeyPair {
    let p = BigUint::from_bytes_be(&from_hex(p));
    let q = BigUint::from_bytes_be(&from_hex(q));
    try_key_pair(p, q, 4096).unwrap().unwrap()
}

// two primes of 141 and 142 bits
fn sender_keys() -> KeyPair {
    key_pair("10000000000000000000000000000000313f", "2000000000000000000000000000000003d5")
}

// two primes of 601 and 602 bits
fn receiver_keys() -> KeyPair {
    let zeros = "00".repeat(73);
    key_pair(&format!("01{}00bb", zeros), &format!("02{}164d", zeros))
}

const SIGNATURE_OF_HI: &str =
    "ccad8069f03a6a87c428d4ad7dfe1fdc04bb113c1e573d945fb26ec4b356b0c4c69027";

const PACKED_HI: &str = "3e63b66f4fc15a0480a9191ee6ab9054adf950dd51f86af3b30811b73ded68dc0f065e3d721843ef371b1a6a6e32d93b0702cfc71d3f5c79da9f4422072d6e6b4ccc731d4ce46efa9f7d1849ebfb3c21f07184f3a99c41b738ed1d9833f37567aa7208927a52307d577ed6fa38efffb9edd2e2e20daff8141fbbae5fe32025c742877e08b345b738abf3d0302e935df7abaaff6f0b39";

#[test]
fn signature_is_the_decrypted_digest() {
    let (_, sk) = sender_keys();
    let signature = sign(b"hi".to_vec(), sk.clone()).unwrap();
    assert_eq!(signature, from_hex(SIGNATURE_OF_HI));
    let digest = Sha256::digest(b"hi").to_vec();
    assert_eq!(decrypt(digest, sk), Ok(signature));
}

#[test]
fn own_signature_is_accepted_and_others_are_rejected() {
    let (pk, sk) = sender_keys();
    let signature = sign(b"hi".to_vec(), sk).unwrap();
    assert_eq!(verify(b"hi".to_vec(), signature.clone(), pk.clone()), Verification::Accept);
    assert_eq!(verify(b"ho".to_vec(), signature.clone(), pk.clone()), Verification::Reject);
    assert_eq!(verify(vec![], signature.clone(), pk.clone()), Verification::Reject);
    let mut tampered = signature;
    tampered[0] ^= 1;
    assert_eq!(verify(b"hi".to_vec(), tampered, pk), Verification::Reject);
}

#[test]
fn digest_with_a_leading_zero_byte_is_not_recovered() {
    // the number behind a signature does not keep a leading zero byte of
    // the digest, so that the signature is not accepted for its own message
    let (pk, sk) = sender_keys();
    let message = b"message 35".to_vec();
    assert_eq!(Sha256::digest(&message)[0], 0);
    let signature = sign(message.clone(), sk).unwrap();
    assert_eq!(verify(message, signature, pk), Verification::Reject);
}

#[test]
fn verification_compares_with_the_digest_handed_in() {
    let (pk, _) = sender_keys();
    let signature = from_hex(SIGNATURE_OF_HI);
    let digest = Sha256::digest(b"hi").to_vec();
    assert_eq!(encrypt(signature.clone(), &pk), digest);
    assert_eq!(verify_digest(&digest, signature.clone(), &pk), Verification::Accept);
    assert_eq!(verify_digest(&b"hi".to_vec(), signature, &pk), Verification::Reject);
}

#[test]
fn signing_with_an_inconsistent_key_is_a_bad_key() {
    let key = SecretKey::new(BigUint::from_u32(7), BigUint::from_u32(11));
    assert_eq!(sign(b"hi".to_vec(), key), Err(Error::BadKey));
}

#[test]
fn envelope_is_three_length_prefixed_fields() {
    let data = Data {
        message: vec![0xaa, 0xbb],
        signature: vec![1, 2, 3],
        sender: PublicKey::new(BigUint::from_u32(0x010203)).unwrap(),
    };
    let bytes = data.to_bytes();
    let expected: Vec<u8> = vec![
        2, 0, 0, 0, 0, 0, 0, 0, 0xaa, 0xbb, //
        3, 0, 0, 0, 0, 0, 0, 0, 1, 2, 3, //
        3, 0, 0, 0, 0, 0, 0, 0, 1, 2, 3,
    ];
    assert_eq!(bytes, expected);
    let fields: (Vec<u8>, Vec<u8>, Vec<u8>) = (vec![0xaa, 0xbb], vec![1, 2, 3], vec![1, 2, 3]);
    assert_eq!(bytes, bincode::serialize(&fields).unwrap());
}

#[test]
fn envelope_reads_back_what_was_written() {
    let data = Data {
        message: b"a message".to_vec(),
        signature: vec![9; 40],
        sender: PublicKey::new(BigUint::from_bytes_be(&[7; 33])).unwrap(),
    };
    let mut bytes = data.to_bytes();
    let same = Data::from_bytes(&bytes).unwrap();
    assert_eq!(same.message, data.message);
    assert_eq!(same.signature, data.signature);
    assert_eq!(same.sender.modulus(), data.sender.modulus());
    // what follows the envelope is ignored
    bytes.extend_from_slice(&[1, 2, 3]);
    assert_eq!(Data::from_bytes(&bytes).unwrap().message, data.message);
    // empty fields
    let empty = Data {
        message: vec![],
        signature: vec![],
        sender: PublicKey::new(BigUint::from_u32(1)).unwrap(),
    };
    let again = Data::from_bytes(&empty.to_bytes()).unwrap();
    assert!(again.message.is_empty() && again.signature.is_empty());
}

#[test]
fn malformed_envelopes_are_serialization_errors() {
    let good = Data {
        message: vec![1, 2],
        signature: vec![3],
        sender: PublicKey::new(BigUint::from_u32(5)).unwrap(),
    }
    .to_bytes();
    for cut in 0..good.len() {
        assert!(matches!(Data::from_bytes(&good[..cut].to_vec()), Err(Error::SerializationError)));
    }
    // a length that points beyond the end
    let mut long = good.clone();
    long[0] = 200;
    assert!(matches!(Data::from_bytes(&long), Err(Error::SerializationError)));
    let mut huge = good.clone();
    huge[7] = 0xff;
    assert!(matches!(Data::from_bytes(&huge), Err(Error::SerializationError)));
    // a modulus of zero is no key
    let mut zero = good.clone();
    let last = zero.len() - 1;
    zero[last] = 0;
    assert!(matches!(Data::from_bytes(&zero), Err(Error::SerializationError)));
}

#[test]
fn pack_then_unpack_gives_the_message() {
    let (receiver_pk, receiver_sk) = receiver_keys();
    let packed = pack(b"hi".to_vec(), sender_keys(), &receiver_pk).unwrap();
    assert_eq!(packed, from_hex(PACKED_HI));
    assert_eq!(unpack(packed, receiver_sk), Ok(b"hi".to_vec()));
}

#[test]
fn unpack_with_another_key_fails() {
    let (receiver_pk, _) = receiver_keys();
    let packed = pack(b"hi".to_vec(), sender_keys(), &receiver_pk).unwrap();
    let (_, other) = sender_keys();
    let outcome = unpack(packed.clone(), other);
    assert!(matches!(outcome, Err(Error::BadKey) | Err(Error::SerializationError)));
    let broken = SecretKey::new(BigUint::from_u32(7), BigUint::from_u32(13));
    assert_eq!(unpack(packed, broken), Err(Error::BadKey));
}

#[test]
fn unpack_rejects_a_wrong_signature() {
    let (receiver_pk, receiver_sk) = receiver_keys();
    let (sender_pk, sender_sk) = sender_keys();
    let signature = sign(b"another message".to_vec(), sender_sk).unwrap();
    let data = Data { message: b"hi".to_vec(), signature, sender: sender_pk };
    let sealed = encrypt(data.to_bytes(), &receiver_pk);
    assert_eq!(unpack(sealed, receiver_sk), Err(Error::VerificationRejected));
}

#[test]
fn envelope_above_the_receivers_modulus_is_lost() {
    // sender and receiver keys of one size: the envelope does not fit
    let (receiver_pk, receiver_sk) = sender_keys();
    let packed = pack(b"hi".to_vec(), sender_keys(), &receiver_pk).unwrap();
    assert!(unpack(packed, receiver_sk).is_err());
}

#[test]
fn pack_with_an_inconsistent_sender_key_is_a_bad_key() {
    let (receiver_pk, _) = receiver_keys();
    let (sender_pk, _) = sender_keys();
    let broken = SecretKey::new(BigUint::from_u32(7), BigUint::from_u32(13));
    assert_eq!(pack(b"hi".to_vec(), (sender_pk, broken), &receiver_pk), Err(Error::BadKey));
}

#[test]
fn peer_failure_keeps_its_text() {
    let failure = P2pErr::new("connection refused".to_string());
    assert_eq!(failure.text(), "connection refused");
}
