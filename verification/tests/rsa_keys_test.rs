use rustnetworking::big_num::BigUint;
use rustnetworking::error::Error;
use rustnetworking::rsa::confidentiality::{decrypt, encrypt, public_exponent};
use rustnetworking::rsa::{
    check_exponent, keeps_candidate, keygen, keygen_with_limit, try_key_pair, worth_testing, Key,
    PublicKey, SecretKey, E,
};
use rustnetworking::screening::screen;

fn small(value: u32) -> BigUint {
    BigUint::from_u32(value)
}

#[test]
fn public_exponent_is_three() {
    assert_eq!(E, 3);
    assert_eq!(public_exponent(), small(3));
}

#[test]
fn key_kinds_differ() {
    assert_ne!(Key::PublicKey, Key::SecretKey);
}

#[test]
fn candidates_are_judged_in_order() {
    // equal candidates
    assert!(matches!(try_key_pair(small(5), small(5), 8), Ok(None)));
    // together too long: 3 + 4 bits
    assert!(matches!(try_key_pair(small(5), small(11), 6), Ok(None)));
    // zero has no predecessor
    assert!(matches!(try_key_pair(small(0), small(11), 8), Err(Error::Underflow)));
    assert!(matches!(try_key_pair(small(11), small(0), 8), Err(Error::Underflow)));
    // 7 - 1 shares the factor 3 with the exponent
    assert!(matches!(try_key_pair(small(7), small(11), 8), Ok(None)));
    // accepted
    let (pk, sk) = try_key_pair(small(5), small(11), 7).unwrap().unwrap();
    assert_eq!(pk.modulus(), small(55));
    assert_eq!(pk.bit_size(), 6);
    let (p, q) = sk.into_primes();
    assert_eq!((p, q), (small(5), small(11)));
}

#[test]
fn exponent_check_looks_at_the_predecessor() {
    assert!(check_exponent(&small(5)));
    assert!(check_exponent(&small(3)));
    assert!(check_exponent(&small(2)));
    assert!(!check_exponent(&small(7)));
    assert!(!check_exponent(&small(13)));
    assert!(!check_exponent(&small(0)));
    // gcd(3, 0) is 3
    assert!(!check_exponent(&small(1)));
}

#[test]
fn candidate_is_kept_where_it_passed_the_test() {
    assert!(keeps_candidate(&small(11), 4, true));
    // the primality test decides
    assert!(!keeps_candidate(&small(11), 4, false));
    // not of four bits
    assert!(!keeps_candidate(&small(11), 5, true));
    assert!(!keeps_candidate(&small(11), 3, true));
    // 13 - 1 shares the factor 3 with the exponent
    assert!(!keeps_candidate(&small(13), 4, true));
    assert!(!keeps_candidate(&small(13), 4, false));
}

#[test]
fn only_screened_numbers_are_worth_testing() {
    assert!(worth_testing(&small(11), 4));
    assert!(!worth_testing(&small(11), 5));
    assert!(!worth_testing(&small(13), 4));
    // 9 suits the exponent and has the divisor 3
    assert!(!worth_testing(&small(9), 4));
    // 341 = 11 * 31 suits the exponent and passes Fermat's test
    assert!(!worth_testing(&small(341), 9));
    // 4099 * 4133 suits the exponent, has no small divisor and fails Fermat's test
    assert!(check_exponent(&small(16941167)));
    assert!(!worth_testing(&small(16941167), 25));
}

#[test]
fn public_key_needs_a_modulus() {
    assert!(matches!(PublicKey::new(small(0)), Err(Error::ConversionError)));
    let key = PublicKey::new(small(55)).unwrap();
    assert_eq!(key.modulus(), small(55));
    assert_eq!(key.clone().modulus(), small(55));
}

#[test]
fn textbook_example_with_small_primes() {
    let (pk, sk) = try_key_pair(small(5), small(11), 8).unwrap().unwrap();
    // 2^3 mod 55 = 8, and 8^27 mod 55 = 2 with 27 * 3 = 81 = 2 * 40 + 1
    let cipher = encrypt(vec![2], &pk);
    assert_eq!(cipher, vec![8]);
    assert_eq!(decrypt(cipher, sk.clone()), Ok(vec![2]));
    for m in 0u8..55 {
        assert_eq!(decrypt(encrypt(vec![m], &pk), sk.clone()), Ok(vec![m]));
    }
}

#[test]
fn message_above_the_modulus_is_lost() {
    let (pk, sk) = try_key_pair(small(5), small(11), 8).unwrap().unwrap();
    // 57 is reduced to 2
    assert_eq!(encrypt(vec![57], &pk), vec![8]);
    assert_eq!(decrypt(encrypt(vec![57], &pk), sk), Ok(vec![2]));
}

#[test]
fn leading_zero_bytes_are_lost() {
    let (pk, sk) = try_key_pair(small(5), small(11), 8).unwrap().unwrap();
    assert_eq!(decrypt(encrypt(vec![0, 0x02], &pk), sk.clone()), Ok(vec![2]));
    assert_eq!(decrypt(encrypt(vec![], &pk), sk), Ok(vec![0]));
}

#[test]
fn inconsistent_key_is_a_bad_key() {
    // (7 - 1) * (11 - 1) shares the factor 3 with the exponent
    assert_eq!(decrypt(vec![8], SecretKey::new(small(7), small(11))), Err(Error::BadKey));
    // no predecessor
    assert_eq!(decrypt(vec![8], SecretKey::new(small(0), small(11))), Err(Error::BadKey));
    // (1 - 1) * (11 - 1) is zero
    assert_eq!(decrypt(vec![8], SecretKey::new(small(1), small(11))), Err(Error::BadKey));
}

#[test]
fn small_key_round_trips_a_single_byte() {
    let (pk, sk) = keygen(64).expect("a 64 bit key");
    let cipher = encrypt(vec![0x41], &pk);
    assert_eq!(decrypt(cipher, sk), Ok(vec![0x41]));
}

#[test]
fn generated_key_keeps_its_promises() {
    let (pk, sk) = keygen(129).expect("a 129 bit key");
    assert!(pk.bit_size() == 128 || pk.bit_size() == 129);
    let n = pk.modulus();
    let (p, q) = sk.into_primes();
    assert_ne!(p, q);
    assert_eq!(p.mul(&q), n);
    assert_eq!(p.bit_size(), 64);
    assert_eq!(q.bit_size(), 65);
    let one = small(1);
    let phi = p.sub(&one).unwrap().mul(&q.sub(&one).unwrap());
    assert!(small(3).co_prime(&phi));
    assert!(p.prime() && q.prime());
    assert!(screen(&p) && screen(&q));
    assert_eq!(p.remainder_by(2), 1);
    assert_eq!(q.remainder_by(2), 1);
}

#[test]
fn large_key_is_within_its_size() {
    let (pk, sk) = keygen(2048).expect("a 2048 bit key");
    assert!(pk.bit_size() == 2047 || pk.bit_size() == 2048);
    let (p, q) = sk.into_primes();
    assert_ne!(p, q);
    assert_eq!(p.bit_size(), 1024);
    assert_eq!(q.bit_size(), 1024);
}

#[test]
fn key_generation_gives_up_at_the_ceiling() {
    assert!(matches!(keygen_with_limit(2048, 0), Err(Error::AttemptsExhausted)));
    assert!(matches!(keygen_with_limit(2048, 1), Err(Error::AttemptsExhausted)));
    assert!(matches!(keygen(0), Err(Error::AttemptsExhausted)));
    // one-bit numbers hold no prime
    assert!(matches!(keygen(2), Err(Error::AttemptsExhausted)));
    // of the four-bit primes only 11 suits the exponent, and two are needed
    assert!(matches!(keygen(8), Err(Error::AttemptsExhausted)));
}

#[test]
fn every_failure_has_a_message() {
    let all = [
        Error::Underflow,
        Error::NotInvertible,
        Error::BadKey,
        Error::ConversionError,
        Error::VerificationRejected,
        Error::SerializationError,
        Error::AttemptsExhausted,
    ];
    for (i, a) in all.iter().enumerate() {
        assert!(!a.message().is_empty());
        for b in all.iter().skip(i + 1) {
            assert_ne!(a.message(), b.message());
        }
    }
    assert_eq!(Error::BadKey.message(), "bad key");
    assert_eq!(Error::VerificationRejected.message(), "verification rejected");
}
