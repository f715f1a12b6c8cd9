use rustnetworking::big_num::BigUint;
use rustnetworking::screening::{
    fermat_test, has_small_divisor, keeps_prime, screen, worth_a_test, SIEVE_LIMIT,
};

fn number(value: u32) -> BigUint {
    BigUint::from_u32(value)
}

#[test]
fn small_divisors_are_found() {
    assert!(has_small_divisor(&number(4), 10));
    assert!(has_small_divisor(&number(15), 10));
    assert!(has_small_divisor(&number(49), 7));
    assert!(!has_small_divisor(&number(49), 6));
    // 4099 * 4111
    assert!(!has_small_divisor(&number(16850989), 4098));
    assert!(has_small_divisor(&number(16850989), 4099));
    assert!(has_small_divisor(&number(16850989), 4100));
}

#[test]
fn a_number_is_no_divisor_of_itself() {
    for prime in [2u32, 3, 5, 7, 11, 13, 4093, 4099, 65537] {
        assert!(!has_small_divisor(&number(prime), SIEVE_LIMIT));
    }
    assert!(!has_small_divisor(&number(0), SIEVE_LIMIT));
    assert!(!has_small_divisor(&number(1), SIEVE_LIMIT));
    assert!(!has_small_divisor(&number(15), 1));
    assert!(!has_small_divisor(&number(15), 0));
    assert!(!has_small_divisor(&number(4), 1));
}

#[test]
fn fermat_test_to_the_base_two() {
    for prime in [3u32, 5, 7, 11, 13, 4093, 65537, 4294967291] {
        assert!(fermat_test(&number(prime)));
    }
    for composite in [0u32, 1, 4, 6, 9, 15, 21, 25, 4095, 4294967295] {
        assert!(!fermat_test(&number(composite)));
    }
    // two to the power 1 leaves no remainder
    assert!(!fermat_test(&number(2)));
    // 341 = 11 * 31 and 561 = 3 * 11 * 17 pass all the same
    assert!(fermat_test(&number(341)));
    assert!(fermat_test(&number(561)));
}

#[test]
fn screen_asks_for_both() {
    assert!(!screen(&number(341)));
    assert!(!screen(&number(561)));
    assert!(!screen(&number(2)));
    assert!(!screen(&number(4)));
    assert!(screen(&number(3)));
    assert!(screen(&number(4099)));
    // 4099 * 4111 has no small divisor and fails the test
    assert!(!screen(&number(16850989)));
    // the prime 2^127 - 1
    let mut bytes = vec![0xff; 16];
    bytes[0] = 0x7f;
    assert!(screen(&BigUint::from_bytes_be(&bytes)));
    // and 2^128 - 1
    assert!(!screen(&BigUint::from_bytes_be(&[0xff; 16])));
}

#[test]
fn prime_candidates_need_their_length_and_the_screen() {
    assert!(worth_a_test(&number(11), 4));
    assert!(worth_a_test(&number(13), 4));
    assert!(!worth_a_test(&number(13), 5));
    assert!(!worth_a_test(&number(13), 3));
    assert!(!worth_a_test(&number(15), 4));
    assert!(!worth_a_test(&number(341), 9));
    assert!(!worth_a_test(&number(1), 1));
    assert!(!worth_a_test(&number(0), 0));
}

#[test]
fn prime_is_kept_where_it_passed_the_test() {
    assert!(keeps_prime(&number(13), 4, true));
    assert!(!keeps_prime(&number(13), 4, false));
    assert!(!keeps_prime(&number(13), 5, true));
    assert!(!keeps_prime(&number(13), 3, true));
}
