use rustnetworking::big_num::{new_prime, BigInt, BigUint, Digit, Sign};
use rustnetworking::error::Error;
use rustnetworking::screening::screen;

fn unsigned(value: u32) -> BigUint {
    BigUint::from_u32(value)
}

fn signed(value: i64) -> BigInt {
    let magnitude = value.unsigned_abs();
    let digits = vec![magnitude as u32, (magnitude >> 32) as u32];
    BigInt::new(if value < 0 { Sign::Minus } else { Sign::Plus }, digits)
}

#[test]
fn digits_are_read_least_significant_first() {
    let number = BigUint::new(vec![1, 2]);
    assert_eq!(number.to_bytes_be(), vec![2, 0, 0, 0, 1]);
    assert_eq!(BigUint::new(vec![]), unsigned(0));
    assert_eq!(BigUint::new(vec![7, 0, 0]), unsigned(7));
}

#[test]
fn bytes_are_big_endian_and_minimal() {
    assert_eq!(BigUint::from_bytes_be(&[0, 0, 1, 2]).to_bytes_be(), vec![1, 2]);
    assert_eq!(BigUint::from_bytes_be(&[]).to_bytes_be(), vec![0]);
    assert_eq!(BigUint::from_bytes_be(&[0, 0]).to_bytes_be(), vec![0]);
    assert_eq!(BigUint::from_bytes_be(b"A"), unsigned(65));
    assert_eq!(BigUint::from_bytes_be(b"AB"), unsigned(16706));
    assert_eq!(unsigned(1125).to_bytes_be(), vec![4, 101]);
    let bytes: Vec<u8> = unsigned(258).into();
    assert_eq!(bytes, vec![1, 2]);
    assert_eq!(BigUint::from(vec![1u8, 0]), unsigned(256));
}

#[test]
fn unsigned_arithmetic() {
    assert_eq!(unsigned(250).add(&unsigned(10)), unsigned(260));
    assert_eq!(unsigned(260).sub(&unsigned(10)), Ok(unsigned(250)));
    assert_eq!(unsigned(10).sub(&unsigned(10)), Ok(unsigned(0)));
    assert_eq!(unsigned(10).sub(&unsigned(11)), Err(Error::Underflow));
    assert_eq!(unsigned(300).mul(&unsigned(300)), unsigned(90000));
    assert_eq!(unsigned(17).div(&unsigned(5)), unsigned(3));
    assert_eq!(unsigned(17).rem(&unsigned(5)), unsigned(2));
    assert!(unsigned(3).less_than(&unsigned(4)));
    assert!(!unsigned(4).less_than(&unsigned(4)));
    assert!(unsigned(0).is_zero());
    assert!(!unsigned(9).is_zero());
}

#[test]
fn modpow_gcd_and_coprime() {
    assert_eq!(unsigned(4).modpow(&unsigned(13), &unsigned(497)), unsigned(445));
    assert_eq!(unsigned(2).modpow(&unsigned(0), &unsigned(1)), unsigned(0));
    assert_eq!(unsigned(7).modpow(&unsigned(0), &unsigned(5)), unsigned(1));
    assert_eq!(unsigned(12).gcd(&unsigned(18)), unsigned(6));
    assert_eq!(unsigned(0).gcd(&unsigned(18)), unsigned(18));
    assert_eq!(unsigned(18).gcd(&unsigned(0)), unsigned(18));
    assert_eq!(unsigned(0).gcd(&unsigned(0)), unsigned(0));
    assert!(unsigned(3).co_prime(&unsigned(40)));
    assert!(!unsigned(3).co_prime(&unsigned(42)));
}

#[test]
fn bit_sizes() {
    assert_eq!(unsigned(0).bit_size(), 0);
    assert_eq!(unsigned(1).bit_size(), 1);
    assert_eq!(unsigned(255).bit_size(), 8);
    assert_eq!(unsigned(256).bit_size(), 9);
    assert_eq!(BigUint::from_bytes_be(&[0x40, 0, 0, 0, 0]).bit_size(), 39);
    assert!(unsigned(255).fits_in_bits(8));
    assert!(!unsigned(256).fits_in_bits(8));
    assert!(unsigned(0).fits_in_bits(0));
    assert!(unsigned(0).has_bits(0));
    assert!(!unsigned(0).has_bits(1));
    assert!(unsigned(1).has_bits(1));
    assert!(unsigned(255).has_bits(8));
    assert!(!unsigned(255).has_bits(9));
    assert!(!unsigned(256).has_bits(8));
    assert!(unsigned(256).has_bits(9));
    assert!(BigUint::from_bytes_be(&[0x40, 0, 0, 0, 0]).has_bits(39));
}

#[test]
fn conversions_from_machine_integers_and_digits() {
    assert_eq!(BigUint::from_i32(3), Ok(unsigned(3)));
    assert_eq!(BigUint::from_i32(0), Ok(unsigned(0)));
    assert_eq!(BigUint::from_i32(-1), Err(Error::ConversionError));
    assert_eq!(BigUint::from(Digit::_9), unsigned(9));
    assert_eq!(BigUint::from_digit(Digit::_0), unsigned(0));
    assert_eq!(BigUint::default(), unsigned(0));
    assert_eq!(Digit::_4.to_u32(), 4);
}

#[test]
fn three_counts_as_prime() {
    assert!(unsigned(3).prime());
    assert!(!unsigned(0).prime());
    assert!(!unsigned(4).prime());
}

#[test]
fn one_is_no_prime() {
    for _ in 0..50 {
        assert!(!unsigned(1).prime());
    }
}

#[test]
fn new_prime_has_the_size_asked_for() {
    let prime = new_prime(32).expect("a prime of 32 bits");
    assert!(prime.has_bits(32));
    assert_eq!(prime.bit_size(), 32);
    assert_eq!(prime.remainder_by(2), 1);
    assert!(screen(&prime));
    assert!(prime.prime());
    // the primes of exactly three bits are 5 and 7, the one of two bits is 3
    for _ in 0..20 {
        let small = new_prime(3).expect("a prime of three bits");
        assert!(small == unsigned(5) || small == unsigned(7));
        assert_eq!(new_prime(2), Ok(unsigned(3)));
    }
}

#[test]
fn new_prime_gives_up_where_there_is_no_prime() {
    assert_eq!(new_prime(0), Err(Error::AttemptsExhausted));
    assert_eq!(new_prime(1), Err(Error::AttemptsExhausted));
}

#[test]
fn even_numbers_are_turned_down() {
    for even in [0u32, 2, 4, 6, 8, 10, 12, 1024, 65536, 4294967294] {
        assert!(!unsigned(even).prime());
    }
    assert!(!BigUint::from_bytes_be(&[0x7f, 0xff, 0xff, 0xff, 0xff, 0xff, 0xff, 0xfe]).prime());
}

#[test]
fn remainder_by_a_machine_integer() {
    assert_eq!(unsigned(17).remainder_by(5), 2);
    assert_eq!(unsigned(0).remainder_by(7), 0);
    assert_eq!(unsigned(4294967295).remainder_by(4294967295), 0);
    assert_eq!(unsigned(6).remainder_by(1), 0);
    // 2^64 = 18446744073709551616
    let big = BigUint::from_bytes_be(&[1, 0, 0, 0, 0, 0, 0, 0, 0]);
    assert_eq!(big.remainder_by(1000), 616);
    assert_eq!(big.remainder_by(4294967295), 1);
    assert_eq!(big.remainder_by(3), 1);
    let other = BigUint::from_bytes_be(&[0xab; 40]);
    for d in [2u32, 3, 97, 4096, 65537, 4000000007] {
        assert_eq!(unsigned(other.remainder_by(d)), other.rem(&unsigned(d)));
    }
}

#[test]
fn random_number_keeps_to_its_size() {
    assert_eq!(BigUint::random(0), unsigned(0));
    let mut seen_two_bytes = false;
    for _ in 0..200 {
        let number = BigUint::random(10);
        assert!(number.fits_in_bits(10));
        seen_two_bytes = seen_two_bytes || number.to_bytes_be().len() == 2;
    }
    assert!(seen_two_bytes);
}

#[test]
fn signed_construction() {
    assert_eq!(BigInt::new(Sign::Plus, vec![5]), signed(5));
    assert_eq!(BigInt::new(Sign::Minus, vec![5]), signed(-5));
    assert_eq!(BigInt::new(Sign::NoSign, vec![5]), signed(0));
    assert_eq!(BigInt::new(Sign::Minus, vec![0]), signed(0));
    assert_eq!(BigInt::from(Digit::_7), signed(7));
    assert_eq!(BigInt::from(unsigned(12)), signed(12));
    assert_eq!(signed(-3).sign(), Sign::Minus);
    assert_eq!(signed(0).sign(), Sign::NoSign);
    assert_eq!(signed(3).sign(), Sign::Plus);
    assert!(signed(-1).is_negative());
    assert!(signed(0).is_zero());
}

#[test]
fn signed_arithmetic() {
    for a in [-7i64, -2, 0, 3, 12] {
        for b in [-5i64, -1, 0, 4, 9] {
            assert_eq!(signed(a).add(&signed(b)), signed(a + b));
            assert_eq!(signed(a).sub(&signed(b)), signed(a - b));
            assert_eq!(signed(a).mul(&signed(b)), signed(a * b));
            assert_eq!(signed(a).less_than(&signed(b)), a < b);
            if b != 0 {
                assert_eq!(signed(a).div(&signed(b)), signed(a / b));
            }
        }
    }
    assert_eq!(signed(-7).neg(), signed(7));
    assert_eq!(signed(-12).gcd(&signed(18)), signed(6));
    assert_eq!(signed(-12).magnitude(), unsigned(12));
}

#[test]
fn narrowing_a_negative_integer_fails() {
    assert_eq!(signed(5).to_biguint(), Ok(unsigned(5)));
    assert_eq!(signed(0).to_biguint(), Ok(unsigned(0)));
    assert_eq!(signed(-5).to_biguint(), Err(Error::ConversionError));
}

#[test]
fn numbers_are_ordered_by_value() {
    assert!(unsigned(3) < unsigned(4));
    assert!(unsigned(256) > unsigned(255));
    assert!(unsigned(7) <= unsigned(7));
    assert!(!(unsigned(7) < unsigned(7)));
    assert!(signed(-5) < signed(-4));
    assert!(signed(-1) < signed(0));
    assert!(signed(3) >= signed(-3));
    assert!(BigUint::from_bytes_be(&[1, 0, 0]) > BigUint::from_bytes_be(&[0xff, 0xff]));
}
