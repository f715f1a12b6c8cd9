use rustnetworking::big_num::{BigUint, Digit};
use rustnetworking::error::Error;
use rustnetworking::modular::inverse;

fn number(value: u32) -> BigUint {
    BigUint::from_u32(value)
}

#[test]
fn test_inverse_of_3_mod_7() -> Result<(), String> {
    let x: BigUint = Digit::_3.into();
    let modulus: BigUint = Digit::_7.into();
    let res = inverse(x, modulus).map_err(|e| e.message())?;

    assert_eq!(BigUint::from(Digit::_5), res);
    Ok(())
}

#[test]
fn inverse_times_x_leaves_one() {
    for modulus in [2u32, 7, 40, 97, 1000, 65537] {
        for x in 0u32..60 {
            let result = inverse(number(x), number(modulus));
            let shared = number(x).gcd(&number(modulus));
            if shared == number(1) {
                let r = result.expect("coprime numbers have an inverse");
                assert!(r.less_than(&number(modulus)));
                assert_eq!(r.mul(&number(x)).rem(&number(modulus)), number(1));
            } else {
                assert_eq!(result, Err(Error::NotInvertible));
            }
        }
    }
}

#[test]
fn inverse_of_shared_factor_is_not_invertible() {
    assert_eq!(inverse(number(6), number(9)), Err(Error::NotInvertible));
    assert_eq!(inverse(number(0), number(9)), Err(Error::NotInvertible));
    assert_eq!(inverse(number(9), number(9)), Err(Error::NotInvertible));
}

#[test]
fn inverse_of_number_above_modulus() {
    assert_eq!(inverse(number(10), number(7)), Ok(number(5)));
    assert_eq!(inverse(number(3), number(40)), Ok(number(27)));
}

#[test]
fn inverse_for_modulus_one_and_zero() {
    assert_eq!(inverse(number(5), number(1)), Ok(number(0)));
    assert_eq!(inverse(number(1), number(1)), Ok(number(0)));
    assert_eq!(inverse(number(1), number(0)), Ok(number(1)));
    assert_eq!(inverse(number(2), number(0)), Err(Error::NotInvertible));
    assert_eq!(inverse(number(0), number(0)), Err(Error::NotInvertible));
}

#[test]
fn inverse_for_a_large_modulus() {
    let modulus = BigUint::from_bytes_be(&[0xff; 40]);
    let x = BigUint::from_bytes_be(&[0x10, 0x00, 0x00, 0x00, 0x01]);
    match inverse(x.clone(), modulus.clone()) {
        Ok(r) => assert_eq!(r.mul(&x).rem(&modulus), number(1)),
        Err(e) => {
            assert_eq!(e, Error::NotInvertible);
            assert!(!x.co_prime(&modulus));
        }
    }
}
