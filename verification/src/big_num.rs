//! Arbitrary-precision integers.
//!
//! A [`BigUint`] keeps a natural number as its shortest big-endian byte
//! string, a [`BigInt`] adds a sign. The arithmetic itself is done by
//! `num-bigint`, the random numbers and the primality test come from
//! `num-primes`; each call into them stands in a small function below whose
//! contract is taken on trust.

use crate::encoding::{
    be_bytes, be_value, bit_length, is_canonical, le32_value, lemma_be_bytes_canonical,
    lemma_be_bytes_value, lemma_bit_length_of_byte, lemma_bit_length_of_bytes,
    lemma_canonical_injective, lemma_canonical_is_be_bytes,
};
use crate::error::Error;
use crate::number_theory::gcd;
use crate::screening::{keeps_prime, may_be_prime, worth_a_test, SIEVE_LIMIT};
use vstd::arithmetic::div_mod::{
    lemma_add_mod_noop, lemma_mod_bound, lemma_mul_mod_noop_left, lemma_small_mod,
};
use vstd::arithmetic::power::pow;
use vstd::prelude::*;
use vstd::std_specs::cmp::PartialEqSpecImpl;
use vstd::std_specs::convert::FromSpecImpl;

verus! {

/// `num_bigint::BigUint::new`: the number whose base 2^32 digits are
/// `digits`, least significant first, handed back as its canonical bytes
/// (`to_bytes_be`).
#[verifier::external_body]
fn bytes_from_digits(digits: Vec<u32>) -> (bytes: Vec<u8>)
    ensures
        bytes@ == be_bytes(le32_value(digits@)),
{
    num_primes::BigUint::new(digits).to_bytes_be()
}

/// `num_bigint::BigUint::from_bytes_be` followed by `to_bytes_be`: the
/// canonical bytes of the number that `bytes` stands for.
#[verifier::external_body]
fn bytes_normalized(bytes: &[u8]) -> (canonical: Vec<u8>)
    ensures
        canonical@ == be_bytes(be_value(bytes@)),
{
    num_primes::BigUint::from_bytes_be(bytes).to_bytes_be()
}

/// `+` of `num_bigint::BigUint`: the sum.
#[verifier::external_body]
fn bytes_add(a: &Vec<u8>, b: &Vec<u8>) -> (sum: Vec<u8>)
    ensures
        sum@ == be_bytes(be_value(a@) + be_value(b@)),
{
    let x = num_primes::BigUint::from_bytes_be(a);
    let y = num_primes::BigUint::from_bytes_be(b);
    (x + y).to_bytes_be()
}

/// `-` of `num_bigint::BigUint`: the difference. The outside operator panics
/// where the result would be negative, so that case is left out.
#[verifier::external_body]
fn bytes_sub(a: &Vec<u8>, b: &Vec<u8>) -> (difference: Vec<u8>)
    requires
        be_value(a@) >= be_value(b@),
    ensures
        difference@ == be_bytes((be_value(a@) - be_value(b@)) as nat),
{
    let x = num_primes::BigUint::from_bytes_be(a);
    let y = num_primes::BigUint::from_bytes_be(b);
    (x - y).to_bytes_be()
}

/// `*` of `num_bigint::BigUint`: the product.
#[verifier::external_body]
fn bytes_mul(a: &Vec<u8>, b: &Vec<u8>) -> (product: Vec<u8>)
    ensures
        product@ == be_bytes(be_value(a@) * be_value(b@)),
{
    let x = num_primes::BigUint::from_bytes_be(a);
    let y = num_primes::BigUint::from_bytes_be(b);
    (x * y).to_bytes_be()
}

/// `/` of `num_bigint::BigUint`: the quotient, rounded down. The outside
/// operator panics on a zero divisor, so that case is left out.
#[verifier::external_body]
fn bytes_div(a: &Vec<u8>, b: &Vec<u8>) -> (quotient: Vec<u8>)
    requires
        be_value(b@) != 0,
    ensures
        quotient@ == be_bytes(be_value(a@) / be_value(b@)),
{
    let x = num_primes::BigUint::from_bytes_be(a);
    let y = num_primes::BigUint::from_bytes_be(b);
    (x / y).to_bytes_be()
}

/// `%` of `num_bigint::BigUint`: the remainder. The outside operator panics
/// on a zero divisor, so that case is left out.
#[verifier::external_body]
fn bytes_rem(a: &Vec<u8>, b: &Vec<u8>) -> (remainder: Vec<u8>)
    requires
        be_value(b@) != 0,
    ensures
        remainder@ == be_bytes(be_value(a@) % be_value(b@)),
{
    let x = num_primes::BigUint::from_bytes_be(a);
    let y = num_primes::BigUint::from_bytes_be(b);
    (x % y).to_bytes_be()
}

/// `<` of `num_bigint::BigUint`: whether the first number is the smaller.
#[verifier::external_body]
fn bytes_less(a: &Vec<u8>, b: &Vec<u8>) -> (less: bool)
    ensures
        less == (be_value(a@) < be_value(b@)),
{
    num_primes::BigUint::from_bytes_be(a) < num_primes::BigUint::from_bytes_be(b)
}

/// `num::BigUint::modpow`: `base` to the power `exponent`, reduced by
/// `modulus`, as its documentation says. The outside function panics on a
/// zero modulus, so that case is left out.
#[verifier::external_body]
fn bytes_modpow(base: &Vec<u8>, exponent: &Vec<u8>, modulus: &Vec<u8>) -> (power: Vec<u8>)
    requires
        be_value(modulus@) != 0,
    ensures
        power@ == be_bytes(
            (pow(be_value(base@) as int, be_value(exponent@)) % (be_value(modulus@) as int)) as nat,
        ),
{
    let b = num::BigUint::from_bytes_be(base);
    let e = num::BigUint::from_bytes_be(exponent);
    let m = num::BigUint::from_bytes_be(modulus);
    b.modpow(&e, &m).to_bytes_be()
}

/// `num_integer::Integer::gcd` on `num_bigint::BigUint`: the greatest common
/// divisor, which is the other number where one of them is zero.
#[verifier::external_body]
fn bytes_gcd(a: &Vec<u8>, b: &Vec<u8>) -> (divisor: Vec<u8>)
    ensures
        divisor@ == be_bytes(gcd(be_value(a@), be_value(b@))),
{
    let x = num_primes::BigUint::from_bytes_be(a);
    let y = num_primes::BigUint::from_bytes_be(b);
    num::Integer::gcd(&x, &y).to_bytes_be()
}

/// `num_primes::Verification::is_prime`: a randomised primality test.
/// Before any random step it turns down zero and every even number but 2,
/// and its division by the small primes then turns down 2: what it accepts
/// is odd. Of the answer on an odd number nothing is claimed. On the number
/// 3 its Miller-Rabin round draws from an empty range and panics, so 3 is
/// left out.
#[verifier::external_body]
fn bytes_probably_prime(a: &Vec<u8>) -> (answer: bool)
    requires
        be_value(a@) != 3,
    ensures
        answer ==> be_value(a@) % 2 == 1,
{
    num_primes::Verification::is_prime(&num_primes::BigUint::from_bytes_be(a))
}

/// `num_primes::Generator::new_uint`: a random number below two to the power
/// `bits`, handed back as its canonical bytes. Which number comes is left
/// open.
#[verifier::external_body]
fn random_bytes(bits: usize) -> (bytes: Vec<u8>)
    ensures
        bytes@ == be_bytes(be_value(bytes@)),
        bit_length(be_value(bytes@)) <= bits,
{
    num_primes::Generator::new_uint(bits).to_bytes_be()
}

/// How many random numbers [`new_prime`] draws for each bit of the size
/// before it gives up.
pub const DRAWS_PER_BIT: u64 = 64;

/// The fewest bits that express a byte.
fn bits_of_byte(byte: u8) -> (bits: u8)
    ensures
        bits == bit_length(byte as nat),
        bits <= 8,
{
    proof {
        lemma_bit_length_of_byte(byte);
    }
    if byte >= 128 {
        8
    } else if byte >= 64 {
        7
    } else if byte >= 32 {
        6
    } else if byte >= 16 {
        5
    } else if byte >= 8 {
        4
    } else if byte >= 4 {
        3
    } else if byte >= 2 {
        2
    } else if byte >= 1 {
        1
    } else {
        0
    }
}

/// A decimal digit.
#[derive(Clone, Copy, Debug, PartialEq, Eq, Structural)]
pub enum Digit {
    _0,
    _1,
    _2,
    _3,
    _4,
    _5,
    _6,
    _7,
    _8,
    _9,
}

impl Digit {
    /// The number that the digit stands for.
    pub open spec fn value(self) -> nat {
        match self {
            Digit::_0 => 0,
            Digit::_1 => 1,
            Digit::_2 => 2,
            Digit::_3 => 3,
            Digit::_4 => 4,
            Digit::_5 => 5,
            Digit::_6 => 6,
            Digit::_7 => 7,
            Digit::_8 => 8,
            Digit::_9 => 9,
        }
    }

    /// The digit as a machine integer.
    pub fn to_u32(self) -> (number: u32)
        ensures
            number == self.value(),
    {
        match self {
            Digit::_0 => 0,
            Digit::_1 => 1,
            Digit::_2 => 2,
            Digit::_3 => 3,
            Digit::_4 => 4,
            Digit::_5 => 5,
            Digit::_6 => 6,
            Digit::_7 => 7,
            Digit::_8 => 8,
            Digit::_9 => 9,
        }
    }
}

/// The sign of a [`BigInt`].
#[derive(Clone, Copy, Debug, PartialEq, Eq, Structural)]
pub enum Sign {
    Minus,
    NoSign,
    Plus,
}

/// The integer with the given sign and magnitude. `NoSign` gives zero
/// whatever the magnitude is.
pub open spec fn signed_value(sign: Sign, magnitude: nat) -> int {
    match sign {
        Sign::Minus => -(magnitude as int),
        Sign::NoSign => 0,
        Sign::Plus => magnitude as int,
    }
}

/// The magnitude of an integer.
pub open spec fn magnitude_of(value: int) -> nat {
    if value < 0 {
        (-value) as nat
    } else {
        value as nat
    }
}

/// The quotient of two integers rounded towards zero.
pub open spec fn truncated_quotient(a: int, b: int) -> int {
    let q = (magnitude_of(a) / magnitude_of(b)) as int;
    if (a < 0) != (b < 0) {
        -q
    } else {
        q
    }
}

/// A natural number of any size.
#[derive(Debug)]
pub struct BigUint {
    bytes: Vec<u8>,
}

impl View for BigUint {
    type V = nat;

    /// The number itself.
    closed spec fn view(&self) -> nat {
        be_value(self.bytes@)
    }
}

impl BigUint {
    #[verifier::type_invariant]
    spec fn stored_canonically(self) -> bool {
        is_canonical(self.bytes@)
    }

    /// The bytes that the number is kept in.
    pub closed spec fn stored_bytes(self) -> Vec<u8> {
        self.bytes
    }

    /// Some number object that stands for `value`. Two objects for one
    /// value need not be equal as objects: compare their views.
    pub closed spec fn some_with_value(value: nat) -> Self {
        choose|number: BigUint| number@ == value
    }

    /// Wraps bytes that an outside call has handed back in canonical form.
    fn from_canonical(bytes: Vec<u8>, Ghost(value): Ghost<nat>) -> (number: Self)
        requires
            bytes@ == be_bytes(value),
        ensures
            number@ == value,
    {
        proof {
            lemma_be_bytes_canonical(value);
            lemma_be_bytes_value(value);
        }
        BigUint { bytes }
    }

    /// The number whose base 2^32 digits are `digits`, least significant
    /// digit first.
    pub fn new(digits: Vec<u32>) -> (number: Self)
        ensures
            number@ == le32_value(digits@),
    {
        let ghost value = le32_value(digits@);
        BigUint::from_canonical(bytes_from_digits(digits), Ghost(value))
    }

    /// The number that `bytes` stands for in big-endian order. Leading zero
    /// bytes are accepted and the empty string is zero.
    pub fn from_bytes_be(bytes: &[u8]) -> (number: Self)
        ensures
            number@ == be_value(bytes@),
    {
        BigUint::from_canonical(bytes_normalized(bytes), Ghost(be_value(bytes@)))
    }

    /// The big-endian bytes of the number in their shortest form: no leading
    /// zero byte, and one zero byte for zero.
    pub fn to_bytes_be(&self) -> (bytes: Vec<u8>)
        ensures
            bytes@ == be_bytes(self@),
    {
        proof {
            use_type_invariant(self);
            lemma_canonical_is_be_bytes(self.bytes@);
        }
        self.bytes.clone()
    }

    /// Whether the number is zero.
    pub fn is_zero(&self) -> (zero: bool)
        ensures
            zero == (self@ == 0),
    {
        proof {
            use_type_invariant(self);
            lemma_canonical_is_be_bytes(self.bytes@);
            lemma_be_bytes_canonical(self@);
        }
        self.bytes.len() == 1 && self.bytes[0] == 0
    }

    /// The sum of the two numbers.
    pub fn add(&self, rhs: &Self) -> (sum: Self)
        ensures
            sum@ == self@ + rhs@,
    {
        BigUint::from_canonical(bytes_add(&self.bytes, &rhs.bytes), Ghost(self@ + rhs@))
    }

    /// The difference of the two numbers, or `Underflow` where it would be
    /// negative.
    pub fn sub(&self, rhs: &Self) -> (difference: Result<Self, Error>)
        ensures
            match difference {
                Ok(d) => self@ >= rhs@ && d@ == self@ - rhs@,
                Err(e) => self@ < rhs@ && e == Error::Underflow,
            },
    {
        if bytes_less(&self.bytes, &rhs.bytes) {
            Err(Error::Underflow)
        } else {
            Ok(
                BigUint::from_canonical(
                    bytes_sub(&self.bytes, &rhs.bytes),
                    Ghost((self@ - rhs@) as nat),
                ),
            )
        }
    }

    /// The product of the two numbers.
    pub fn mul(&self, rhs: &Self) -> (product: Self)
        ensures
            product@ == self@ * rhs@,
    {
        BigUint::from_canonical(bytes_mul(&self.bytes, &rhs.bytes), Ghost(self@ * rhs@))
    }

    /// The quotient of the two numbers, rounded down.
    pub fn div(&self, rhs: &Self) -> (quotient: Self)
        requires
            rhs@ != 0,
        ensures
            quotient@ == self@ / rhs@,
    {
        BigUint::from_canonical(bytes_div(&self.bytes, &rhs.bytes), Ghost(self@ / rhs@))
    }

    /// The remainder of the division of the two numbers.
    pub fn rem(&self, rhs: &Self) -> (remainder: Self)
        requires
            rhs@ != 0,
        ensures
            remainder@ == self@ % rhs@,
    {
        BigUint::from_canonical(bytes_rem(&self.bytes, &rhs.bytes), Ghost(self@ % rhs@))
    }

    /// Whether this number is smaller than `rhs`.
    pub fn less_than(&self, rhs: &Self) -> (less: bool)
        ensures
            less == (self@ < rhs@),
    {
        bytes_less(&self.bytes, &rhs.bytes)
    }

    /// This number to the power `exponent`, reduced by `modulus`.
    pub fn modpow(&self, exponent: &Self, modulus: &Self) -> (power: Self)
        requires
            modulus@ != 0,
        ensures
            power@ == pow(self@ as int, exponent@) % (modulus@ as int),
            power@ < modulus@,
    {
        let ghost value = (pow(self@ as int, exponent@) % (modulus@ as int)) as nat;
        proof {
            vstd::arithmetic::div_mod::lemma_mod_bound(
                pow(self@ as int, exponent@),
                modulus@ as int,
            );
        }
        BigUint::from_canonical(
            bytes_modpow(&self.bytes, &exponent.bytes, &modulus.bytes),
            Ghost(value),
        )
    }

    /// The greatest common divisor of the two numbers.
    pub fn gcd(&self, other: &Self) -> (divisor: Self)
        ensures
            divisor@ == gcd(self@, other@),
    {
        BigUint::from_canonical(
            bytes_gcd(&self.bytes, &other.bytes),
            Ghost(gcd(self@, other@)),
        )
    }

    /// Whether the two numbers share no factor but 1.
    pub fn co_prime(&self, other: &Self) -> (coprime: bool)
        ensures
            coprime == (gcd(self@, other@) == 1),
    {
        let divisor = self.gcd(other);
        let one = BigUint::from_u32(1);
        divisor.eq(&one)
    }

    /// The number `value`.
    pub fn from_u32(value: u32) -> (number: Self)
        ensures
            number@ == value,
    {
        let mut digits: Vec<u32> = Vec::new();
        digits.push(value);
        proof {
            assert(digits@.drop_first() =~= Seq::<u32>::empty());
            assert(le32_value(digits@.drop_first()) == 0);
        }
        BigUint::new(digits)
    }

    /// The number `value`, or `ConversionError` where it is negative.
    pub fn from_i32(value: i32) -> (number: Result<Self, Error>)
        ensures
            match number {
                Ok(n) => value >= 0 && n@ == value,
                Err(e) => value < 0 && e == Error::ConversionError,
            },
    {
        if value < 0 {
            Err(Error::ConversionError)
        } else {
            Ok(BigUint::from_u32(value as u32))
        }
    }

    /// The number `digit`.
    pub fn from_digit(digit: Digit) -> (number: Self)
        ensures
            number@ == digit.value(),
    {
        BigUint::from_u32(digit.to_u32())
    }

    /// The fewest bits that express the number, or nothing where they are
    /// more than a `u32` holds.
    fn exact_bits(&self) -> (bits: Option<u32>)
        ensures
            match bits {
                Some(b) => b == bit_length(self@),
                None => bit_length(self@) > u32::MAX,
            },
    {
        proof {
            use_type_invariant(self);
        }
        let top: u8 = self.bytes[0];
        let rest: usize = self.bytes.len() - 1;
        if top == 0 {
            proof {
                assert(self.bytes@.drop_last() =~= Seq::<u8>::empty());
                assert(be_value(self.bytes@.drop_last()) == 0);
            }
            return Some(0);
        }
        proof {
            lemma_bit_length_of_bytes(self.bytes@);
        }
        let top_bits: u64 = bits_of_byte(top) as u64;
        if rest >= 0x2000_0000 {
            return None;
        }
        let total: u64 = 8 * (rest as u64) + top_bits;
        if total > 0xffff_ffff {
            None
        } else {
            Some(total as u32)
        }
    }

    /// The fewest bits that express the number, or `u32::MAX` where they
    /// are more than that.
    pub fn bit_size(&self) -> (bits: u32)
        ensures
            bits == if bit_length(self@) > u32::MAX {
                u32::MAX as nat
            } else {
                bit_length(self@)
            },
    {
        match self.exact_bits() {
            Some(bits) => bits,
            None => u32::MAX,
        }
    }

    /// Whether the number has exactly `bits` bits: `bits` are the fewest
    /// that express it.
    pub fn has_bits(&self, bits: usize) -> (exact: bool)
        ensures
            exact == (bit_length(self@) == bits),
    {
        proof {
            use_type_invariant(self);
        }
        let top: u8 = self.bytes[0];
        let rest: usize = self.bytes.len() - 1;
        if top == 0 {
            proof {
                assert(self.bytes@.drop_last() =~= Seq::<u8>::empty());
                assert(be_value(self.bytes@.drop_last()) == 0);
            }
            return bits == 0;
        }
        proof {
            lemma_bit_length_of_bytes(self.bytes@);
        }
        8 * (rest as u128) + (bits_of_byte(top) as u128) == bits as u128
    }

    /// Whether `bits` bits are enough to express the number.
    pub fn fits_in_bits(&self, bits: u32) -> (fits: bool)
        ensures
            fits == (bit_length(self@) <= bits),
    {
        match self.exact_bits() {
            Some(own) => own <= bits,
            None => false,
        }
    }

    /// A random number of at most `bits` bits.
    pub fn random(bits: usize) -> (number: Self)
        ensures
            bit_length(number@) <= bits,
    {
        let bytes = random_bytes(bits);
        BigUint::from_canonical(bytes, Ghost(be_value(bytes@)))
    }

    /// A probabilistic primality test. It accepts 3, and whatever else it
    /// accepts is odd and above 3: zero, 1 and the even numbers are turned
    /// down, 2 among them, which the test behind it does not take for a
    /// prime. On any other number the verdict comes from random trials: a
    /// composite number may pass and a prime may fail, both with a small
    /// chance, so nothing more is promised.
    pub fn prime(&self) -> (answer: bool)
        ensures
            self@ == 3 ==> answer,
            answer ==> self@ >= 3,
            answer ==> self@ % 2 == 1,
    {
        if self.eq(&BigUint::from_u32(3)) {
            true
        } else if self.eq(&BigUint::from_u32(1)) {
            false
        } else {
            bytes_probably_prime(&self.bytes)
        }
    }

    /// The remainder of the division of the number by `divisor`.
    pub fn remainder_by(&self, divisor: u32) -> (remainder: u32)
        requires
            divisor != 0,
        ensures
            remainder == self@ % (divisor as nat),
    {
        let wide: u64 = divisor as u64;
        let mut rest: u64 = 0;
        let mut i: usize = 0;
        proof {
            assert(self.bytes@.subrange(0, 0) =~= Seq::<u8>::empty());
            lemma_small_mod(0, divisor as nat);
        }
        while i < self.bytes.len()
            invariant
                i <= self.bytes.len(),
                wide == divisor,
                divisor != 0,
                rest == be_value(self.bytes@.subrange(0, i as int)) % (divisor as nat),
            decreases self.bytes.len() - i,
        {
            let byte: u64 = self.bytes[i] as u64;
            proof {
                let front = self.bytes@.subrange(0, i as int);
                let longer = self.bytes@.subrange(0, i + 1);
                assert(longer.drop_last() =~= front);
                let d = divisor as int;
                let v = be_value(front) as int;
                lemma_mod_bound(v, d);
                lemma_mul_mod_noop_left(v, 256, d);
                lemma_add_mod_noop(v * 256, byte as int, d);
                lemma_add_mod_noop((v % d) * 256, byte as int, d);
            }
            rest = (rest * 256 + byte) % wide;
            i = i + 1;
        }
        proof {
            assert(self.bytes@.subrange(0, i as int) =~= self.bytes@);
        }
        rest as u32
    }
}

impl Clone for BigUint {
    fn clone(&self) -> (copy: Self)
        ensures
            copy@ == self@,
    {
        proof {
            use_type_invariant(self);
        }
        BigUint { bytes: self.bytes.clone() }
    }
}

impl Default for BigUint {
    /// Zero.
    fn default() -> (zero: Self)
        ensures
            zero@ == 0,
    {
        BigUint::from_u32(0)
    }
}

impl PartialEq for BigUint {
    fn eq(&self, other: &Self) -> (equal: bool) {
        proof {
            use_type_invariant(self);
            use_type_invariant(other);
            if self@ == other@ {
                lemma_canonical_injective(self.bytes@, other.bytes@);
            }
        }
        let equal = self.bytes == other.bytes;
        proof {
            assert(equal == (self.bytes@ =~= other.bytes@));
        }
        equal
    }
}

impl PartialEqSpecImpl for BigUint {
    open spec fn obeys_eq_spec() -> bool {
        true
    }

    open spec fn eq_spec(&self, other: &Self) -> bool {
        self@ == other@
    }
}

impl From<Vec<u8>> for BigUint {
    /// The number that the bytes stand for in big-endian order.
    fn from(value: Vec<u8>) -> (number: Self)
        ensures
            number@ == be_value(value@),
    {
        BigUint::from_bytes_be(value.as_slice())
    }
}

impl FromSpecImpl<Vec<u8>> for BigUint {
    open spec fn obeys_from_spec() -> bool {
        false
    }

    open spec fn from_spec(value: Vec<u8>) -> Self {
        BigUint::some_with_value(be_value(value@))
    }
}

impl From<Digit> for BigUint {
    /// The number that the digit stands for.
    fn from(value: Digit) -> (number: Self)
        ensures
            number@ == value.value(),
    {
        BigUint::from_digit(value)
    }
}

impl FromSpecImpl<Digit> for BigUint {
    open spec fn obeys_from_spec() -> bool {
        false
    }

    open spec fn from_spec(value: Digit) -> Self {
        BigUint::some_with_value(value.value())
    }
}

impl From<BigUint> for Vec<u8> {
    /// The canonical big-endian bytes of the number.
    fn from(value: BigUint) -> (bytes: Self)
        ensures
            bytes@ == be_bytes(value@),
    {
        proof {
            use_type_invariant(&value);
            lemma_canonical_is_be_bytes(value.bytes@);
        }
        value.bytes
    }
}

impl FromSpecImpl<BigUint> for Vec<u8> {
    open spec fn obeys_from_spec() -> bool {
        true
    }

    open spec fn from_spec(value: BigUint) -> Self {
        value.stored_bytes()
    }
}

/// A random prime of exactly `n` bits, but for the small chance that the
/// probabilistic test errs.
///
/// Random numbers of at most `n` bits are drawn. One that is
/// [`worth_a_test`], which asks for the exact length and the quick screen,
/// is handed to the primality test, and the first that [`keeps_prime`] keeps
/// is the result. After [`DRAWS_PER_BIT`] draws for each bit of the size the
/// search is given up with `AttemptsExhausted`; below two bits, where there
/// is no prime, it is given up at once.
pub fn new_prime(n: usize) -> (prime: Result<BigUint, Error>)
    ensures
        match prime {
            Ok(p) => {
                &&& bit_length(p@) == n
                &&& p@ % 2 == 1
                &&& may_be_prime(p@, SIEVE_LIMIT as nat)
            },
            Err(e) => e == Error::AttemptsExhausted,
        },
        n < 2 ==> prime is Err,
{
    if n < 2 {
        return Err(Error::AttemptsExhausted);
    }
    let size: u64 = n as u64;
    let mut draws: u64 = if size <= u64::MAX / DRAWS_PER_BIT {
        DRAWS_PER_BIT * size
    } else {
        u64::MAX
    };
    while draws > 0
        invariant
            n >= 2,
        decreases draws,
    {
        draws = draws - 1;
        let candidate = BigUint::random(n);
        if worth_a_test(&candidate, n) {
            let passed_test = candidate.prime();
            if keeps_prime(&candidate, n, passed_test) {
                return Ok(candidate);
            }
        }
    }
    Err(Error::AttemptsExhausted)
}

/// An integer of any size: a sign and a magnitude.
#[derive(Debug)]
pub struct BigInt {
    negative: bool,
    magnitude: BigUint,
}

impl View for BigInt {
    type V = int;

    /// The integer itself.
    closed spec fn view(&self) -> int {
        if self.negative {
            -(self.magnitude@ as int)
        } else {
            self.magnitude@ as int
        }
    }
}

impl BigInt {
    #[verifier::type_invariant]
    spec fn zero_is_unsigned(self) -> bool {
        self.magnitude@ == 0 ==> !self.negative
    }

    /// Some integer object that stands for `value`.
    pub closed spec fn some_with_value(value: int) -> Self {
        choose|number: BigInt| number@ == value
    }

    /// The integer with the given magnitude, negative where `negative` is set
    /// and the magnitude is not zero.
    fn from_parts(negative: bool, magnitude: BigUint) -> (number: Self)
        ensures
            number@ == if negative {
                -(magnitude@ as int)
            } else {
                magnitude@ as int
            },
    {
        let negative = negative && !magnitude.is_zero();
        BigInt { negative, magnitude }
    }

    /// The integer with the given sign whose magnitude has the base 2^32
    /// digits `digits`, least significant digit first.
    pub fn new(sign: Sign, digits: Vec<u32>) -> (number: Self)
        ensures
            number@ == signed_value(sign, le32_value(digits@)),
    {
        match sign {
            Sign::Minus => BigInt::from_parts(true, BigUint::new(digits)),
            Sign::NoSign => BigInt::from_parts(false, BigUint::from_u32(0)),
            Sign::Plus => BigInt::from_parts(false, BigUint::new(digits)),
        }
    }

    /// The integer `digit`.
    pub fn from_digit(digit: Digit) -> (number: Self)
        ensures
            number@ == digit.value(),
    {
        BigInt::from_parts(false, BigUint::from_digit(digit))
    }

    /// The natural number as an integer.
    pub fn from_biguint(magnitude: BigUint) -> (number: Self)
        ensures
            number@ == magnitude@,
    {
        BigInt::from_parts(false, magnitude)
    }

    /// The integer as a natural number, or `ConversionError` where it is
    /// negative.
    pub fn to_biguint(&self) -> (number: Result<BigUint, Error>)
        ensures
            match number {
                Ok(n) => self@ >= 0 && n@ == self@,
                Err(e) => self@ < 0 && e == Error::ConversionError,
            },
    {
        proof {
            use_type_invariant(self);
        }
        if self.negative {
            Err(Error::ConversionError)
        } else {
            Ok(self.magnitude.clone())
        }
    }

    /// The magnitude of the integer.
    pub fn magnitude(&self) -> (magnitude: BigUint)
        ensures
            magnitude@ == magnitude_of(self@),
    {
        self.magnitude.clone()
    }

    /// The sign of the integer; zero has `NoSign`.
    pub fn sign(&self) -> (sign: Sign)
        ensures
            sign == if self@ < 0 {
                Sign::Minus
            } else if self@ == 0 {
                Sign::NoSign
            } else {
                Sign::Plus
            },
    {
        proof {
            use_type_invariant(self);
        }
        if self.negative {
            Sign::Minus
        } else if self.magnitude.is_zero() {
            Sign::NoSign
        } else {
            Sign::Plus
        }
    }

    /// Whether the integer is zero.
    pub fn is_zero(&self) -> (zero: bool)
        ensures
            zero == (self@ == 0),
    {
        self.magnitude.is_zero()
    }

    /// Whether the integer is below zero.
    pub fn is_negative(&self) -> (negative: bool)
        ensures
            negative == (self@ < 0),
    {
        proof {
            use_type_invariant(self);
        }
        self.negative
    }

    /// The integer with the opposite sign.
    pub fn neg(&self) -> (negated: Self)
        ensures
            negated@ == -self@,
    {
        BigInt::from_parts(!self.negative, self.magnitude.clone())
    }

    /// The sum of the two integers.
    pub fn add(&self, rhs: &Self) -> (sum: Self)
        ensures
            sum@ == self@ + rhs@,
    {
        if self.negative == rhs.negative {
            BigInt::from_parts(self.negative, self.magnitude.add(&rhs.magnitude))
        } else {
            match self.magnitude.sub(&rhs.magnitude) {
                Ok(difference) => BigInt::from_parts(self.negative, difference),
                Err(_) => {
                    match rhs.magnitude.sub(&self.magnitude) {
                        Ok(difference) => BigInt::from_parts(rhs.negative, difference),
                        Err(_) => BigInt::from_parts(false, BigUint::from_u32(0)),
                    }
                },
            }
        }
    }

    /// The difference of the two integers.
    pub fn sub(&self, rhs: &Self) -> (difference: Self)
        ensures
            difference@ == self@ - rhs@,
    {
        let negated = rhs.neg();
        self.add(&negated)
    }

    /// The product of the two integers.
    pub fn mul(&self, rhs: &Self) -> (product: Self)
        ensures
            product@ == self@ * rhs@,
    {
        let magnitude = self.magnitude.mul(&rhs.magnitude);
        proof {
            let a = self.magnitude@ as int;
            let b = rhs.magnitude@ as int;
            assert((-a) * b == -(a * b) && a * (-b) == -(a * b) && (-a) * (-b) == a * b)
                by (nonlinear_arith);
        }
        BigInt::from_parts(self.negative != rhs.negative, magnitude)
    }

    /// The quotient of the two integers, rounded towards zero.
    pub fn div(&self, rhs: &Self) -> (quotient: Self)
        requires
            rhs@ != 0,
        ensures
            quotient@ == truncated_quotient(self@, rhs@),
    {
        let magnitude = self.magnitude.div(&rhs.magnitude);
        proof {
            use_type_invariant(self);
            use_type_invariant(rhs);
        }
        BigInt::from_parts(self.negative != rhs.negative, magnitude)
    }

    /// The greatest common divisor of the two integers, which is never
    /// negative.
    pub fn gcd(&self, other: &Self) -> (divisor: Self)
        ensures
            divisor@ == gcd(magnitude_of(self@), magnitude_of(other@)),
    {
        BigInt::from_parts(false, self.magnitude.gcd(&other.magnitude))
    }

    /// Whether this integer is smaller than `rhs`.
    pub fn less_than(&self, rhs: &Self) -> (less: bool)
        ensures
            less == (self@ < rhs@),
    {
        proof {
            use_type_invariant(self);
            use_type_invariant(rhs);
        }
        if self.negative {
            if rhs.negative {
                rhs.magnitude.less_than(&self.magnitude)
            } else {
                true
            }
        } else {
            if rhs.negative {
                false
            } else {
                self.magnitude.less_than(&rhs.magnitude)
            }
        }
    }
}

impl Clone for BigInt {
    fn clone(&self) -> (copy: Self)
        ensures
            copy@ == self@,
    {
        proof {
            use_type_invariant(self);
        }
        BigInt { negative: self.negative, magnitude: self.magnitude.clone() }
    }
}

impl PartialEq for BigInt {
    fn eq(&self, other: &Self) -> (equal: bool) {
        proof {
            use_type_invariant(self);
            use_type_invariant(other);
        }
        self.negative == other.negative && self.magnitude.eq(&other.magnitude)
    }
}

impl PartialEqSpecImpl for BigInt {
    open spec fn obeys_eq_spec() -> bool {
        true
    }

    open spec fn eq_spec(&self, other: &Self) -> bool {
        self@ == other@
    }
}

impl From<BigUint> for BigInt {
    /// The natural number as an integer.
    fn from(item: BigUint) -> (number: Self)
        ensures
            number@ == item@,
    {
        BigInt::from_biguint(item)
    }
}

impl FromSpecImpl<BigUint> for BigInt {
    open spec fn obeys_from_spec() -> bool {
        false
    }

    open spec fn from_spec(item: BigUint) -> Self {
        BigInt::some_with_value(item@ as int)
    }
}

impl From<Digit> for BigInt {
    /// The integer that the digit stands for.
    fn from(value: Digit) -> (number: Self)
        ensures
            number@ == value.value(),
    {
        BigInt::from_digit(value)
    }
}

impl FromSpecImpl<Digit> for BigInt {
    open spec fn obeys_from_spec() -> bool {
        false
    }

    open spec fn from_spec(value: Digit) -> Self {
        BigInt::some_with_value(value.value() as int)
    }
}

} // verus!
