//! The failures that the library reports.

use vstd::prelude::*;

verus! {

/// Every way in which an operation of this library can fail.
#[derive(Clone, Copy, Debug, PartialEq, Eq, Structural)]
pub enum Error {
    /// An unsigned subtraction would have gone below zero.
    Underflow,
    /// The number has no inverse for the modulus: the two share a factor.
    NotInvertible,
    /// No private exponent can be derived from the secret key.
    BadKey,
    /// A value lies outside the range that the target can hold.
    ConversionError,
    /// The signature of an envelope does not belong to its message.
    VerificationRejected,
    /// The bytes do not form an envelope.
    SerializationError,
    /// Key generation used up its attempts without finding a key pair.
    AttemptsExhausted,
}

impl Error {
    /// A short description of the failure.
    pub fn message(&self) -> (text: String)
        ensures
            text@ == self.spec_message()@,
    {
        match self {
            Error::Underflow => "subtraction below zero".to_string(),
            Error::NotInvertible => "x is not invertible".to_string(),
            Error::BadKey => "bad key".to_string(),
            Error::ConversionError => "value out of range".to_string(),
            Error::VerificationRejected => "verification rejected".to_string(),
            Error::SerializationError => "malformed envelope".to_string(),
            Error::AttemptsExhausted => "no key pair found within the attempt limit".to_string(),
        }
    }

    /// The text of [`Error::message`].
    pub open spec fn spec_message(&self) -> &'static str {
        match self {
            Error::Underflow => "subtraction below zero",
            Error::NotInvertible => "x is not invertible",
            Error::BadKey => "bad key",
            Error::ConversionError => "value out of range",
            Error::VerificationRejected => "verification rejected",
            Error::SerializationError => "malformed envelope",
            Error::AttemptsExhausted => "no key pair found within the attempt limit",
        }
    }
}

} // verus!
