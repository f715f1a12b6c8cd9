//! Textbook RSA over arbitrary-precision integers: a big-number facade, the
//! modular inverse, key generation with a quick screen for its candidates,
//! encryption, signatures and a sign-then-encrypt envelope.
//!
//! No padding scheme is applied anywhere: the scheme is deterministic and not
//! semantically secure.

pub mod big_num;
pub mod big_num_order;
pub mod encoding;
pub mod error;
pub mod fermat;
pub mod modular;
pub mod number_theory;
pub mod p2p;
pub mod rsa;
pub mod screening;
