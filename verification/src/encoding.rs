//! The byte strings that stand for natural numbers, and what they mean.
//!
//! A number travels as its big-endian bytes in the shortest form: no leading
//! zero byte, and a single zero byte for zero.

use vstd::arithmetic::power2::{
    lemma2_to64, lemma_pow2_adds, lemma_pow2_strictly_increases, lemma_pow2_unfold, pow2,
};
use vstd::prelude::*;

verus! {

/// The number that a big-endian byte string stands for. Leading zero bytes
/// do not count, and the empty string stands for zero.
pub open spec fn be_value(bytes: Seq<u8>) -> nat
    decreases bytes.len(),
{
    if bytes.len() == 0 {
        0
    } else {
        be_value(bytes.drop_last()) * 256 + bytes.last() as nat
    }
}

/// The shortest big-endian byte string that stands for `n`.
pub open spec fn be_bytes(n: nat) -> Seq<u8>
    decreases n,
{
    if n < 256 {
        seq![n as u8]
    } else {
        be_bytes(n / 256).push((n % 256) as u8)
    }
}

/// Whether a byte string is the shortest one for its number.
pub open spec fn is_canonical(bytes: Seq<u8>) -> bool {
    bytes.len() >= 1 && (bytes.len() == 1 || bytes[0] != 0)
}

/// The number that base 2^32 digits stand for, least significant digit first.
pub open spec fn le32_value(digits: Seq<u32>) -> nat
    decreases digits.len(),
{
    if digits.len() == 0 {
        0
    } else {
        digits[0] as nat + 4294967296 * le32_value(digits.drop_first())
    }
}

/// The fewest bits that express `n`; zero needs none.
pub open spec fn bit_length(n: nat) -> nat
    decreases n,
{
    if n == 0 {
        0
    } else {
        1 + bit_length(n / 2)
    }
}

/// Decoding what `be_bytes` wrote gives the number back.
pub proof fn lemma_be_bytes_value(n: nat)
    ensures
        be_value(be_bytes(n)) == n,
    decreases n,
{
    if n < 256 {
        let s = seq![n as u8];
        assert(s.drop_last() =~= Seq::<u8>::empty());
        assert(be_value(s.drop_last()) == 0);
    } else {
        lemma_be_bytes_value(n / 256);
        let s = be_bytes(n / 256).push((n % 256) as u8);
        assert(s.drop_last() =~= be_bytes(n / 256));
    }
}

/// A string whose first byte is not zero stands for a positive number.
pub proof fn lemma_leading_byte_positive(bytes: Seq<u8>)
    requires
        bytes.len() >= 1,
        bytes[0] != 0,
    ensures
        be_value(bytes) >= 1,
    decreases bytes.len(),
{
    if bytes.len() == 1 {
        assert(bytes.drop_last() =~= Seq::<u8>::empty());
        assert(be_value(bytes.drop_last()) == 0);
    } else {
        lemma_leading_byte_positive(bytes.drop_last());
    }
}

/// `be_bytes` writes the shortest form.
pub proof fn lemma_be_bytes_canonical(n: nat)
    ensures
        is_canonical(be_bytes(n)),
        n >= 1 ==> be_bytes(n)[0] != 0,
    decreases n,
{
    if n >= 256 {
        lemma_be_bytes_canonical(n / 256);
    }
}

/// The shortest form is unique: a canonical string is what `be_bytes` writes
/// for its number.
pub proof fn lemma_canonical_is_be_bytes(bytes: Seq<u8>)
    requires
        is_canonical(bytes),
    ensures
        be_bytes(be_value(bytes)) == bytes,
    decreases bytes.len(),
{
    if bytes.len() == 1 {
        assert(bytes.drop_last() =~= Seq::<u8>::empty());
        assert(be_value(bytes.drop_last()) == 0);
        assert(be_bytes(be_value(bytes)) =~= bytes);
    } else {
        let front = bytes.drop_last();
        lemma_leading_byte_positive(front);
        lemma_canonical_is_be_bytes(front);
        assert(be_bytes(be_value(bytes)) =~= bytes);
    }
}

/// Two canonical strings for one number are the same string.
pub proof fn lemma_canonical_injective(a: Seq<u8>, b: Seq<u8>)
    requires
        is_canonical(a),
        is_canonical(b),
        be_value(a) == be_value(b),
    ensures
        a == b,
{
    lemma_canonical_is_be_bytes(a);
    lemma_canonical_is_be_bytes(b);
}

/// Shifting a positive number left by `k` bits and filling the bits that
/// come free makes it `k` bits longer.
pub proof fn lemma_bit_length_shift(n: nat, k: nat, low: nat)
    requires
        n >= 1,
        low < pow2(k),
    ensures
        bit_length(n * pow2(k) + low) == bit_length(n) + k,
    decreases k,
{
    if k == 0 {
        lemma2_to64();
        assert(n * pow2(0) + low == n) by (nonlinear_arith)
            requires
                pow2(0) == 1,
                low == 0,
        ;
    } else {
        lemma_pow2_unfold(k);
        let half = pow2((k - 1) as nat);
        let shifted = n * pow2(k) + low;
        assert(n * pow2(k) == 2 * (n * half)) by (nonlinear_arith)
            requires
                pow2(k) == 2 * half,
        ;
        assert(shifted / 2 == n * half + low / 2);
        assert(n * half >= 1) by (nonlinear_arith)
            requires
                n >= 1,
                2 * half > low,
        ;
        assert(shifted >= 1);
        assert(bit_length(shifted) == 1 + bit_length(shifted / 2));
        lemma_bit_length_shift(n, (k - 1) as nat, low / 2);
    }
}

/// The bit length of a number follows from the length of its bytes and from
/// its leading byte.
pub proof fn lemma_bit_length_of_bytes(bytes: Seq<u8>)
    requires
        bytes.len() >= 1,
        bytes[0] != 0,
    ensures
        bit_length(be_value(bytes)) == 8 * (bytes.len() - 1) + bit_length(bytes[0] as nat),
    decreases bytes.len(),
{
    if bytes.len() == 1 {
        assert(bytes.drop_last() =~= Seq::<u8>::empty());
        assert(be_value(bytes.drop_last()) == 0);
    } else {
        let front = bytes.drop_last();
        lemma_bit_length_of_bytes(front);
        lemma_leading_byte_positive(front);
        lemma2_to64();
        lemma_bit_length_shift(be_value(front), 8, bytes.last() as nat);
    }
}

/// The bit length of a byte, by its range.
pub proof fn lemma_bit_length_of_byte(b: u8)
    ensures
        bit_length(b as nat) == if b >= 128 {
            8nat
        } else if b >= 64 {
            7
        } else if b >= 32 {
            6
        } else if b >= 16 {
            5
        } else if b >= 8 {
            4
        } else if b >= 4 {
            3
        } else if b >= 2 {
            2
        } else if b >= 1 {
            1
        } else {
            0
        },
{
    reveal_with_fuel(bit_length, 10);
}

/// A number is below two to the power of its bit length, and not below
/// half of that.
pub proof fn lemma_bit_length_bounds(n: nat)
    ensures
        n < pow2(bit_length(n)),
        n >= 1 ==> n >= pow2((bit_length(n) - 1) as nat),
    decreases n,
{
    lemma2_to64();
    if n > 0 {
        lemma_bit_length_bounds(n / 2);
        lemma_pow2_unfold(bit_length(n));
        if n >= 2 {
            lemma_pow2_unfold((bit_length(n) - 1) as nat);
        }
    }
}

/// A number below two to the power `k` has at most `k` bits.
pub proof fn lemma_bit_length_at_most(n: nat, k: nat)
    requires
        n < pow2(k),
    ensures
        bit_length(n) <= k,
    decreases k,
{
    lemma2_to64();
    if n > 0 {
        if k == 0 {
        } else {
            lemma_pow2_unfold(k);
            lemma_bit_length_at_most(n / 2, (k - 1) as nat);
        }
    }
}

/// A product has at most as many bits as its two factors together.
pub proof fn lemma_bit_length_product(a: nat, b: nat)
    ensures
        bit_length(a * b) <= bit_length(a) + bit_length(b),
{
    lemma_bit_length_bounds(a);
    lemma_bit_length_bounds(b);
    let x = pow2(bit_length(a));
    let y = pow2(bit_length(b));
    lemma_pow2_adds(bit_length(a), bit_length(b));
    assert(a * b < x * y) by (nonlinear_arith)
        requires
            a < x,
            b < y,
    ;
    lemma_bit_length_at_most(a * b, bit_length(a) + bit_length(b));
}

/// The product of two positive numbers is at most one bit shorter than its
/// two factors together.
pub proof fn lemma_bit_length_product_at_least(a: nat, b: nat)
    requires
        a >= 1,
        b >= 1,
    ensures
        bit_length(a * b) + 1 >= bit_length(a) + bit_length(b),
{
    lemma_bit_length_bounds(a);
    lemma_bit_length_bounds(b);
    lemma_bit_length_bounds(a * b);
    let x = (bit_length(a) - 1) as nat;
    let y = (bit_length(b) - 1) as nat;
    lemma_pow2_adds(x, y);
    assert(a * b >= pow2(x) * pow2(y)) by (nonlinear_arith)
        requires
            a >= pow2(x),
            b >= pow2(y),
    ;
    if bit_length(a * b) < x + y {
        lemma_pow2_strictly_increases(bit_length(a * b), x + y);
    }
}

/// A string of `k` bytes stands for a number below two to the power
/// `8 * k`.
pub proof fn lemma_value_below_pow2(bytes: Seq<u8>)
    ensures
        be_value(bytes) < pow2(8 * bytes.len()),
    decreases bytes.len(),
{
    lemma2_to64();
    if bytes.len() > 0 {
        let front = bytes.drop_last();
        lemma_value_below_pow2(front);
        lemma_pow2_adds(8 * front.len(), 8);
        assert(be_value(front) * 256 + bytes.last() < pow2(8 * front.len()) * 256)
            by (nonlinear_arith)
            requires
                be_value(front) < pow2(8 * front.len()),
                bytes.last() < 256,
        ;
    }
}

/// A number of more than `k` bits is at least two to the power `k`.
pub proof fn lemma_long_number_is_large(n: nat, k: nat)
    requires
        bit_length(n) > k,
    ensures
        n >= pow2(k),
{
    lemma_bit_length_bounds(n);
    let top = (bit_length(n) - 1) as nat;
    if k < top {
        lemma_pow2_strictly_increases(k, top);
    }
}

/// Two byte strings of one length that stand for one number are the same
/// string.
pub proof fn lemma_same_length_injective(a: Seq<u8>, b: Seq<u8>)
    requires
        a.len() == b.len(),
        be_value(a) == be_value(b),
    ensures
        a == b,
    decreases a.len(),
{
    if a.len() == 0 {
        assert(a =~= b);
    } else {
        lemma_same_length_injective(a.drop_last(), b.drop_last());
        assert(a =~= a.drop_last().push(a.last()));
        assert(b =~= b.drop_last().push(b.last()));
    }
}

} // verus!
