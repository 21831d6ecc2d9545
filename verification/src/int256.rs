//! 256-bit signed integers, computed by the `ethnum` crate.

use ethnum::I256;
use vstd::prelude::*;

use crate::bytes::be_bytes_signed;

verus! {

/// A 256-bit signed integer as its two words.
#[derive(Debug, Clone, Copy, PartialEq, Eq)]
pub struct Int256 {
    pub high: i128,
    pub low: u128,
}

impl View for Int256 {
    type V = int;

    open spec fn view(&self) -> int {
        self.high * 0x1_0000_0000_0000_0000_0000_0000_0000_0000 + self.low
    }
}

/// The number fits in 256 bits with a sign.
pub open spec fn fits_int256(v: int) -> bool {
    -0x8000_0000_0000_0000_0000_0000_0000_0000_0000_0000_0000_0000_0000_0000_0000_0000 <= v
        < 0x8000_0000_0000_0000_0000_0000_0000_0000_0000_0000_0000_0000_0000_0000_0000_0000
}

/// The words of a number that fits.
pub open spec fn int256(v: int) -> Int256 {
    Int256 {
        high: (v / 0x1_0000_0000_0000_0000_0000_0000_0000_0000int) as i128,
        low: (v % 0x1_0000_0000_0000_0000_0000_0000_0000_0000int) as u128,
    }
}

/// The words are determined by the number.
pub proof fn lemma_int256(a: Int256)
    ensures
        a == int256(a@),
{
}

/// `ethnum::I256::from(i128)`: the 256-bit integer of the same value.
#[verifier::external_body]
pub(crate) fn int256_from_i128(v: i128) -> (r: Int256)
    ensures
        r@ == v,
{
    let (high, low) = I256::from(v).into_words();
    Int256 { high, low: low as u128 }
}

/// `ethnum::I256::from(u128)`: the 256-bit integer of the same value.
#[verifier::external_body]
pub(crate) fn int256_from_u128(v: u128) -> (r: Int256)
    ensures
        r@ == v,
{
    let (high, low) = I256::from(v).into_words();
    Int256 { high, low: low as u128 }
}

/// `ethnum::I256` multiplication: the exact product, where it fits.
#[verifier::external_body]
pub(crate) fn int256_mul(a: Int256, b: Int256) -> (r: Int256)
    requires
        fits_int256(a@ * b@),
    ensures
        r@ == a@ * b@,
{
    let product = I256::from_words(a.high, a.low as i128) * I256::from_words(b.high, b.low as i128);
    let (high, low) = product.into_words();
    Int256 { high, low: low as u128 }
}

/// `ethnum::I256` addition: the exact sum, where it fits.
#[verifier::external_body]
pub(crate) fn int256_sum(a: Int256, b: Int256) -> (r: Int256)
    requires
        fits_int256(a@ + b@),
    ensures
        r@ == a@ + b@,
{
    let sum = I256::from_words(a.high, a.low as i128) + I256::from_words(b.high, b.low as i128);
    let (high, low) = sum.into_words();
    Int256 { high, low: low as u128 }
}

/// `ethnum::I256::to_be_bytes`: the 32 bytes in two's complement, most significant first.
#[verifier::external_body]
pub(crate) fn int256_to_be_bytes(v: Int256) -> (r: Vec<u8>)
    ensures
        r@ == be_bytes_signed(v@, 32),
{
    I256::from_words(v.high, v.low as i128).to_be_bytes().to_vec()
}

} // verus!
