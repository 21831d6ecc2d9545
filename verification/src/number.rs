//! Numbers and their compact encoding.

use vstd::prelude::*;

use crate::bytes::{append, be_bytes, be_bytes_signed, byte_range, twos_complement, write_be};
use crate::int256::{int256_to_be_bytes, Int256};

verus! {

pub const NUMBER_ZERO: u8 = 0x00;

pub const NUMBER_NAN: u8 = 0x10;

pub const NUMBER_INF: u8 = 0x20;

pub const NUMBER_NEG_INF: u8 = 0x30;

pub const NUMBER_INT: u8 = 0x40;

pub const NUMBER_UINT: u8 = 0x50;

pub const NUMBER_FLOAT: u8 = 0x60;

pub const NUMBER_DECIMAL: u8 = 0x70;

/// The bits of a floating-point value that is not a number.
pub const NAN_BITS: u64 = 0x7ff8_0000_0000_0000;

/// The bits of positive infinity.
pub const INFINITY_BITS: u64 = 0x7ff0_0000_0000_0000;

/// The bits of negative infinity.
pub const NEG_INFINITY_BITS: u64 = 0xfff0_0000_0000_0000;

/// `value` divided by ten to the power `scale`, on 64 bits.
#[derive(Debug, Clone, Copy, PartialEq, Eq)]
pub struct Decimal64 {
    pub scale: u8,
    pub value: i64,
}

/// `value` divided by ten to the power `scale`, on 128 bits.
#[derive(Debug, Clone, Copy, PartialEq, Eq)]
pub struct Decimal128 {
    pub scale: u8,
    pub value: i128,
}

/// `value` divided by ten to the power `scale`, on 256 bits.
#[derive(Debug, Clone, Copy, PartialEq, Eq)]
pub struct Decimal256 {
    pub scale: u8,
    pub value: Int256,
}

/// A JSON number. A double-precision floating-point number is held by its bits.
#[derive(Debug, Clone, Copy, PartialEq, Eq)]
pub enum Number {
    Int64(i64),
    UInt64(u64),
    Float64(u64),
    Decimal64(Decimal64),
    Decimal128(Decimal128),
    Decimal256(Decimal256),
}

/// The exponent bits of a floating-point value are all set: it is infinite or not a number.
pub open spec fn float_is_special(bits: u64) -> bool {
    bits / 0x10_0000_0000_0000 % 0x800 == 0x7ff
}

/// The number of bytes on which a signed number is stored: one, two, four or eight.
pub open spec fn signed_width(v: i64) -> nat {
    if -0x80 <= v < 0x80 {
        1
    } else if -0x8000 <= v < 0x8000 {
        2
    } else if -0x8000_0000 <= v < 0x8000_0000 {
        4
    } else {
        8
    }
}

/// The number of bytes on which an unsigned number is stored: one, two, four or eight.
pub open spec fn unsigned_width(v: u64) -> nat {
    if v < 0x100 {
        1
    } else if v < 0x1_0000 {
        2
    } else if v < 0x1_0000_0000 {
        4
    } else {
        8
    }
}

/// The encoding of a floating-point number: a byte of its own for infinities and what is not a
/// number, else all its bits.
pub open spec fn compact_float(bits: u64) -> Seq<u8> {
    if float_is_special(bits) {
        if bits % 0x10_0000_0000_0000 != 0 {
            seq![NUMBER_NAN]
        } else if bits >= 0x8000_0000_0000_0000 {
            seq![NUMBER_NEG_INF]
        } else {
            seq![NUMBER_INF]
        }
    } else {
        seq![NUMBER_FLOAT] + be_bytes(bits as nat, 8)
    }
}

/// The encoding of a number: a byte for its kind, then its value on as few bytes as the kind has
/// for it. Zero has a kind of its own. A decimal ends in its scale.
pub open spec fn compact(num: Number) -> Seq<u8> {
    match num {
        Number::Int64(v) => if v == 0 {
            seq![NUMBER_ZERO]
        } else {
            seq![NUMBER_INT] + be_bytes_signed(v as int, signed_width(v))
        },
        Number::UInt64(v) => if v == 0 {
            seq![NUMBER_ZERO]
        } else {
            seq![NUMBER_UINT] + be_bytes(v as nat, unsigned_width(v))
        },
        Number::Float64(bits) => compact_float(bits),
        Number::Decimal64(d) => seq![NUMBER_DECIMAL] + be_bytes_signed(d.value as int, 8)
            + seq![d.scale],
        Number::Decimal128(d) => seq![NUMBER_DECIMAL] + be_bytes_signed(d.value as int, 16)
            + seq![d.scale],
        Number::Decimal256(d) => seq![NUMBER_DECIMAL] + be_bytes_signed(d.value@, 32)
            + seq![d.scale],
    }
}

/// Appends a signed number on `len` bytes in two's complement.
fn write_be_signed(out: &mut Vec<u8>, v: i128, len: usize)
    requires
        len == 1 || len == 2 || len == 4 || len == 8 || len == 16,
        -byte_range(len as nat) <= 2 * v < byte_range(len as nat),
    ensures
        final(out)@ == old(out)@ + be_bytes_signed(v as int, len as nat),
{
    proof {
        reveal_with_fuel(byte_range, 17);
    }
    let n: u128 = if v >= 0 {
        v as u128
    } else if len == 16 {
        u128::MAX - ((-(v + 1)) as u128)
    } else if len == 8 {
        (v + 0x1_0000_0000_0000_0000) as u128
    } else if len == 4 {
        (v + 0x1_0000_0000) as u128
    } else if len == 2 {
        (v + 0x1_0000) as u128
    } else {
        (v + 0x100) as u128
    };
    assert(n == twos_complement(v as int, len as nat));
    write_be(out, n, len);
}

impl Number {
    /// Appends the encoding of the number and returns its length.
    pub fn compact_encode(&self, out: &mut Vec<u8>) -> (len: usize)
        ensures
            final(out)@ == old(out)@ + compact(*self),
            len == compact(*self).len(),
    {
        let start: usize = out.len();
        proof {
            reveal_with_fuel(byte_range, 17);
        }
        match *self {
            Number::Int64(v) => {
                if v == 0 {
                    out.push(NUMBER_ZERO);
                } else {
                    out.push(NUMBER_INT);
                    if -0x80 <= v && v < 0x80 {
                        write_be_signed(out, v as i128, 1);
                    } else if -0x8000 <= v && v < 0x8000 {
                        write_be_signed(out, v as i128, 2);
                    } else if -0x8000_0000 <= v && v < 0x8000_0000 {
                        write_be_signed(out, v as i128, 4);
                    } else {
                        write_be_signed(out, v as i128, 8);
                    }
                }
            },
            Number::UInt64(v) => {
                if v == 0 {
                    out.push(NUMBER_ZERO);
                } else {
                    out.push(NUMBER_UINT);
                    if v < 0x100 {
                        write_be(out, v as u128, 1);
                    } else if v < 0x1_0000 {
                        write_be(out, v as u128, 2);
                    } else if v < 0x1_0000_0000 {
                        write_be(out, v as u128, 4);
                    } else {
                        write_be(out, v as u128, 8);
                    }
                }
            },
            Number::Float64(bits) => {
                if bits / 0x10_0000_0000_0000 % 0x800 == 0x7ff {
                    if bits % 0x10_0000_0000_0000 != 0 {
                        out.push(NUMBER_NAN);
                    } else if bits >= 0x8000_0000_0000_0000 {
                        out.push(NUMBER_NEG_INF);
                    } else {
                        out.push(NUMBER_INF);
                    }
                } else {
                    out.push(NUMBER_FLOAT);
                    write_be(out, bits as u128, 8);
                }
            },
            Number::Decimal64(d) => {
                out.push(NUMBER_DECIMAL);
                write_be_signed(out, d.value as i128, 8);
                out.push(d.scale);
            },
            Number::Decimal128(d) => {
                out.push(NUMBER_DECIMAL);
                write_be_signed(out, d.value, 16);
                out.push(d.scale);
            },
            Number::Decimal256(d) => {
                out.push(NUMBER_DECIMAL);
                let bytes = int256_to_be_bytes(d.value);
                append(out, bytes.as_slice());
                out.push(d.scale);
            },
        }
        assert(out@ =~= old(out)@ + compact(*self));
        out.len() - start
    }
}

} // verus!
