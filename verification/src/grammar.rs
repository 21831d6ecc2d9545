//! What JSON texts there are and what each denotes.
//!
//! There are two dialects. The standard one is JSON, with a form feed as further whitespace and
//! with `\n`, `\r`, `\t` and `\x0C` spelled out between tokens. The extended one also takes empty
//! texts and empty array items as null, words in any case, `NaN` and `Infinity`, single quotes,
//! keys without quotes, and numbers with a plus sign, leading zeros, a bare point or hexadecimal
//! digits. Each function takes the text and the offset to read from, and gives what stands there
//! with the offset behind it, or the error with the offset reached by then.

use vstd::prelude::*;
use vstd::utf8::{decode_utf8, valid_utf8};

use crate::ascii::{
    APOSTROPHE, BACKSLASH, CLOSE_BRACE, CLOSE_BRACKET, COLON, COMMA, LOWER_E, LOWER_F, LOWER_I,
    LOWER_N, LOWER_R, LOWER_T, LOWER_X, MINUS, OPEN_BRACE, OPEN_BRACKET, PLUS, POINT, QUOTE,
    UPPER_C, UPPER_E, UPPER_I, UPPER_N, UPPER_X, ZERO,
};
use crate::error::{reported, ErrorModel, ParseErrorCode, Refusal};
use crate::escape::escaped_string;
use crate::int256::int256;
use crate::number::{
    Decimal128, Decimal256, Decimal64, Number, INFINITY_BITS, NAN_BITS, NEG_INFINITY_BITS,
};
use crate::order::repeated_key;
use crate::scan::{
    byte_at, decimal_value, digits_end, hex_digits_end, is_digit, is_whitespace, radix_value,
    string_scan, whitespace_end,
};
use crate::value::{member_keys, FloatSource, JsonValue, Member, NumberToken};

verus! {

/// The most digits of a decimal on 64 bits.
pub const MAX_DECIMAL64_PRECISION: usize = 18;

/// The most digits of a decimal on 128 bits.
pub const MAX_DECIMAL128_PRECISION: usize = 38;

/// The most digits of a decimal on 256 bits.
pub const MAX_DECIMAL256_PRECISION: usize = 76;

/// The highest value of a decimal on 64 bits.
pub const DECIMAL64_MAX: i128 = 999_999_999_999_999_999;

/// The highest value of a decimal on 128 bits.
pub const DECIMAL128_MAX: i128 = 99_999_999_999_999_999_999_999_999_999_999_999_999;

/// A refusal that is noticed at the given offset.
pub open spec fn refused<T>(code: ParseErrorCode, pos: int) -> Result<T, Refusal> {
    Err(Refusal { error: ErrorModel::Syntax(code, pos), stop: pos })
}

/// The number of bytes from `pos` on.
pub open spec fn remaining(text: Seq<u8>, pos: int) -> nat {
    if pos <= text.len() {
        (text.len() - pos) as nat
    } else {
        0
    }
}

/// The number of bytes at `pos` that are skipped between tokens: one of whitespace, or an escape
/// that spells whitespace out.
pub open spec fn unused_width(text: Seq<u8>, pos: int) -> int {
    if pos < 0 || pos >= text.len() {
        0
    } else if is_whitespace(text[pos]) {
        1
    } else if text[pos] == BACKSLASH && pos + 1 < text.len() && (text[pos + 1] == LOWER_N || text[pos + 1]
        == LOWER_R || text[pos + 1] == LOWER_T) {
        2
    } else if text[pos] == BACKSLASH && pos + 3 < text.len() && text[pos + 1] == LOWER_X && text[pos + 2]
        == ZERO && text[pos + 3] == UPPER_C {
        4
    } else {
        0
    }
}

/// The offset of the next token.
pub open spec fn unused_end(text: Seq<u8>, pos: int) -> int
    decreases text.len() - pos,
{
    if unused_width(text, pos) > 0 {
        unused_end(text, pos + unused_width(text, pos))
    } else {
        pos
    }
}

pub proof fn lemma_unused_end(text: Seq<u8>, pos: int)
    ensures
        pos <= unused_end(text, pos),
        pos <= text.len() ==> unused_end(text, pos) <= text.len(),
    decreases text.len() - pos,
{
    if unused_width(text, pos) > 0 {
        lemma_unused_end(text, pos + unused_width(text, pos));
    }
}

/// Nothing is left to skip at the next token.
pub proof fn lemma_unused_end_again(text: Seq<u8>, pos: int)
    ensures
        unused_end(text, unused_end(text, pos)) == unused_end(text, pos),
        unused_width(text, unused_end(text, pos)) == 0,
    decreases text.len() - pos,
{
    if unused_width(text, pos) > 0 {
        lemma_unused_end_again(text, pos + unused_width(text, pos));
    }
}

/// Whitespace can be skipped first.
pub proof fn lemma_unused_whitespace(text: Seq<u8>, pos: int)
    requires
        0 <= pos,
    ensures
        unused_end(text, pos) == unused_end(text, whitespace_end(text, pos)),
    decreases text.len() - pos,
{
    if pos < text.len() && is_whitespace(text[pos]) {
        lemma_unused_whitespace(text, pos + 1);
    }
}

/// A letter of ASCII in lower case; any other byte as it is.
pub open spec fn lower(byte: u8) -> u8 {
    if 0x41 <= byte <= 0x5a {
        (byte + 0x20) as u8
    } else {
        byte
    }
}

/// The offset behind a word that has to stand at `pos`, in any case where `fold` is set.
pub open spec fn word_end(text: Seq<u8>, pos: int, word: Seq<u8>, fold: bool) -> Result<
    int,
    Refusal,
>
    decreases word.len(),
{
    if word.len() == 0 {
        Ok(pos)
    } else {
        match byte_at(text, pos) {
            None => refused(ParseErrorCode::InvalidEOF, pos),
            Some(byte) => if byte == word[0] || fold && lower(byte) == lower(word[0]) {
                word_end(text, pos + 1, word.drop_first(), fold)
            } else {
                refused(ParseErrorCode::ExpectedSomeIdent, pos + 1)
            },
        }
    }
}

/// `null`
pub open spec fn word_null() -> Seq<u8> {
    seq![0x6eu8, 0x75u8, 0x6cu8, 0x6cu8]
}

/// `true`
pub open spec fn word_true() -> Seq<u8> {
    seq![0x74u8, 0x72u8, 0x75u8, 0x65u8]
}

/// `false`
pub open spec fn word_false() -> Seq<u8> {
    seq![0x66u8, 0x61u8, 0x6cu8, 0x73u8, 0x65u8]
}

/// `nan`
pub open spec fn word_nan() -> Seq<u8> {
    seq![0x6eu8, 0x61u8, 0x6eu8]
}

/// `infinity`
pub open spec fn word_infinity() -> Seq<u8> {
    seq![0x69u8, 0x6eu8, 0x66u8, 0x69u8, 0x6eu8, 0x69u8, 0x74u8, 0x79u8]
}

/// A number token with no conversion left to do.
pub open spec fn settled(number: Number, end: int) -> Result<(NumberToken, int), Refusal> {
    Ok((NumberToken::Number(number), end))
}

/// A decimal literal to be converted to a floating-point number.
pub open spec fn decimal_source(start: int, end: int) -> Result<(NumberToken, int), Refusal> {
    Ok((NumberToken::Float(FloatSource::Decimal { start: start as usize, end: end as usize }), end))
}

/// The 64-bit integer of the given sign and magnitude, if there is one.
pub open spec fn integer_number(negative: bool, magnitude: nat) -> Option<Number> {
    if !negative && magnitude <= u64::MAX {
        Some(Number::UInt64(magnitude as u64))
    } else if negative && magnitude <= 0x8000_0000_0000_0000 {
        Some(Number::Int64((-magnitude) as i64))
    } else {
        None
    }
}

/// The offset behind the exponent at `pos`: `pos` itself where there is none.
pub open spec fn exponent_end(text: Seq<u8>, pos: int) -> Result<int, Refusal> {
    if byte_at(text, pos) == Some(LOWER_E) || byte_at(text, pos) == Some(UPPER_E) {
        let first = if byte_at(text, pos + 1) == Some(PLUS) || byte_at(text, pos + 1) == Some(
            MINUS,
        ) {
            pos + 2
        } else {
            pos + 1
        };
        if digits_end(text, first) == first {
            refused(ParseErrorCode::InvalidNumberValue, first)
        } else {
            Ok(digits_end(text, first))
        }
    } else {
        Ok(pos)
    }
}

/// The offset behind the fraction at `pos`: `pos` itself where there is no point.
pub open spec fn fraction_end(text: Seq<u8>, pos: int) -> int {
    if byte_at(text, pos) == Some(POINT) {
        digits_end(text, pos + 1)
    } else {
        pos
    }
}

/// A number of the standard dialect: an integer where it is spelled as one and fits in 64 bits,
/// else a floating-point number.
pub open spec fn standard_number(text: Seq<u8>, start: int) -> Result<
    (NumberToken, int),
    Refusal,
> {
    let negative = byte_at(text, start) == Some(MINUS);
    let first = if negative {
        start + 1
    } else {
        start
    };
    let int_end = digits_end(text, first);
    let has_fraction = byte_at(text, int_end) == Some(POINT);
    let frac_end = fraction_end(text, int_end);
    if byte_at(text, first) == Some(ZERO) && int_end > first + 1 {
        refused(ParseErrorCode::InvalidNumberValue, first + 2)
    } else if int_end == first {
        refused(ParseErrorCode::InvalidNumberValue, first)
    } else if has_fraction && frac_end == int_end + 1 {
        refused(ParseErrorCode::InvalidNumberValue, reported(frac_end + 1))
    } else {
        match exponent_end(text, frac_end) {
            Err(e) => Err(e),
            Ok(end) => match integer_number(
                negative,
                decimal_value(text.subrange(first, int_end)),
            ) {
                Some(number) if end == int_end => settled(number, end),
                _ => decimal_source(start, end),
            },
        }
    }
}

/// The offset behind the sign at `pos`, if one stands there.
pub open spec fn sign_end(text: Seq<u8>, pos: int) -> int {
    if byte_at(text, pos) == Some(MINUS) || byte_at(text, pos) == Some(PLUS) {
        pos + 1
    } else {
        pos
    }
}

/// The first offset from `pos` on whose byte is not the digit zero.
pub open spec fn zeros_end(text: Seq<u8>, pos: int) -> int
    decreases text.len() - pos,
{
    if 0 <= pos < text.len() && text[pos] == ZERO {
        zeros_end(text, pos + 1)
    } else {
        pos
    }
}

/// A letter `x` stands at `pos`.
pub open spec fn at_x(text: Seq<u8>, pos: int) -> bool {
    byte_at(text, pos) == Some(LOWER_X) || byte_at(text, pos) == Some(UPPER_X)
}

/// The integer that the digits between `first` and `end` are by themselves: no point, exponent or
/// hexadecimal digits follow, and it fits in 64 bits.
pub open spec fn plain_integer(text: Seq<u8>, first: int, end: int, negative: bool) -> Option<
    Number,
> {
    if end == first || byte_at(text, end) == Some(POINT) || byte_at(text, end) == Some(LOWER_E)
        || byte_at(text, end) == Some(UPPER_E) {
        None
    } else if end == first + 1 && text[first] == ZERO && at_x(text, end) {
        None
    } else {
        integer_number(negative, decimal_value(text.subrange(first, end)))
    }
}

/// The number with the given sign, digits and number of digits behind the point, for at most as
/// many digits as a decimal can have: the first of the kinds that holds it.
pub open spec fn decimal_number(negative: bool, magnitude: nat, digits: int, scale: int) -> Number {
    let value = if negative {
        -magnitude
    } else {
        magnitude as int
    };
    if digits > MAX_DECIMAL128_PRECISION {
        Number::Decimal256(Decimal256 { scale: scale as u8, value: int256(value) })
    } else if scale == 0 && 0 <= value <= u64::MAX {
        Number::UInt64(value as u64)
    } else if scale == 0 && i64::MIN <= value <= i64::MAX {
        Number::Int64(value as i64)
    } else if -DECIMAL64_MAX <= value <= DECIMAL64_MAX && digits <= MAX_DECIMAL64_PRECISION {
        Number::Decimal64(Decimal64 { scale: scale as u8, value: value as i64 })
    } else {
        Number::Decimal128(Decimal128 { scale: scale as u8, value: value as i128 })
    }
}

/// The integer with the given sign and hexadecimal digits: the first of the kinds that holds it.
pub open spec fn hex_integer(negative: bool, magnitude: nat) -> Number {
    let value = if negative {
        -magnitude
    } else {
        magnitude as int
    };
    match integer_number(negative, magnitude) {
        Some(number) => number,
        None => if -DECIMAL128_MAX - 1 <= value <= DECIMAL128_MAX {
            Number::Decimal128(Decimal128 { scale: 0, value: value as i128 })
        } else {
            Number::Decimal256(Decimal256 { scale: 0, value: int256(value) })
        },
    }
}

/// The hexadecimal number whose digits start at `pos`; the literal starts at `start`.
pub open spec fn hex_number(text: Seq<u8>, start: int, pos: int, negative: bool) -> Result<
    (NumberToken, int),
    Refusal,
> {
    let int_end = hex_digits_end(text, pos);
    let integer = radix_value(text.subrange(pos, int_end), 16);
    if int_end == pos {
        refused(ParseErrorCode::InvalidNumberValue, pos)
    } else if byte_at(text, int_end) == Some(POINT) {
        let end = hex_digits_end(text, int_end + 1);
        let fraction = radix_value(text.subrange(int_end + 1, end), 16);
        if end == int_end + 1 || integer > u128::MAX || fraction > u128::MAX {
            refused(ParseErrorCode::InvalidNumberValue, end)
        } else {
            Ok(
                (
                    NumberToken::Float(
                        FloatSource::Hexadecimal {
                            start: start as usize,
                            negative,
                            integer: integer as u128,
                            fraction: fraction as u128,
                            fraction_digits: (end - int_end - 1) as usize,
                        },
                    ),
                    end,
                ),
            )
        }
    } else if integer > u128::MAX {
        refused(ParseErrorCode::InvalidNumberValue, int_end)
    } else {
        settled(hex_integer(negative, integer), int_end)
    }
}

/// `Infinity` or `NaN` at `pos`, behind the sign of a number without digits.
pub open spec fn special_number(text: Seq<u8>, pos: int, negative: bool) -> Result<
    (NumberToken, int),
    Refusal,
> {
    if byte_at(text, pos) == Some(LOWER_I) || byte_at(text, pos) == Some(UPPER_I) {
        match word_end(text, pos, word_infinity(), true) {
            Err(e) => Err(e),
            Ok(end) => settled(
                Number::Float64(
                    if negative {
                        NEG_INFINITY_BITS
                    } else {
                        INFINITY_BITS
                    },
                ),
                end,
            ),
        }
    } else if byte_at(text, pos) == Some(LOWER_N) || byte_at(text, pos) == Some(UPPER_N) {
        match word_end(text, pos, word_nan(), true) {
            Err(e) => Err(e),
            Ok(end) => if negative {
                refused(ParseErrorCode::InvalidNumberValue, end)
            } else {
                settled(Number::Float64(NAN_BITS), end)
            },
        }
    } else {
        refused(ParseErrorCode::InvalidNumberValue, pos)
    }
}

/// The significant digits of a number whose integer digits start at `first`, without the point.
pub open spec fn significant_digits(text: Seq<u8>, first: int) -> Seq<u8> {
    let int_end = digits_end(text, first);
    if byte_at(text, int_end) == Some(POINT) {
        text.subrange(first, int_end) + text.subrange(int_end + 1, fraction_end(text, int_end))
    } else {
        text.subrange(first, int_end)
    }
}

/// The number of digits behind the point of a number whose integer digits end at `int_end`.
pub open spec fn fraction_digits(text: Seq<u8>, int_end: int) -> int {
    if byte_at(text, int_end) == Some(POINT) {
        fraction_end(text, int_end) - int_end - 1
    } else {
        0
    }
}

/// A number of the extended dialect that is not an integer by itself; its sign ends at `first`.
pub open spec fn general_number(text: Seq<u8>, start: int, first: int, negative: bool) -> Result<
    (NumberToken, int),
    Refusal,
> {
    let int_start = zeros_end(text, first);
    let int_end = digits_end(text, int_start);
    let has_fraction = byte_at(text, int_end) == Some(POINT);
    let frac_end = fraction_end(text, int_end);
    let digits = significant_digits(text, int_start);
    if has_fraction && digits.len() < MAX_DECIMAL256_PRECISION && byte_at(text, frac_end) == Some(
        POINT,
    ) {
        refused(ParseErrorCode::InvalidNumberValue, frac_end)
    } else if int_start == first && digits.len() == 0 {
        if has_fraction {
            refused(ParseErrorCode::InvalidNumberValue, frac_end)
        } else {
            special_number(text, frac_end, negative)
        }
    } else if int_start == first + 1 && digits.len() == 0 && !has_fraction && at_x(text, int_end) {
        hex_number(text, start, int_end + 1, negative)
    } else {
        match exponent_end(text, frac_end) {
            Err(e) => Err(e),
            Ok(end) => if end == frac_end && digits.len() <= MAX_DECIMAL256_PRECISION {
                settled(
                    decimal_number(
                        negative,
                        decimal_value(digits),
                        digits.len() as int,
                        fraction_digits(text, int_end),
                    ),
                    end,
                )
            } else {
                decimal_source(start, end)
            },
        }
    }
}

/// A number of the extended dialect: an integer or a decimal that keeps every digit where the
/// digits allow, else a floating-point number.
pub open spec fn extended_number(text: Seq<u8>, start: int) -> Result<
    (NumberToken, int),
    Refusal,
> {
    let negative = byte_at(text, start) == Some(MINUS);
    let first = sign_end(text, start);
    match plain_integer(text, first, digits_end(text, first), negative) {
        Some(number) => settled(number, digits_end(text, first)),
        None => general_number(text, start, first, negative),
    }
}

/// A number.
pub open spec fn number(text: Seq<u8>, start: int, standard: bool) -> Result<
    (NumberToken, int),
    Refusal,
> {
    if standard {
        standard_number(text, start)
    } else {
        extended_number(text, start)
    }
}

/// A string, from behind its opening quote on.
pub open spec fn quoted_string(text: Seq<u8>, pos: int, quote: u8) -> Result<
    (Seq<u8>, int),
    Refusal,
> {
    match string_scan(text, pos, quote, false) {
        Err(_) => refused(ParseErrorCode::InvalidEOF, text.len() as int),
        Ok((end, has_escape)) => {
            let data = text.subrange(pos, end);
            if has_escape {
                match escaped_string(data, pos + 1) {
                    Err(error) => Err(Refusal { error, stop: end + 1 }),
                    Ok(string) => Ok((string, end + 1)),
                }
            } else if valid_utf8(data) {
                Ok((data, end + 1))
            } else {
                refused(ParseErrorCode::InvalidStringValue, end + 1)
            }
        },
    }
}

/// A letter, a digit, `_` or `$`.
pub open spec fn is_key_byte(byte: u8) -> bool {
    is_digit(byte) || 0x41 <= byte <= 0x5a || 0x61 <= byte <= 0x7a || byte == 0x5f || byte == 0x24
}

/// The offset behind a key without quotes; behind a byte that leads a character of more bytes,
/// the others are skipped unseen.
pub open spec fn unquoted_end(text: Seq<u8>, pos: int) -> Result<int, Refusal>
    decreases remaining(text, pos),
{
    if pos < 0 || pos >= text.len() {
        refused(ParseErrorCode::InvalidEOF, reported(pos))
    } else if is_key_byte(text[pos]) {
        unquoted_end(text, pos + 1)
    } else if text[pos] >= 0xf0 {
        unquoted_end(text, pos + 4)
    } else if text[pos] >= 0xe0 {
        unquoted_end(text, pos + 3)
    } else if text[pos] >= 0xc0 {
        unquoted_end(text, pos + 2)
    } else if text[pos] >= 0x80 {
        refused(ParseErrorCode::ObjectKeyInvalidCharacter, pos)
    } else {
        Ok(pos)
    }
}

/// A key without quotes.
pub open spec fn unquoted_key(text: Seq<u8>, pos: int) -> Result<(Seq<u8>, int), Refusal> {
    match byte_at(text, pos) {
        None => refused(ParseErrorCode::InvalidEOF, pos),
        Some(byte) => if is_digit(byte) {
            refused(ParseErrorCode::ObjectKeyInvalidNumber, pos + 1)
        } else {
            match unquoted_end(text, pos) {
                Err(e) => Err(e),
                Ok(end) => if end == pos {
                    refused(ParseErrorCode::ObjectKeyInvalidCharacter, pos)
                } else if valid_utf8(text.subrange(pos, end)) {
                    Ok((text.subrange(pos, end), end))
                } else {
                    refused(ParseErrorCode::InvalidStringValue, end)
                },
            }
        },
    }
}

/// The key of a member.
pub open spec fn object_key(text: Seq<u8>, pos: int, standard: bool) -> Result<
    (Seq<u8>, int),
    Refusal,
> {
    match byte_at(text, pos) {
        Some(byte) if byte == QUOTE || !standard && byte == APOSTROPHE => quoted_string(
            text,
            pos + 1,
            byte,
        ),
        Some(_) if standard => refused(ParseErrorCode::ExpectedSomeIdent, pos + 1),
        None if standard => refused(ParseErrorCode::InvalidEOF, pos),
        _ => unquoted_key(text, pos),
    }
}

/// `to`, or `from` where `to` lies before it. No value ends before it starts, so this only shows
/// that the definitions below come to an end.
pub open spec fn onward(from: int, to: int) -> int {
    if to < from {
        from
    } else {
        to
    }
}

/// A word that stands for a value.
pub open spec fn word_value(
    text: Seq<u8>,
    pos: int,
    word: Seq<u8>,
    fold: bool,
    value: JsonValue,
) -> Result<(JsonValue, int), Refusal> {
    match word_end(text, pos, word, fold) {
        Err(e) => Err(e),
        Ok(end) => Ok((value, end)),
    }
}

/// A number as a value.
pub open spec fn number_value(number: Number) -> JsonValue {
    JsonValue::Number(NumberToken::Number(number))
}

/// A value that is a number, a string or a word: `byte` stands at `pos`.
pub open spec fn scalar(text: Seq<u8>, pos: int, byte: u8, standard: bool) -> Result<
    (JsonValue, int),
    Refusal,
> {
    let kind = if standard {
        byte
    } else {
        lower(byte)
    };
    if kind == LOWER_N {
        if standard || word_end(text, pos, word_null(), true) is Ok {
            word_value(text, pos, word_null(), !standard, JsonValue::Null)
        } else {
            word_value(text, pos, word_nan(), true, number_value(Number::Float64(NAN_BITS)))
        }
    } else if kind == LOWER_T {
        word_value(text, pos, word_true(), !standard, JsonValue::Bool(true))
    } else if kind == LOWER_F {
        word_value(text, pos, word_false(), !standard, JsonValue::Bool(false))
    } else if kind == LOWER_I && !standard {
        word_value(text, pos, word_infinity(), true, number_value(Number::Float64(INFINITY_BITS)))
    } else if is_digit(byte) || byte == MINUS || !standard && (byte == PLUS || byte == POINT) {
        match number(text, pos, standard) {
            Err(e) => Err(e),
            Ok((token, end)) => Ok((JsonValue::Number(token), end)),
        }
    } else if byte == QUOTE || !standard && byte == APOSTROPHE {
        match quoted_string(text, pos + 1, byte) {
            Err(e) => Err(e),
            Ok((string, end)) => Ok((JsonValue::Text(string), end)),
        }
    } else {
        refused(ParseErrorCode::ExpectedSomeValue, pos + 1)
    }
}

/// A value, and what may be skipped before it. Where the text ends, the extended dialect has null.
pub open spec fn value(text: Seq<u8>, pos: int, standard: bool) -> Result<
    (JsonValue, int),
    Refusal,
>
    decreases remaining(text, pos), 0int,
{
    let first = unused_end(text, pos);
    proof {
        lemma_unused_end(text, pos);
    }
    match byte_at(text, first) {
        None => if standard {
            refused(ParseErrorCode::InvalidEOF, first)
        } else {
            Ok((JsonValue::Null, first))
        },
        Some(byte) => {
            let inside = unused_end(text, first + 1);
            proof {
                lemma_unused_end(text, first + 1);
            }
            if byte == OPEN_BRACKET {
                if byte_at(text, inside) == Some(CLOSE_BRACKET) {
                    Ok((JsonValue::Array(seq![]), inside + 1))
                } else {
                    array_items(text, inside, standard, seq![])
                }
            } else if byte == OPEN_BRACE {
                if byte_at(text, inside) == Some(CLOSE_BRACE) {
                    Ok((JsonValue::Object(seq![]), inside + 1))
                } else {
                    object_members(text, inside, standard, seq![], seq![])
                }
            } else {
                scalar(text, first, byte, standard)
            }
        },
    }
}

/// An array from the item at `pos` on; `items` are those before it. In the extended dialect an
/// item may be left out, and stands for null.
pub open spec fn array_items(
    text: Seq<u8>,
    pos: int,
    standard: bool,
    items: Seq<JsonValue>,
) -> Result<(JsonValue, int), Refusal>
    decreases remaining(text, pos), 1int,
{
    let item = if !standard && (byte_at(text, pos) == Some(COMMA) || byte_at(text, pos) == Some(
        CLOSE_BRACKET,
    )) {
        Ok((JsonValue::Null, pos))
    } else {
        value(text, pos, standard)
    };
    match item {
        Err(e) => Err(e),
        Ok((item, end)) => {
            let close = unused_end(text, onward(pos, end));
            proof {
                lemma_unused_end(text, onward(pos, end));
                lemma_unused_end(text, close + 1);
            }
            match byte_at(text, close) {
                None => refused(ParseErrorCode::InvalidEOF, close),
                Some(byte) => if byte == COMMA {
                    array_items(text, unused_end(text, close + 1), standard, items.push(item))
                } else if byte == CLOSE_BRACKET {
                    Ok((JsonValue::Array(items.push(item)), close + 1))
                } else {
                    refused(ParseErrorCode::ExpectedArrayCommaOrEnd, close)
                },
            }
        },
    }
}

/// The object with the given members, unless two have the same key; `ends` are the offsets behind
/// their keys.
pub open spec fn object_value(members: Seq<Member>, ends: Seq<int>, end: int) -> Result<
    (JsonValue, int),
    Refusal,
> {
    match repeated_key(member_keys(members)) {
        Some(i) => Err(
            Refusal {
                error: ErrorModel::DuplicateKey(decode_utf8(members[i].key), ends[i]),
                stop: end,
            },
        ),
        None => Ok((JsonValue::Object(members), end)),
    }
}

/// An object from the member at `pos` on; `members` are those before it, and `ends` the offsets
/// behind their keys.
pub open spec fn object_members(
    text: Seq<u8>,
    pos: int,
    standard: bool,
    members: Seq<Member>,
    ends: Seq<int>,
) -> Result<(JsonValue, int), Refusal>
    decreases remaining(text, pos), 1int,
{
    match object_key(text, pos, standard) {
        Err(e) => Err(e),
        Ok((key, key_end)) => {
            let colon = unused_end(text, key_end);
            match byte_at(text, colon) {
                None => refused(ParseErrorCode::InvalidEOF, colon),
                Some(byte) => if byte != COLON {
                    refused(ParseErrorCode::ExpectedSomeIdent, colon + 1)
                } else {
                    match value(text, onward(pos, colon + 1), standard) {
                        Err(e) => Err(e),
                        Ok((value, end)) => {
                            let close = unused_end(text, onward(pos, end));
                            proof {
                                lemma_unused_end(text, onward(pos, end));
                                lemma_unused_end(text, close + 1);
                            }
                            let all = members.push(Member { key, value });
                            let all_ends = ends.push(key_end);
                            match byte_at(text, close) {
                                None => refused(ParseErrorCode::InvalidEOF, close),
                                Some(byte) => if byte == COMMA {
                                    object_members(
                                        text,
                                        unused_end(text, close + 1),
                                        standard,
                                        all,
                                        all_ends,
                                    )
                                } else if byte == CLOSE_BRACE {
                                    object_value(all, all_ends, close + 1)
                                } else {
                                    refused(ParseErrorCode::ExpectedObjectCommaOrEnd, close)
                                },
                            }
                        },
                    }
                },
            }
        },
    }
}

/// What a whole text denotes.
pub open spec fn document(text: Seq<u8>, standard: bool) -> Result<JsonValue, Refusal> {
    match value(text, 0, standard) {
        Err(e) => Err(e),
        Ok((root, end)) => {
            let rest = unused_end(text, end);
            if rest < text.len() {
                refused(ParseErrorCode::UnexpectedTrailingCharacters, rest + 1)
            } else {
                Ok(root)
            }
        },
    }
}

} // verus!
