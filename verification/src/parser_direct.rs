//! Parsing JSON text straight into its encoding, in one pass and without a tree.

use std::borrow::Cow;

use vstd::prelude::*;
use vstd::slice::slice_subrange;
use vstd::utf8::{encode_utf8, encode_utf8_decode_utf8};

use crate::ascii::{
    APOSTROPHE, BACKSLASH, CLOSE_BRACE, CLOSE_BRACKET, COLON, COMMA, DOLLAR, LOWER_E, LOWER_F,
    LOWER_I, LOWER_N, LOWER_R, LOWER_T, LOWER_X, MINUS, OPEN_BRACE, OPEN_BRACKET, PLUS, POINT,
    QUOTE, UNDERSCORE, UPPER_C, UPPER_E, UPPER_F, UPPER_I, UPPER_N, UPPER_T, UPPER_X, ZERO,
};
use crate::bytes::{append, write_u32};
use crate::error::{Error, ErrorModel, ParseErrorCode, Refusal};
use crate::escape::{hex_digit, parse_string, str_from_utf8};
use crate::floats::FloatTable;
use crate::grammar::{
    array_items, decimal_number, document, exponent_end, extended_number, fraction_digits,
    fraction_end, hex_integer, hex_number, integer_number, is_key_byte, lemma_unused_end_again,
    lemma_unused_whitespace, lower, number, number_value, object_key, object_members, object_value,
    plain_integer, quoted_string, refused, remaining, sign_end, significant_digits, special_number,
    standard_number, unquoted_end, unquoted_key, unused_end, unused_width, value, word_end,
    word_false, word_infinity, word_nan, word_null, word_true, word_value, zeros_end,
    DECIMAL128_MAX, DECIMAL64_MAX, MAX_DECIMAL128_PRECISION, MAX_DECIMAL256_PRECISION,
    MAX_DECIMAL64_PRECISION,
};
use crate::int256::{int256_from_i128, int256_from_u128, int256_mul, int256_sum, lemma_int256};
use crate::number::{
    Decimal128, Decimal256, Decimal64, Number, INFINITY_BITS, NAN_BITS, NEG_INFINITY_BITS,
};
use crate::order::{key_order, lemma_first_repeat_in_range, lemma_key_order, repeated_key};
use crate::owned::OwnedJsonb;
use crate::scan::{
    all_digits, byte_at, decimal_value, digits_end, hex_digits_end, is_ascii_digit, is_digit,
    is_hex_digit, lemma_decimal_value_bound, lemma_decimal_value_concat, lemma_digits_end,
    lemma_digits_end_from, lemma_hex_digits_end, lemma_pow10_monotonic, lemma_radix_value_push,
    lemma_whitespace_end, pow10, radix_value, scan_digits, scan_hexdigits, scan_integer_digits_u64,
    scan_string, skip_ascii_whitespace,
};
use crate::sort::{entry_keys, EncodedValue, ObjectEntry};
use crate::text::cow_bytes;
use crate::value::{
    document_bytes, encoded, encoded_items, encoded_members, float_sources, item_sources,
    lemma_encoded_items_push, lemma_encoded_members_push, lemma_missing_concat, lemma_payload_push,
    member_keys, member_sources, missing, payload, resolved, Encoded, FloatSource, JsonValue,
    Member, NumberToken, CONTAINER_TAG, FALSE_TAG, NULL_TAG, SCALAR_CONTAINER_TAG, TRUE_TAG,
};
use crate::writer::{entry_values, lies_in, written, JsonbWriter};

verus! {

/// What a parse ends in, unless the text is refused.
#[derive(Debug, Clone, PartialEq, Eq)]
pub enum Parsed {
    /// The encoding of the text.
    Jsonb(OwnedJsonb),
    /// The floating-point literals whose bits are not known yet, in the order of the text.
    NeedsFloats(Vec<FloatSource>),
}

/// A text is parsed as it should be, given the bits of some floating-point literals: it is refused
/// with the error that it denotes; else its encoding is given where the bits of all its
/// floating-point literals are known, or else the list of the others.
pub open spec fn parses(
    text: Seq<u8>,
    standard: bool,
    floats: Map<usize, u64>,
    r: Result<Parsed, Error>,
) -> bool {
    match document(text, standard) {
        Err(m) => r matches Err(e) && e@ == m.error,
        Ok(root) => {
            let needed = missing(float_sources(root), floats);
            if needed.len() == 0 {
                r matches Ok(Parsed::Jsonb(doc)) && doc@ == document_bytes(encoded(root, floats))
            } else {
                r matches Ok(Parsed::NeedsFloats(list)) && list@ == needed
            }
        },
    }
}

/// Parses a text of the extended dialect.
pub fn parse_owned_jsonb_direct(buf: &[u8], floats: &FloatTable) -> (r: Result<Parsed, Error>)
    ensures
        parses(buf@, false, floats@, r),
{
    let mut parser = DirectParser::<false>::new(buf, floats);
    parser.parse_owned()
}

/// Parses a text of the standard dialect.
pub fn parse_owned_jsonb_standard_mode_direct(buf: &[u8], floats: &FloatTable) -> (r: Result<
    Parsed,
    Error,
>)
    ensures
        parses(buf@, true, floats@, r),
{
    let mut parser = DirectParser::<true>::new(buf, floats);
    parser.parse_owned()
}

/// The state of a parser: how far it has read, what it has written, the members of the objects
/// that are still open, and the floating-point literals that it found no bits for.
struct DirectParser<'a, const STANDARD: bool> {
    buf: &'a [u8],
    idx: usize,
    writer: JsonbWriter,
    object_entries: Vec<ObjectEntry<'a>>,
    floats: &'a FloatTable,
    needed: Vec<FloatSource>,
}

impl<'a, const STANDARD: bool> DirectParser<'a, STANDARD> {
    /// The offset is inside the text or at its end.
    spec fn inside(self) -> bool {
        self.idx <= self.buf@.len() <= usize::MAX
    }

    /// At most the offset differs.
    spec fn kept(self, before: Self) -> bool {
        &&& self.buf == before.buf
        &&& self.writer == before.writer
        &&& self.object_entries == before.object_entries
        &&& self.floats == before.floats
        &&& self.needed == before.needed
    }

    /// The byte at the offset.
    fn peek(&self) -> (r: Option<u8>)
        ensures
            r == byte_at(self.buf@, self.idx as int),
    {
        if self.idx < self.buf.len() {
            Some(self.buf[self.idx])
        } else {
            None
        }
    }

    /// An error at the offset.
    fn error(&self, code: ParseErrorCode) -> (e: Error)
        requires
            !(code is ObjectDuplicateKey),
        ensures
            e@ == ErrorModel::Syntax(code, self.idx as int),
    {
        Error::Syntax(code, self.idx)
    }

    /// Moves to the next token.
    fn skip_unused(&mut self)
        requires
            old(self).inside(),
        ensures
            final(self).kept(*old(self)),
            final(self).idx == unused_end(old(self).buf@, old(self).idx as int),
            old(self).idx <= final(self).idx,
            final(self).inside(),
    {
        let mut done = false;
        while !done && self.idx < self.buf.len()
            invariant
                self.kept(*old(self)),
                self.inside(),
                old(self).idx <= self.idx,
                unused_end(self.buf@, old(self).idx as int) == unused_end(
                    self.buf@,
                    self.idx as int,
                ),
                done ==> unused_width(self.buf@, self.idx as int) == 0,
            decreases self.buf@.len() - self.idx, if done { 0int } else { 1int },
        {
            let next = skip_ascii_whitespace(self.buf, self.idx);
            proof {
                lemma_unused_whitespace(self.buf@, self.idx as int);
                lemma_whitespace_end(self.buf@, self.idx + 1);
            }
            if next != self.idx {
                self.idx = next;
            } else if self.buf[self.idx] == BACKSLASH && self.idx + 1 < self.buf.len() && (self.buf[
                self.idx + 1] == LOWER_N || self.buf[self.idx + 1] == LOWER_R || self.buf[self.idx + 1]
                == LOWER_T) {
                self.idx = self.idx + 2;
            } else if self.buf[self.idx] == BACKSLASH && self.buf.len() - self.idx > 3 && self.buf[
                self.idx + 1] == LOWER_X && self.buf[self.idx + 2] == ZERO && self.buf[self.idx + 3]
                == UPPER_C {
                self.idx = self.idx + 4;
            } else {
                done = true;
            }
        }
    }

    /// Reads the given byte.
    fn expect_byte(&mut self, byte: u8) -> (r: Result<(), Error>)
        requires
            old(self).inside(),
        ensures
            final(self).kept(*old(self)),
            final(self).inside(),
            old(self).idx <= final(self).idx,
            match byte_at(old(self).buf@, old(self).idx as int) {
                Some(b) => final(self).idx == old(self).idx + 1 && if b == byte {
                    r is Ok
                } else {
                    r matches Err(e) && e@ == ErrorModel::Syntax(
                        ParseErrorCode::ExpectedSomeIdent,
                        old(self).idx + 1,
                    )
                },
                None => r matches Err(e) && final(self).idx == old(self).idx && e@
                    == ErrorModel::Syntax(ParseErrorCode::InvalidEOF, old(self).idx as int),
            },
    {
        match self.peek() {
            Some(value) => {
                self.idx = self.idx + 1;
                if value == byte {
                    Ok(())
                } else {
                    Err(self.error(ParseErrorCode::ExpectedSomeIdent))
                }
            },
            None => Err(self.error(ParseErrorCode::InvalidEOF)),
        }
    }

    /// Reads the given byte if it is the next.
    fn consume_if(&mut self, byte: u8) -> (r: bool)
        requires
            old(self).inside(),
        ensures
            final(self).kept(*old(self)),
            final(self).inside(),
            r == (byte_at(old(self).buf@, old(self).idx as int) == Some(byte)),
            final(self).idx == old(self).idx + if r {
                1int
            } else {
                0int
            },
    {
        if self.idx < self.buf.len() && self.buf[self.idx] == byte {
            self.idx = self.idx + 1;
            true
        } else {
            false
        }
    }

    /// Reads the given word.
    fn expect_slice(&mut self, expected: &[u8]) -> (r: Result<(), Error>)
        requires
            old(self).inside(),
        ensures
            final(self).kept(*old(self)),
            final(self).inside(),
            old(self).idx <= final(self).idx,
            match word_end(old(self).buf@, old(self).idx as int, expected@, false) {
                Ok(end) => r is Ok && final(self).idx == end,
                Err(m) => r matches Err(e) && e@ == m.error && final(self).idx == m.stop,
            },
    {
        let mut i: usize = 0;
        assert(expected@.skip(0) =~= expected@);
        while i < expected.len()
            invariant
                i <= expected@.len(),
                self.kept(*old(self)),
                self.inside(),
                old(self).idx <= self.idx,
                word_end(self.buf@, old(self).idx as int, expected@, false) == word_end(
                    self.buf@,
                    self.idx as int,
                    expected@.skip(i as int),
                    false,
                ),
            decreases expected@.len() - i,
        {
            assert(expected@.skip(i as int).drop_first() =~= expected@.skip(i + 1));
            match self.expect_byte(expected[i]) {
                Ok(()) => {},
                Err(e) => {
                    return Err(e);
                },
            }
            i += 1;
        }
        Ok(())
    }

    /// Reads the given word in any case.
    fn expect_slice_ignore_ascii_case(&mut self, expected: &[u8]) -> (r: Result<(), Error>)
        requires
            old(self).inside(),
        ensures
            final(self).kept(*old(self)),
            final(self).inside(),
            old(self).idx <= final(self).idx,
            match word_end(old(self).buf@, old(self).idx as int, expected@, true) {
                Ok(end) => r is Ok && final(self).idx == end,
                Err(m) => r matches Err(e) && e@ == m.error && final(self).idx == m.stop,
            },
    {
        let mut i: usize = 0;
        assert(expected@.skip(0) =~= expected@);
        while i < expected.len()
            invariant
                i <= expected@.len(),
                self.kept(*old(self)),
                self.inside(),
                old(self).idx <= self.idx,
                word_end(self.buf@, old(self).idx as int, expected@, true) == word_end(
                    self.buf@,
                    self.idx as int,
                    expected@.skip(i as int),
                    true,
                ),
            decreases expected@.len() - i,
        {
            assert(expected@.skip(i as int).drop_first() =~= expected@.skip(i + 1));
            match self.peek() {
                Some(value) => {
                    self.idx = self.idx + 1;
                    if to_lower(value) != to_lower(expected[i]) {
                        return Err(self.error(ParseErrorCode::ExpectedSomeIdent));
                    }
                },
                None => {
                    return Err(self.error(ParseErrorCode::InvalidEOF));
                },
            }
            i += 1;
        }
        Ok(())
    }

    /// Skips decimal digits and returns how many there were.
    fn scan_digits(&mut self) -> (n: usize)
        requires
            old(self).inside(),
        ensures
            final(self).kept(*old(self)),
            final(self).inside(),
            final(self).idx == digits_end(old(self).buf@, old(self).idx as int),
            old(self).idx <= final(self).idx,
            n == final(self).idx - old(self).idx,
    {
        let start: usize = self.idx;
        self.idx = scan_digits(self.buf, self.idx);
        self.idx - start
    }

    /// Skips hexadecimal digits and returns how many there were.
    fn scan_hexdigits(&mut self) -> (n: usize)
        requires
            old(self).inside(),
        ensures
            final(self).kept(*old(self)),
            final(self).inside(),
            final(self).idx == hex_digits_end(old(self).buf@, old(self).idx as int),
            old(self).idx <= final(self).idx,
            n == final(self).idx - old(self).idx,
    {
        let start: usize = self.idx;
        self.idx = scan_hexdigits(self.buf, self.idx);
        self.idx - start
    }

    /// Reads a string from behind its opening quote on.
    fn parse_quoted_string(&mut self, end_quote: u8) -> (r: Result<Cow<'a, str>, Error>)
        requires
            old(self).inside(),
        ensures
            final(self).kept(*old(self)),
            match quoted_string(old(self).buf@, old(self).idx as int, end_quote) {
                Ok((string, end)) => r matches Ok(s) && encode_utf8(s@) == string
                    && final(self).idx == end && old(self).idx <= end && final(self).inside(),
                Err(m) => r matches Err(e) && e@ == m.error && final(self).idx == m.stop,
            },
    {
        let start_idx: usize = self.idx;
        let scan = match scan_string::<false>(self.buf, start_idx, end_quote) {
            Ok(scan) => scan,
            Err(_) => {
                self.idx = self.buf.len();
                return Err(self.error(ParseErrorCode::InvalidEOF));
            },
        };
        self.idx = scan.end + 1;
        let data = slice_subrange(self.buf, start_idx, scan.end);
        if scan.has_escape {
            match parse_string(data, start_idx + 1) {
                Ok(s) => Ok(Cow::Owned(s)),
                Err(e) => Err(e),
            }
        } else {
            match str_from_utf8(data) {
                Some(s) => Ok(Cow::Borrowed(s)),
                None => Err(self.error(ParseErrorCode::InvalidStringValue)),
            }
        }
    }

    /// Reads a key without quotes.
    fn parse_unquoted_string(&mut self) -> (r: Result<Cow<'a, str>, Error>)
        requires
            old(self).inside(),
        ensures
            final(self).kept(*old(self)),
            match unquoted_key(old(self).buf@, old(self).idx as int) {
                Ok((string, end)) => r matches Ok(s) && encode_utf8(s@) == string
                    && final(self).idx == end && old(self).idx <= end && final(self).inside(),
                Err(m) => r matches Err(e) && e@ == m.error && final(self).idx == m.stop,
            },
    {
        let start_idx: usize = self.idx;
        match self.peek() {
            Some(byte) => {
                if is_ascii_digit(byte) {
                    self.idx = self.idx + 1;
                    return Err(self.error(ParseErrorCode::ObjectKeyInvalidNumber));
                }
            },
            None => {
                return Err(self.error(ParseErrorCode::InvalidEOF));
            },
        }
        let ghost whole = unquoted_end(self.buf@, start_idx as int);
        let mut done = false;
        while !done
            invariant
                self.kept(*old(self)),
                start_idx <= self.idx,
                start_idx == old(self).idx,
                self.buf@.len() <= usize::MAX,
                byte_at(self.buf@, start_idx as int) matches Some(b) && !is_digit(b),
                whole == unquoted_end(self.buf@, start_idx as int),
                self.idx < self.buf@.len() ==> whole == unquoted_end(self.buf@, self.idx as int),
                self.idx >= self.buf@.len() ==> whole == refused::<int>(
                    ParseErrorCode::InvalidEOF,
                    self.idx as int,
                ),
                done ==> self.idx < self.buf@.len() && whole == Ok::<int, Refusal>(
                    self.idx as int,
                ),
            decreases remaining(self.buf@, self.idx as int), if done { 0int } else { 1int },
        {
            let byte = match self.peek() {
                Some(byte) => byte,
                None => {
                    return Err(self.error(ParseErrorCode::InvalidEOF));
                },
            };
            proof {
                reveal_with_fuel(unquoted_end, 2);
            }
            if is_unquoted_byte(byte) {
                self.idx = self.idx + 1;
            } else if byte >= 0x80 {
                let width: usize = if byte >= 0xf0 {
                    4
                } else if byte >= 0xe0 {
                    3
                } else if byte >= 0xc0 {
                    2
                } else {
                    return Err(self.error(ParseErrorCode::ObjectKeyInvalidCharacter));
                };
                self.idx = self.idx.saturating_add(width);
            } else {
                done = true;
            }
        }
        if self.idx == start_idx {
            return Err(self.error(ParseErrorCode::ObjectKeyInvalidCharacter));
        }
        match str_from_utf8(slice_subrange(self.buf, start_idx, self.idx)) {
            Some(s) => Ok(Cow::Borrowed(s)),
            None => Err(self.error(ParseErrorCode::InvalidStringValue)),
        }
    }

    /// Reads the key of a member.
    fn parse_object_key(&mut self) -> (r: Result<Cow<'a, str>, Error>)
        requires
            old(self).inside(),
        ensures
            final(self).kept(*old(self)),
            match object_key(old(self).buf@, old(self).idx as int, STANDARD) {
                Ok((string, end)) => r matches Ok(s) && encode_utf8(s@) == string
                    && final(self).idx == end && old(self).idx <= end && final(self).inside(),
                Err(m) => r matches Err(e) && e@ == m.error && final(self).idx == m.stop,
            },
    {
        if STANDARD {
            match self.expect_byte(QUOTE) {
                Ok(()) => {},
                Err(e) => {
                    return Err(e);
                },
            }
            self.parse_quoted_string(QUOTE)
        } else {
            match self.peek() {
                Some(end_quote) => {
                    if end_quote == QUOTE || end_quote == APOSTROPHE {
                        self.idx = self.idx + 1;
                        self.parse_quoted_string(end_quote)
                    } else {
                        self.parse_unquoted_string()
                    }
                },
                None => self.parse_unquoted_string(),
            }
        }
    }

    /// A number was read as expected.
    spec fn read_number(
        self,
        before: Self,
        r: Result<NumberToken, Error>,
        expected: Result<(NumberToken, int), Refusal>,
    ) -> bool {
        &&& self.kept(before)
        &&& match expected {
            Ok((token, end)) => r == Ok::<NumberToken, Error>(token) && self.idx == end
                && before.idx <= end && self.inside(),
            Err(m) => r matches Err(e) && e@ == m.error && self.idx == m.stop,
        }
    }

    /// Reads an exponent, if there is one, and tells whether there was.
    fn parse_exponent(&mut self) -> (r: Result<bool, Error>)
        requires
            old(self).inside(),
        ensures
            final(self).kept(*old(self)),
            match exponent_end(old(self).buf@, old(self).idx as int) {
                Ok(end) => r == Ok::<bool, Error>(end != old(self).idx) && final(self).idx == end
                    && old(self).idx <= end && final(self).inside(),
                Err(m) => r matches Err(e) && e@ == m.error && final(self).idx == m.stop,
            },
    {
        if self.consume_if(LOWER_E) || self.consume_if(UPPER_E) {
            if !self.consume_if(PLUS) {
                self.consume_if(MINUS);
            }
            if self.scan_digits() == 0 {
                return Err(self.error(ParseErrorCode::InvalidNumberValue));
            }
            Ok(true)
        } else {
            Ok(false)
        }
    }

    /// Reads a number of the standard dialect.
    fn parse_standard_number_value(&mut self) -> (r: Result<NumberToken, Error>)
        requires
            old(self).inside(),
        ensures
            final(self).read_number(
                *old(self),
                r,
                standard_number(old(self).buf@, old(self).idx as int),
            ),
    {
        let start: usize = self.idx;
        let negative = self.consume_if(MINUS);
        let first: usize = self.idx;
        let ghost int_end = digits_end(self.buf@, first as int);
        proof {
            lemma_digits_end(self.buf@, first as int);
            if first + 1 <= self.buf@.len() {
                lemma_digits_end(self.buf@, first + 1);
            }
        }
        let int_value: u64;
        let int_overflow: bool;
        if self.consume_if(ZERO) {
            match self.peek() {
                Some(byte) => {
                    if is_ascii_digit(byte) {
                        self.idx = self.idx + 1;
                        proof {
                            lemma_digits_end(self.buf@, self.idx as int);
                        }
                        return Err(self.error(ParseErrorCode::InvalidNumberValue));
                    }
                },
                None => {},
            }
            int_value = 0;
            int_overflow = false;
            proof {
                assert(int_end == first + 1);
                assert(self.buf@.subrange(first as int, int_end) =~= seq![0x30u8]);
                lemma_radix_value_push(Seq::empty(), ZERO, 10);
                assert(Seq::<u8>::empty().push(0x30) =~= seq![0x30u8]);
            }
        } else {
            let scan = scan_integer_digits_u64(self.buf, self.idx);
            if scan.digits == 0 {
                return Err(self.error(ParseErrorCode::InvalidNumberValue));
            }
            self.idx = scan.end;
            int_value = scan.value;
            int_overflow = scan.overflow;
        }
        let has_fraction = self.consume_if(POINT);
        if has_fraction {
            if self.scan_digits() == 0 {
                self.idx = self.idx.saturating_add(1);
                return Err(self.error(ParseErrorCode::InvalidNumberValue));
            }
        }
        let has_exponent = match self.parse_exponent() {
            Ok(has_exponent) => has_exponent,
            Err(e) => {
                return Err(e);
            },
        };
        if !has_fraction && !has_exponent && !int_overflow {
            match integer_of(negative, int_value) {
                Some(number) => {
                    return Ok(NumberToken::Number(number));
                },
                None => {},
            }
        }
        Ok(NumberToken::Float(FloatSource::Decimal { start, end: self.idx }))
    }

    /// Reads an integer of the extended dialect that has nothing but digits and fits in 64 bits;
    /// otherwise stays where it is.
    fn try_parse_extended_integer_fast(&mut self) -> (r: Option<Number>)
        requires
            old(self).inside(),
        ensures
            final(self).kept(*old(self)),
            final(self).inside(),
            ({
                let text = old(self).buf@;
                let start = old(self).idx as int;
                let first = sign_end(text, start);
                &&& r == plain_integer(
                    text,
                    first,
                    digits_end(text, first),
                    byte_at(text, start) == Some(MINUS),
                )
                &&& final(self).idx == if r is Some {
                    digits_end(text, first)
                } else {
                    start
                }
                &&& old(self).idx <= final(self).idx
            }),
    {
        let start: usize = self.idx;
        let negative = self.consume_if(MINUS);
        if !negative {
            self.consume_if(PLUS);
        }
        let digit_start: usize = self.idx;
        let scan = scan_integer_digits_u64(self.buf, digit_start);
        if scan.digits == 0 {
            self.idx = start;
            return None;
        }
        self.idx = scan.end;
        match self.peek() {
            Some(byte) => {
                if byte == POINT || byte == UPPER_E || byte == LOWER_E {
                    self.idx = start;
                    return None;
                }
                if (byte == LOWER_X || byte == UPPER_X) && scan.digits == 1 && self.buf[digit_start]
                    == ZERO {
                    self.idx = start;
                    return None;
                }
            },
            None => {},
        }
        if scan.overflow {
            self.idx = start;
            return None;
        }
        match integer_of(negative, scan.value) {
            Some(number) => Some(number),
            None => {
                self.idx = start;
                None
            },
        }
    }

    /// Reads a hexadecimal number from behind its `x` on.
    fn parse_hex_number_value(&mut self, start: usize, negative: bool) -> (r: Result<
        NumberToken,
        Error,
    >)
        requires
            old(self).inside(),
        ensures
            final(self).read_number(
                *old(self),
                r,
                hex_number(old(self).buf@, start as int, old(self).idx as int, negative),
            ),
    {
        let int_start: usize = self.idx;
        let int_len: usize = self.scan_hexdigits();
        if int_len == 0 {
            return Err(self.error(ParseErrorCode::InvalidNumberValue));
        }
        let int_end: usize = self.idx;
        proof {
            lemma_hex_digits_end(self.buf@, int_start as int);
        }
        if self.consume_if(POINT) {
            let frac_start: usize = self.idx;
            let frac_len: usize = self.scan_hexdigits();
            if frac_len == 0 {
                return Err(self.error(ParseErrorCode::InvalidNumberValue));
            }
            proof {
                lemma_hex_digits_end(self.buf@, frac_start as int);
            }
            let integer = match parse_hex_digits(self.buf, int_start, int_end) {
                Some(integer) => integer,
                None => {
                    return Err(self.error(ParseErrorCode::InvalidNumberValue));
                },
            };
            let fraction = match parse_hex_digits(self.buf, frac_start, self.idx) {
                Some(fraction) => fraction,
                None => {
                    return Err(self.error(ParseErrorCode::InvalidNumberValue));
                },
            };
            return Ok(
                NumberToken::Float(
                    FloatSource::Hexadecimal {
                        start,
                        negative,
                        integer,
                        fraction,
                        fraction_digits: frac_len,
                    },
                ),
            );
        }
        let value = match parse_hex_digits(self.buf, int_start, int_end) {
            Some(value) => value,
            None => {
                return Err(self.error(ParseErrorCode::InvalidNumberValue));
            },
        };
        Ok(NumberToken::Number(hex_integer_of(negative, value)))
    }

    /// Reads the significant digits of a number with at most one point among them.
    #[verifier::rlimit(40)]
    fn scan_decimal(&mut self) -> (r: Result<DecimalScan, Error>)
        requires
            old(self).inside(),
        ensures
            final(self).kept(*old(self)),
            ({
                let text = old(self).buf@;
                let first = old(self).idx as int;
                let int_end = digits_end(text, first);
                let has_fraction = byte_at(text, int_end) == Some(POINT);
                let frac_end = fraction_end(text, int_end);
                let digits = significant_digits(text, first);
                if has_fraction && digits.len() < MAX_DECIMAL256_PRECISION && byte_at(
                    text,
                    frac_end,
                ) == Some(POINT) {
                    r matches Err(e) && final(self).idx == frac_end && e@ == ErrorModel::Syntax(
                        ParseErrorCode::InvalidNumberValue,
                        frac_end,
                    )
                } else {
                    &&& r matches Ok(scan)
                    &&& scan.has_fraction == has_fraction
                    &&& scan.precision == digits.len()
                    &&& digits.len() <= MAX_DECIMAL256_PRECISION ==> scan.scale == fraction_digits(
                        text,
                        int_end,
                    ) && scan.holds(digits)
                    &&& final(self).idx == frac_end
                    &&& first <= frac_end
                    &&& final(self).inside()
                }
            }),
    {
        let ghost text = self.buf@;
        let ghost first = self.idx as int;
        let ghost int_end = digits_end(text, first);
        let ghost mut digits = Seq::<u8>::empty();
        let mut hi_value: i128 = 0;
        let mut lo_value: i128 = 0;
        let mut scale: usize = 0;
        let mut precision: usize = 0;
        let mut has_fraction = false;
        let mut done = false;
        proof {
            lemma_digits_end(text, first);
            if int_end < text.len() {
                lemma_digits_end(text, int_end + 1);
            }
            lemma_pow10_monotonic(0, 38);
            lemma_pow10_38();
            assert(text.subrange(first, first) =~= digits);
            assert(digits.take(0) =~= digits);
        }
        while !done && precision < MAX_DECIMAL256_PRECISION
            invariant
                self.kept(*old(self)),
                self.inside(),
                text == self.buf@,
                first == old(self).idx,
                int_end == digits_end(text, first),
                first <= int_end <= text.len(),
                forall|i: int| first <= i < int_end ==> is_digit(#[trigger] text[i]),
                int_end < text.len() ==> !is_digit(text[int_end]),
                pow10(38) == 100_000_000_000_000_000_000_000_000_000_000_000_000,
                first <= self.idx,
                !has_fraction ==> self.idx <= int_end && digits == text.subrange(
                    first,
                    self.idx as int,
                ) && scale == 0,
                has_fraction ==> byte_at(text, int_end) == Some(POINT) && int_end < self.idx
                    && digits_end(text, int_end + 1) == digits_end(text, self.idx as int) && digits
                    == text.subrange(first, int_end) + text.subrange(int_end + 1, self.idx as int)
                    && scale == self.idx - int_end - 1,
                precision == digits.len(),
                precision <= MAX_DECIMAL256_PRECISION,
                all_digits(digits),
                (DecimalScan { hi_value, lo_value, scale, precision, has_fraction }).holds(digits),
                done ==> {
                    &&& self.idx == fraction_end(text, int_end)
                    &&& has_fraction == (byte_at(text, int_end) == Some(POINT))
                    &&& digits == significant_digits(text, first)
                    &&& scale == fraction_digits(text, int_end)
                    &&& has_fraction ==> byte_at(text, self.idx as int) != Some(POINT)
                },
            decreases text.len() - self.idx, if done { 0int } else { 1int },
        {
            match self.peek() {
                Some(byte) => {
                    if is_ascii_digit(byte) {
                        let ghost before = digits;
                        proof {
                            lemma_push_digit(hi_value as int, lo_value as int, digits, byte);
                            assert(!has_fraction ==> self.idx < int_end);
                            digits = digits.push(byte);
                        }
                        let digit = (byte - 0x30) as i128;
                        if precision < MAX_DECIMAL128_PRECISION {
                            hi_value = hi_value * 10 + digit;
                        } else {
                            lo_value = lo_value * 10 + digit;
                        }
                        self.idx = self.idx + 1;
                        precision += 1;
                        if has_fraction {
                            scale += 1;
                            assert(digits =~= text.subrange(first, int_end) + text.subrange(
                                int_end + 1,
                                self.idx as int,
                            ));
                        } else {
                            assert(digits =~= text.subrange(first, self.idx as int));
                        }
                    } else if byte == POINT {
                        proof {
                            if !has_fraction {
                                lemma_digits_end_from(text, first, self.idx as int);
                                assert(self.idx == int_end);
                            } else {
                                assert(self.idx == digits_end(text, self.idx as int));
                                assert(digits =~= significant_digits(text, first));
                            }
                        }
                        if has_fraction {
                            return Err(self.error(ParseErrorCode::InvalidNumberValue));
                        }
                        has_fraction = true;
                        self.idx = self.idx + 1;
                        assert(digits =~= text.subrange(first, int_end) + text.subrange(
                            int_end + 1,
                            self.idx as int,
                        ));
                    } else {
                        done = true;
                        proof {
                            if !has_fraction {
                                lemma_digits_end_from(text, first, self.idx as int);
                            }
                            assert(digits =~= significant_digits(text, first));
                        }
                    }
                },
                None => {
                    done = true;
                    proof {
                        if !has_fraction {
                            lemma_digits_end_from(text, first, self.idx as int);
                        }
                        assert(digits =~= significant_digits(text, first));
                    }
                },
            }
        }
        if precision == MAX_DECIMAL256_PRECISION && !done {
            if !has_fraction {
                proof {
                    lemma_digits_end_from(text, first, self.idx as int);
                }
                let len: usize = self.scan_digits();
                precision += len;
                has_fraction = self.consume_if(POINT);
            }
            if has_fraction {
                let len: usize = self.scan_digits();
                precision += len;
                scale += len;
            }
            proof {
                let all = significant_digits(text, first);
                assert(all.len() == precision);
                if all.len() == MAX_DECIMAL256_PRECISION {
                    assert(all =~= digits);
                }
            }
        }
        Ok(DecimalScan { hi_value, lo_value, scale, precision, has_fraction })
    }

    /// Reads a number of the extended dialect.
    fn parse_extended_number_value(&mut self) -> (r: Result<NumberToken, Error>)
        requires
            old(self).inside(),
        ensures
            final(self).read_number(
                *old(self),
                r,
                extended_number(old(self).buf@, old(self).idx as int),
            ),
    {
        let start: usize = self.idx;
        match self.try_parse_extended_integer_fast() {
            Some(number) => {
                return Ok(NumberToken::Number(number));
            },
            None => {},
        }
        let negative = self.consume_if(MINUS);
        if !negative {
            self.consume_if(PLUS);
        }
        let first: usize = self.idx;
        while self.idx < self.buf.len() && self.buf[self.idx] == ZERO
            invariant
                self.kept(*old(self)),
                self.inside(),
                first <= self.idx,
                zeros_end(self.buf@, first as int) == zeros_end(self.buf@, self.idx as int),
            decreases self.buf@.len() - self.idx,
        {
            self.idx = self.idx + 1;
        }
        let leading_zeros: usize = self.idx - first;
        let ghost digits = significant_digits(self.buf@, self.idx as int);
        let scan = match self.scan_decimal() {
            Ok(scan) => scan,
            Err(e) => {
                return Err(e);
            },
        };
        if leading_zeros == 0 && scan.precision == 0 {
            if scan.has_fraction {
                return Err(self.error(ParseErrorCode::InvalidNumberValue));
            }
            return self.parse_special_number_value(negative);
        }
        if leading_zeros == 1 && scan.precision == 0 && !scan.has_fraction {
            if self.consume_if(LOWER_X) || self.consume_if(UPPER_X) {
                return self.parse_hex_number_value(start, negative);
            }
        }
        let has_exponent = match self.parse_exponent() {
            Ok(has_exponent) => has_exponent,
            Err(e) => {
                return Err(e);
            },
        };
        if !has_exponent && scan.precision <= MAX_DECIMAL256_PRECISION {
            return Ok(NumberToken::Number(scan.number(negative, Ghost(digits))));
        }
        Ok(NumberToken::Float(FloatSource::Decimal { start, end: self.idx }))
    }

    /// Reads `Infinity` or `NaN` behind the sign of a number without digits.
    fn parse_special_number_value(&mut self, negative: bool) -> (r: Result<NumberToken, Error>)
        requires
            old(self).inside(),
        ensures
            final(self).read_number(
                *old(self),
                r,
                special_number(old(self).buf@, old(self).idx as int, negative),
            ),
    {
        match self.peek() {
            Some(byte) => {
                if byte == LOWER_I || byte == UPPER_I {
                    match self.expect_infinity() {
                        Ok(()) => {},
                        Err(e) => {
                            return Err(e);
                        },
                    }
                    return Ok(
                        NumberToken::Number(
                            Number::Float64(
                                if negative {
                                    NEG_INFINITY_BITS
                                } else {
                                    INFINITY_BITS
                                },
                            ),
                        ),
                    );
                }
                if byte == LOWER_N || byte == UPPER_N {
                    match self.expect_nan() {
                        Ok(()) => {},
                        Err(e) => {
                            return Err(e);
                        },
                    }
                    if negative {
                        return Err(self.error(ParseErrorCode::InvalidNumberValue));
                    }
                    return Ok(NumberToken::Number(Number::Float64(NAN_BITS)));
                }
            },
            None => {},
        }
        Err(self.error(ParseErrorCode::InvalidNumberValue))
    }

    /// Reads `infinity` in any case.
    fn expect_infinity(&mut self) -> (r: Result<(), Error>)
        requires
            old(self).inside(),
        ensures
            final(self).kept(*old(self)),
            final(self).inside(),
            old(self).idx <= final(self).idx,
            match word_end(old(self).buf@, old(self).idx as int, word_infinity(), true) {
                Ok(end) => r is Ok && final(self).idx == end,
                Err(m) => r matches Err(e) && e@ == m.error && final(self).idx == m.stop,
            },
    {
        let word: [u8; 8] = [0x69, 0x6e, 0x66, 0x69, 0x6e, 0x69, 0x74, 0x79];
        assert(word@ =~= word_infinity());
        self.expect_slice_ignore_ascii_case(word.as_slice())
    }

    /// Reads `nan` in any case.
    fn expect_nan(&mut self) -> (r: Result<(), Error>)
        requires
            old(self).inside(),
        ensures
            final(self).kept(*old(self)),
            final(self).inside(),
            old(self).idx <= final(self).idx,
            match word_end(old(self).buf@, old(self).idx as int, word_nan(), true) {
                Ok(end) => r is Ok && final(self).idx == end,
                Err(m) => r matches Err(e) && e@ == m.error && final(self).idx == m.stop,
            },
    {
        let word: [u8; 3] = [0x6e, 0x61, 0x6e];
        assert(word@ =~= word_nan());
        self.expect_slice_ignore_ascii_case(word.as_slice())
    }

    /// Reads a number.
    fn parse_number_value(&mut self) -> (r: Result<NumberToken, Error>)
        requires
            old(self).inside(),
        ensures
            final(self).read_number(
                *old(self),
                r,
                number(old(self).buf@, old(self).idx as int, STANDARD),
            ),
    {
        if STANDARD {
            self.parse_standard_number_value()
        } else {
            self.parse_extended_number_value()
        }
    }

    /// A value was written behind what was there, and read as expected.
    spec fn appended(self, before: Self, v: EncodedValue, value: JsonValue) -> bool {
        let encoded = encoded(value, self.floats@);
        &&& self.writer.buf@ == before.writer.buf@ + encoded.bytes
        &&& v.start == before.writer.buf@.len()
        &&& v.len == encoded.bytes.len()
        &&& v.jentry == encoded.jentry
        &&& self.writer.jentries@ == before.writer.jentries@
        &&& self.object_entries@ == before.object_entries@
        &&& self.needed@ == before.needed@ + missing(float_sources(value), self.floats@)
    }

    /// A value was read as expected and written, or refused as expected.
    spec fn wrote(
        self,
        before: Self,
        r: Result<EncodedValue, Error>,
        expected: Result<(JsonValue, int), Refusal>,
    ) -> bool {
        &&& self.buf == before.buf
        &&& self.floats == before.floats
        &&& match expected {
            Ok((value, end)) => r matches Ok(v) && self.appended(before, v, value) && self.idx
                == end && before.idx <= end && self.inside(),
            Err(m) => r matches Err(e) && e@ == m.error && self.idx == m.stop,
        }
    }

    /// A word that stands for a value without bytes, once it has been read.
    fn finish_word(&self, r: Result<(), Error>, tag: u32) -> (v: Result<EncodedValue, Error>)
        ensures
            match r {
                Ok(()) => v matches Ok(value) && value.jentry == tag && value.len == 0
                    && value.start == self.writer.buf@.len(),
                Err(e) => v == Err::<EncodedValue, Error>(e),
            },
    {
        match r {
            Ok(()) => Ok(self.writer.empty_value(tag)),
            Err(e) => Err(e),
        }
    }

    /// Reads `null`.
    fn parse_standard_null(&mut self) -> (r: Result<EncodedValue, Error>)
        requires
            old(self).inside(),
        ensures
            final(self).wrote(
                *old(self),
                r,
                word_value(
                    old(self).buf@,
                    old(self).idx as int,
                    word_null(),
                    false,
                    JsonValue::Null,
                ),
            ),
    {
        let word: [u8; 4] = [0x6e, 0x75, 0x6c, 0x6c];
        assert(word@ =~= word_null());
        let r = self.expect_slice(word.as_slice());
        self.finish_word(r, NULL_TAG)
    }

    /// Reads `true`.
    fn parse_standard_true(&mut self) -> (r: Result<EncodedValue, Error>)
        requires
            old(self).inside(),
        ensures
            final(self).wrote(
                *old(self),
                r,
                word_value(
                    old(self).buf@,
                    old(self).idx as int,
                    word_true(),
                    false,
                    JsonValue::Bool(true),
                ),
            ),
    {
        let word: [u8; 4] = [0x74, 0x72, 0x75, 0x65];
        assert(word@ =~= word_true());
        let r = self.expect_slice(word.as_slice());
        self.finish_word(r, TRUE_TAG)
    }

    /// Reads `false`.
    fn parse_standard_false(&mut self) -> (r: Result<EncodedValue, Error>)
        requires
            old(self).inside(),
        ensures
            final(self).wrote(
                *old(self),
                r,
                word_value(
                    old(self).buf@,
                    old(self).idx as int,
                    word_false(),
                    false,
                    JsonValue::Bool(false),
                ),
            ),
    {
        let word: [u8; 5] = [0x66, 0x61, 0x6c, 0x73, 0x65];
        assert(word@ =~= word_false());
        let r = self.expect_slice(word.as_slice());
        self.finish_word(r, FALSE_TAG)
    }

    /// Reads `true` in any case.
    fn parse_extended_true(&mut self) -> (r: Result<EncodedValue, Error>)
        requires
            old(self).inside(),
        ensures
            final(self).wrote(
                *old(self),
                r,
                word_value(
                    old(self).buf@,
                    old(self).idx as int,
                    word_true(),
                    true,
                    JsonValue::Bool(true),
                ),
            ),
    {
        let word: [u8; 4] = [0x74, 0x72, 0x75, 0x65];
        assert(word@ =~= word_true());
        let r = self.expect_slice_ignore_ascii_case(word.as_slice());
        self.finish_word(r, TRUE_TAG)
    }

    /// Reads `false` in any case.
    fn parse_extended_false(&mut self) -> (r: Result<EncodedValue, Error>)
        requires
            old(self).inside(),
        ensures
            final(self).wrote(
                *old(self),
                r,
                word_value(
                    old(self).buf@,
                    old(self).idx as int,
                    word_false(),
                    true,
                    JsonValue::Bool(false),
                ),
            ),
    {
        let word: [u8; 5] = [0x66, 0x61, 0x6c, 0x73, 0x65];
        assert(word@ =~= word_false());
        let r = self.expect_slice_ignore_ascii_case(word.as_slice());
        self.finish_word(r, FALSE_TAG)
    }

    /// Reads `null` or `nan` in any case.
    fn parse_extended_null_or_nan(&mut self) -> (r: Result<EncodedValue, Error>)
        requires
            old(self).inside(),
        ensures
            final(self).wrote(
                *old(self),
                r,
                if word_end(old(self).buf@, old(self).idx as int, word_null(), true) is Ok {
                    word_value(
                        old(self).buf@,
                        old(self).idx as int,
                        word_null(),
                        true,
                        JsonValue::Null,
                    )
                } else {
                    word_value(
                        old(self).buf@,
                        old(self).idx as int,
                        word_nan(),
                        true,
                        number_value(Number::Float64(NAN_BITS)),
                    )
                },
            ),
    {
        let idx: usize = self.idx;
        let word: [u8; 4] = [0x6e, 0x75, 0x6c, 0x6c];
        assert(word@ =~= word_null());
        let null = self.expect_slice_ignore_ascii_case(word.as_slice());
        if null.is_ok() {
            return self.finish_word(null, NULL_TAG);
        }
        self.idx = idx;
        match self.expect_nan() {
            Ok(()) => Ok(self.writer.append_number(Number::Float64(NAN_BITS))),
            Err(e) => Err(e),
        }
    }

    /// Reads `infinity` in any case.
    fn parse_extended_infinity(&mut self, negative: bool) -> (r: Result<EncodedValue, Error>)
        requires
            old(self).inside(),
        ensures
            final(self).wrote(
                *old(self),
                r,
                word_value(
                    old(self).buf@,
                    old(self).idx as int,
                    word_infinity(),
                    true,
                    number_value(
                        Number::Float64(
                            if negative {
                                NEG_INFINITY_BITS
                            } else {
                                INFINITY_BITS
                            },
                        ),
                    ),
                ),
            ),
    {
        match self.expect_infinity() {
            Ok(()) => {},
            Err(e) => {
                return Err(e);
            },
        }
        let bits: u64 = if negative {
            NEG_INFINITY_BITS
        } else {
            INFINITY_BITS
        };
        Ok(self.writer.append_number(Number::Float64(bits)))
    }

    /// The number that a literal denotes; a literal to be converted is noted where its bits are
    /// not known.
    fn resolve(&mut self, token: NumberToken) -> (num: Number)
        ensures
            num == resolved(token, old(self).floats@),
            final(self).buf == old(self).buf,
            final(self).idx == old(self).idx,
            final(self).writer == old(self).writer,
            final(self).object_entries == old(self).object_entries,
            final(self).floats == old(self).floats,
            final(self).needed@ == old(self).needed@ + missing(
                float_sources(JsonValue::Number(token)),
                old(self).floats@,
            ),
    {
        match token {
            NumberToken::Number(num) => num,
            NumberToken::Float(source) => {
                proof {
                    let one = seq![source];
                    assert(one.drop_last() =~= Seq::empty());
                    reveal_with_fuel(missing, 2);
                }
                match self.floats.get(source.start()) {
                    Some(bits) => Number::Float64(bits),
                    None => {
                        self.needed.push(source);
                        assert(self.needed@ =~= old(self).needed@ + seq![source]);
                        Number::Float64(0)
                    },
                }
            },
        }
    }

    /// Reads a number and writes it.
    fn parse_number(&mut self) -> (r: Result<EncodedValue, Error>)
        requires
            old(self).inside(),
        ensures
            final(self).wrote(
                *old(self),
                r,
                match number(old(self).buf@, old(self).idx as int, STANDARD) {
                    Ok((token, end)) => Ok((JsonValue::Number(token), end)),
                    Err(e) => Err(e),
                },
            ),
    {
        match self.parse_number_value() {
            Ok(token) => {
                let num = self.resolve(token);
                Ok(self.writer.append_number(num))
            },
            Err(e) => Err(e),
        }
    }

    /// Reads a string from behind its opening quote on and writes it.
    fn parse_string(&mut self, end_quote: u8) -> (r: Result<EncodedValue, Error>)
        requires
            old(self).inside(),
        ensures
            final(self).wrote(
                *old(self),
                r,
                match quoted_string(old(self).buf@, old(self).idx as int, end_quote) {
                    Ok((string, end)) => Ok((JsonValue::Text(string), end)),
                    Err(e) => Err(e),
                },
            ),
    {
        match self.parse_quoted_string(end_quote) {
            Ok(value) => Ok(self.writer.append_string(cow_bytes(&value))),
            Err(e) => Err(e),
        }
    }

    /// Reads what follows an item of an array.
    fn consume_array_delimiter(&mut self) -> (r: Result<ContainerDelimiter, Error>)
        requires
            old(self).inside(),
        ensures
            final(self).kept(*old(self)),
            final(self).inside(),
            ({
                let close = unused_end(old(self).buf@, old(self).idx as int);
                match byte_at(old(self).buf@, close) {
                    None => r matches Err(e) && final(self).idx == close && e@
                        == ErrorModel::Syntax(ParseErrorCode::InvalidEOF, close),
                    Some(byte) => if byte == COMMA {
                        r == Ok::<_, Error>(ContainerDelimiter::Next) && final(self).idx == close
                            + 1 && old(self).idx <= close
                    } else if byte == CLOSE_BRACKET {
                        r == Ok::<_, Error>(ContainerDelimiter::End) && final(self).idx == close
                            + 1 && old(self).idx <= close
                    } else {
                        r matches Err(e) && final(self).idx == close && e@ == ErrorModel::Syntax(
                            ParseErrorCode::ExpectedArrayCommaOrEnd,
                            close,
                        )
                    },
                }
            }),
    {
        self.skip_unused();
        if self.idx >= self.buf.len() {
            return Err(self.error(ParseErrorCode::InvalidEOF));
        }
        if self.consume_if(COMMA) {
            return Ok(ContainerDelimiter::Next);
        }
        if self.consume_if(CLOSE_BRACKET) {
            return Ok(ContainerDelimiter::End);
        }
        Err(self.error(ParseErrorCode::ExpectedArrayCommaOrEnd))
    }

    /// Reads what follows a member of an object.
    fn consume_object_delimiter(&mut self) -> (r: Result<ContainerDelimiter, Error>)
        requires
            old(self).inside(),
        ensures
            final(self).kept(*old(self)),
            final(self).inside(),
            ({
                let close = unused_end(old(self).buf@, old(self).idx as int);
                match byte_at(old(self).buf@, close) {
                    None => r matches Err(e) && final(self).idx == close && e@
                        == ErrorModel::Syntax(ParseErrorCode::InvalidEOF, close),
                    Some(byte) => if byte == COMMA {
                        r == Ok::<_, Error>(ContainerDelimiter::Next) && final(self).idx == close
                            + 1 && old(self).idx <= close
                    } else if byte == CLOSE_BRACE {
                        r == Ok::<_, Error>(ContainerDelimiter::End) && final(self).idx == close
                            + 1 && old(self).idx <= close
                    } else {
                        r matches Err(e) && final(self).idx == close && e@ == ErrorModel::Syntax(
                            ParseErrorCode::ExpectedObjectCommaOrEnd,
                            close,
                        )
                    },
                }
            }),
    {
        self.skip_unused();
        if self.idx >= self.buf.len() {
            return Err(self.error(ParseErrorCode::InvalidEOF));
        }
        if self.consume_if(COMMA) {
            return Ok(ContainerDelimiter::Next);
        }
        if self.consume_if(CLOSE_BRACE) {
            return Ok(ContainerDelimiter::End);
        }
        Err(self.error(ParseErrorCode::ExpectedObjectCommaOrEnd))
    }

    /// A parser at the start of a text.
    fn new(buf: &'a [u8], floats: &'a FloatTable) -> (parser: Self)
        ensures
            parser.buf == buf,
            parser.floats == floats,
            parser.idx == 0,
            parser.inside(),
            parser.writer.buf@ == Seq::<u8>::empty(),
            parser.needed@ == Seq::<FloatSource>::empty(),
    {
        DirectParser {
            buf,
            idx: 0,
            writer: JsonbWriter::with_capacity(buf.len()),
            object_entries: Vec::with_capacity(32),
            floats,
            needed: Vec::new(),
        }
    }

    /// Reads a value and writes it.
    fn parse_value(&mut self) -> (r: Result<EncodedValue, Error>)
        requires
            old(self).inside(),
        ensures
            final(self).wrote(
                *old(self),
                r,
                value(old(self).buf@, old(self).idx as int, STANDARD),
            ),
        decreases remaining(old(self).buf@, old(self).idx as int), 1int,
    {
        let ghost text = self.buf@;
        proof {
            lemma_unused_end_again(text, self.idx as int);
        }
        self.skip_unused();
        assert(value(text, old(self).idx as int, STANDARD) == value(
            text,
            self.idx as int,
            STANDARD,
        ));
        let byte = match self.peek() {
            Some(byte) => byte,
            None => {
                if STANDARD {
                    return Err(self.error(ParseErrorCode::InvalidEOF));
                }
                return Ok(self.writer.empty_value(NULL_TAG));
            },
        };
        if byte == OPEN_BRACKET {
            return self.parse_array();
        }
        if byte == OPEN_BRACE {
            return self.parse_object();
        }
        if STANDARD {
            if byte == LOWER_N {
                return self.parse_standard_null();
            }
            if byte == LOWER_T {
                return self.parse_standard_true();
            }
            if byte == LOWER_F {
                return self.parse_standard_false();
            }
        } else {
            if byte == LOWER_N || byte == UPPER_N {
                return self.parse_extended_null_or_nan();
            }
            if byte == LOWER_T || byte == UPPER_T {
                return self.parse_extended_true();
            }
            if byte == LOWER_F || byte == UPPER_F {
                return self.parse_extended_false();
            }
            if byte == LOWER_I || byte == UPPER_I {
                return self.parse_extended_infinity(false);
            }
        }
        if is_ascii_digit(byte) || byte == MINUS || (!STANDARD && (byte == PLUS || byte == POINT)) {
            return self.parse_number();
        }
        if byte == QUOTE || (!STANDARD && byte == APOSTROPHE) {
            self.idx = self.idx + 1;
            return self.parse_string(byte);
        }
        self.idx = self.idx + 1;
        Err(self.error(ParseErrorCode::ExpectedSomeValue))
    }

    /// Reads an array and writes it.
    #[verifier::rlimit(40)]
    fn parse_array(&mut self) -> (r: Result<EncodedValue, Error>)
        requires
            old(self).inside(),
            byte_at(old(self).buf@, old(self).idx as int) == Some(OPEN_BRACKET),
        ensures
            final(self).wrote(
                *old(self),
                r,
                value(old(self).buf@, old(self).idx as int, STANDARD),
            ),
        decreases remaining(old(self).buf@, old(self).idx as int), 0int,
    {
        let ghost text = self.buf@;
        let ghost floats = self.floats@;
        let ghost mut items = Seq::<JsonValue>::empty();
        let frame_start: usize = self.writer.buf.len();
        let jentry_start: usize = self.writer.jentries.len();
        self.idx = self.idx + 1;
        self.skip_unused();
        proof {
            assert(encoded_items(items, floats) =~= Seq::empty());
            assert(self.writer.jentries@ =~= old(self).writer.jentries@ + encoded_items(
                items,
                floats,
            ).map_values(|e: Encoded| e.jentry));
            assert(self.writer.buf@ =~= old(self).writer.buf@ + payload(
                encoded_items(items, floats),
            ));
            assert(self.needed@ =~= old(self).needed@ + missing(item_sources(items), floats));
        }
        let mut done = self.consume_if(CLOSE_BRACKET);
        while !done
            invariant
                self.buf == old(self).buf,
                self.floats == old(self).floats,
                text == self.buf@,
                floats == self.floats@,
                self.inside(),
                old(self).idx < self.idx,
                frame_start == old(self).writer.buf@.len(),
                jentry_start == old(self).writer.jentries@.len(),
                !done ==> value(text, old(self).idx as int, STANDARD) == array_items(
                    text,
                    self.idx as int,
                    STANDARD,
                    items,
                ),
                done ==> value(text, old(self).idx as int, STANDARD) == Ok::<_, Refusal>(
                    (JsonValue::Array(items), self.idx as int),
                ),
                self.object_entries@ == old(self).object_entries@,
                self.writer.buf@ == old(self).writer.buf@ + payload(encoded_items(items, floats)),
                self.writer.jentries@ == old(self).writer.jentries@ + encoded_items(
                    items,
                    floats,
                ).map_values(|e: Encoded| e.jentry),
                self.needed@ == old(self).needed@ + missing(item_sources(items), floats),
            decreases remaining(text, self.idx as int), if done { 0int } else { 1int },
        {
            let ghost before = *self;
            let left_out = !STANDARD && match self.peek() {
                Some(byte) => byte == COMMA || byte == CLOSE_BRACKET,
                None => false,
            };
            let ghost mut item = JsonValue::Null;
            let value = if left_out {
                assert(before.writer.buf@ =~= before.writer.buf@ + encoded(item, floats).bytes);
                assert(before.needed@ =~= before.needed@ + missing(float_sources(item), floats));
                self.writer.empty_value(NULL_TAG)
            } else {
                match self.parse_value() {
                    Ok(v) => {
                        proof {
                            item = value(text, before.idx as int, STANDARD)->Ok_0.0;
                        }
                        v
                    },
                    Err(e) => {
                        return Err(e);
                    },
                }
            };
            self.writer.jentries.push(value.jentry);
            proof {
                lemma_encoded_items_push(items, item, floats);
                lemma_payload_push(encoded_items(items, floats), encoded(item, floats));
                lemma_missing_concat(item_sources(items), float_sources(item), floats);
                let all = encoded_items(items, floats);
                let more = encoded_items(items.push(item), floats);
                assert(more.map_values(|e: Encoded| e.jentry) =~= all.map_values(
                    |e: Encoded| e.jentry,
                ).push(value.jentry));
                assert(self.writer.jentries@ =~= old(self).writer.jentries@ + more.map_values(
                    |e: Encoded| e.jentry,
                ));
                assert(self.writer.buf@ =~= old(self).writer.buf@ + payload(more));
                assert(self.needed@ =~= old(self).needed@ + missing(
                    item_sources(items.push(item)),
                    floats,
                ));
                items = items.push(item);
            }
            match self.consume_array_delimiter() {
                Ok(ContainerDelimiter::End) => {
                    done = true;
                },
                Ok(ContainerDelimiter::Next) => {
                    self.skip_unused();
                },
                Err(e) => {
                    return Err(e);
                },
            }
        }
        proof {
            let all = encoded_items(items, floats);
            assert(self.writer.jentries@.skip(jentry_start as int) =~= all.map_values(
                |e: Encoded| e.jentry,
            ));
            assert(self.writer.jentries@.take(jentry_start as int)
                =~= old(self).writer.jentries@);
            assert(self.writer.buf@.skip(frame_start as int) =~= payload(all));
            assert(self.writer.buf@.take(frame_start as int) =~= old(self).writer.buf@);
        }
        Ok(self.writer.close_array(frame_start, jentry_start))
    }

    /// The members from `entry_start` on are those that were read, in order; `ends` are the
    /// offsets behind their keys.
    spec fn holds_members(self, entry_start: int, members: Seq<Member>, ends: Seq<int>) -> bool {
        let entries = self.object_entries@.skip(entry_start);
        &&& entry_start <= self.object_entries@.len()
        &&& entries.len() == members.len()
        &&& ends.len() == members.len()
        &&& entry_keys(entries) == member_keys(members)
        &&& entry_values(self.writer.buf@, entries) == encoded_members(members, self.floats@)
        &&& forall|i: int| 0 <= i < entries.len() ==> (#[trigger] entries[i]).pos == ends[i]
        &&& forall|i: int|
            0 <= i < entries.len() ==> lies_in(self.writer.buf@, (#[trigger] entries[i]).value)
    }

    /// Ends an object: its members are those from `entry_start` on.
    fn close_object_frame(
        &mut self,
        frame_start: usize,
        entry_start: usize,
        Ghost(members): Ghost<Seq<Member>>,
        Ghost(ends): Ghost<Seq<int>>,
    ) -> (r: Result<EncodedValue, Error>)
        requires
            frame_start <= old(self).writer.buf@.len(),
            old(self).holds_members(entry_start as int, members, ends),
        ensures
            final(self).buf == old(self).buf,
            final(self).floats == old(self).floats,
            final(self).idx == old(self).idx,
            final(self).needed == old(self).needed,
            match object_value(members, ends, old(self).idx as int) {
                Err(m) => r matches Err(e) && e@ == m.error && final(self).idx == m.stop,
                Ok((object, _)) => r matches Ok(v) && ({
                    let encoded = encoded(object, old(self).floats@);
                    &&& final(self).writer.buf@ == old(self).writer.buf@.take(frame_start as int)
                        + encoded.bytes
                    &&& v.start == frame_start
                    &&& v.len == encoded.bytes.len()
                    &&& v.jentry == encoded.jentry
                    &&& final(self).object_entries@ == old(self).object_entries@.take(
                        entry_start as int,
                    )
                }),
            },
            final(self).writer.jentries@ == old(self).writer.jentries@,
    {
        let ghost entries = self.object_entries@.skip(entry_start as int);
        let ghost keys = member_keys(members);
        proof {
            lemma_key_order(keys);
            lemma_first_repeat_in_range(keys, key_order(keys), 0);
            if let Some(i) = repeated_key(keys) {
                assert(entry_keys(entries)[i] == keys[i]);
                encode_utf8_decode_utf8(entries[i].key@);
            }
        }
        let all = slice_subrange(
            self.object_entries.as_slice(),
            entry_start,
            self.object_entries.len(),
        );
        assert(all@ =~= entries);
        match self.writer.close_object(frame_start, all) {
            Ok(value) => {
                self.object_entries.truncate(entry_start);
                assert(self.object_entries@ =~= old(self).object_entries@.take(entry_start as int));
                Ok(value)
            },
            Err(e) => Err(e),
        }
    }

    /// Reads an object and writes it.
    #[verifier::rlimit(40)]
    fn parse_object(&mut self) -> (r: Result<EncodedValue, Error>)
        requires
            old(self).inside(),
            byte_at(old(self).buf@, old(self).idx as int) == Some(OPEN_BRACE),
        ensures
            final(self).wrote(
                *old(self),
                r,
                value(old(self).buf@, old(self).idx as int, STANDARD),
            ),
        decreases remaining(old(self).buf@, old(self).idx as int), 0int,
    {
        let ghost text = self.buf@;
        let ghost floats = self.floats@;
        let ghost mut members = Seq::<Member>::empty();
        let ghost mut ends = Seq::<int>::empty();
        let frame_start: usize = self.writer.buf.len();
        let entry_start: usize = self.object_entries.len();
        self.idx = self.idx + 1;
        self.skip_unused();
        let mut done = self.consume_if(CLOSE_BRACE);
        proof {
            assert(self.object_entries@.skip(entry_start as int) =~= Seq::empty());
            assert(entry_keys(Seq::<ObjectEntry<'a>>::empty()) =~= member_keys(members));
            assert(entry_values(self.writer.buf@, Seq::<ObjectEntry<'a>>::empty())
                =~= encoded_members(members, floats));
            assert(self.object_entries@.take(entry_start as int) =~= old(self).object_entries@);
            assert(self.writer.buf@.take(frame_start as int) =~= old(self).writer.buf@);
            assert(self.needed@ =~= old(self).needed@ + missing(member_sources(members), floats));
            lemma_no_repeat_in_empty();
        }
        while !done
            invariant
                self.buf == old(self).buf,
                self.floats == old(self).floats,
                text == self.buf@,
                floats == self.floats@,
                self.inside(),
                old(self).idx < self.idx,
                frame_start == old(self).writer.buf@.len(),
                entry_start == old(self).object_entries@.len(),
                !done ==> value(text, old(self).idx as int, STANDARD) == object_members(
                    text,
                    self.idx as int,
                    STANDARD,
                    members,
                    ends,
                ),
                done ==> value(text, old(self).idx as int, STANDARD) == object_value(
                    members,
                    ends,
                    self.idx as int,
                ),
                self.writer.jentries@ == old(self).writer.jentries@,
                frame_start <= self.writer.buf@.len(),
                self.writer.buf@.take(frame_start as int) == old(self).writer.buf@,
                self.object_entries@.take(entry_start as int) == old(self).object_entries@,
                self.holds_members(entry_start as int, members, ends),
                self.needed@ == old(self).needed@ + missing(member_sources(members), floats),
            decreases remaining(text, self.idx as int), if done { 0int } else { 1int },
        {
            let ghost before = *self;
            let key = match self.parse_object_key() {
                Ok(key) => key,
                Err(e) => {
                    return Err(e);
                },
            };
            let pos: usize = self.idx;
            self.skip_unused();
            match self.expect_byte(COLON) {
                Ok(()) => {},
                Err(e) => {
                    return Err(e);
                },
            }
            let ghost colon_end = self.idx as int;
            let v = match self.parse_value() {
                Ok(v) => v,
                Err(e) => {
                    return Err(e);
                },
            };
            let ghost member = Member {
                key: encode_utf8(key@),
                value: value(text, colon_end, STANDARD)->Ok_0.0,
            };
            let ghost entry = ObjectEntry { key, value: v, pos };
            self.object_entries.push(ObjectEntry { key, value: v, pos });
            proof {
                lemma_missing_concat(
                    member_sources(members),
                    float_sources(member.value),
                    floats,
                );
                lemma_encoded_members_push(members, member, floats);
                assert(self.needed@ =~= old(self).needed@ + missing(
                    member_sources(members.push(member)),
                    floats,
                ));
                assert(self.writer.buf@.take(frame_start as int)
                    =~= before.writer.buf@.take(frame_start as int));
                assert(self.object_entries@.take(entry_start as int)
                    =~= before.object_entries@.take(entry_start as int));
                let entries = before.object_entries@.skip(entry_start as int);
                assert(self.object_entries@.skip(entry_start as int) =~= entries.push(entry));
                lemma_entry_pushed(before.writer.buf@, entries, members, entry, member, floats);
                members = members.push(member);
                ends = ends.push(pos as int);
                assert(self.holds_members(entry_start as int, members, ends));
            }
            match self.consume_object_delimiter() {
                Ok(ContainerDelimiter::End) => {
                    done = true;
                },
                Ok(ContainerDelimiter::Next) => {
                    self.skip_unused();
                },
                Err(e) => {
                    return Err(e);
                },
            }
        }
        self.close_object_frame(frame_start, entry_start, Ghost(members), Ghost(ends))
    }

    /// Reads a whole text and gives its encoding, or the literals that are to be converted first.
    fn parse_owned(&mut self) -> (r: Result<Parsed, Error>)
        requires
            old(self).inside(),
            old(self).idx == 0,
            old(self).writer.buf@ == Seq::<u8>::empty(),
            old(self).needed@ == Seq::<FloatSource>::empty(),
        ensures
            parses(old(self).buf@, STANDARD, old(self).floats@, r),
            final(self).idx == match document(old(self).buf@, STANDARD) {
                Ok(_) => old(self).buf@.len() as int,
                Err(m) => m.stop,
            },
    {
        let value = match self.parse_value() {
            Ok(value) => value,
            Err(e) => {
                return Err(e);
            },
        };
        self.skip_unused();
        if self.idx < self.buf.len() {
            self.idx = self.idx + 1;
            return Err(self.error(ParseErrorCode::UnexpectedTrailingCharacters));
        }
        let ghost root = document(self.buf@, STANDARD)->Ok_0;
        let ghost bytes = encoded(root, self.floats@).bytes;
        assert(self.needed@ =~= missing(float_sources(root), self.floats@));
        assert(self.writer.buf@ =~= bytes);
        if self.needed.len() > 0 {
            let mut needed: Vec<FloatSource> = Vec::new();
            std::mem::swap(&mut needed, &mut self.needed);
            return Ok(Parsed::NeedsFloats(needed));
        }
        if value.jentry & CONTAINER_TAG == CONTAINER_TAG {
            let mut out: Vec<u8> = Vec::new();
            std::mem::swap(&mut out, &mut self.writer.buf);
            Ok(Parsed::Jsonb(OwnedJsonb::new(out)))
        } else {
            let mut out: Vec<u8> = Vec::new();
            write_u32(&mut out, SCALAR_CONTAINER_TAG);
            write_u32(&mut out, value.jentry);
            append(&mut out, self.writer.value_bytes(value));
            assert(self.writer.buf@.subrange(0, bytes.len() as int) =~= bytes);
            assert(out@ =~= document_bytes(encoded(root, self.floats@)));
            Ok(Parsed::Jsonb(OwnedJsonb::new(out)))
        }
    }
}

/// Members that were read and written stay so when another one is read and written behind them.
proof fn lemma_entry_pushed(
    buf: Seq<u8>,
    entries: Seq<ObjectEntry<'_>>,
    members: Seq<Member>,
    entry: ObjectEntry<'_>,
    member: Member,
    floats: Map<usize, u64>,
)
    requires
        entry_keys(entries) == member_keys(members),
        entry_values(buf, entries) == encoded_members(members, floats),
        forall|i: int| 0 <= i < entries.len() ==> lies_in(buf, (#[trigger] entries[i]).value),
        encode_utf8(entry.key@) == member.key,
        entry.value.jentry == encoded(member.value, floats).jentry,
        entry.value.start == buf.len(),
        entry.value.len == encoded(member.value, floats).bytes.len(),
    ensures
        ({
            let more_buf = buf + encoded(member.value, floats).bytes;
            let more = entries.push(entry);
            &&& entry_keys(more) == member_keys(members.push(member))
            &&& entry_values(more_buf, more) == encoded_members(members.push(member), floats)
            &&& forall|i: int| 0 <= i < more.len() ==> lies_in(more_buf, (#[trigger] more[i]).value)
        }),
{
    let new = encoded(member.value, floats);
    let more_buf = buf + new.bytes;
    let more = entries.push(entry);
    assert(entry_keys(more) =~= entry_keys(entries).push(member.key));
    assert(member_keys(members.push(member)) =~= member_keys(members).push(member.key));
    lemma_encoded_members_push(members, member, floats);
    let values = entry_values(buf, entries);
    let more_values = entry_values(more_buf, more);
    assert(written(more_buf, entry.value).bytes =~= new.bytes);
    assert forall|i: int| 0 <= i < more_values.len() implies #[trigger] more_values[i]
        == values.push(new)[i] by {
        if i < values.len() {
            let e = entries[i];
            assert(more[i] == e);
            assert(lies_in(buf, e.value));
            assert(written(more_buf, e.value).bytes =~= written(buf, e.value).bytes);
            assert(values[i] == written(buf, e.value));
        }
    }
    assert(more_values =~= values.push(new));
}

/// No key is repeated where there are none.
proof fn lemma_no_repeat_in_empty()
    ensures
        repeated_key(member_keys(Seq::<Member>::empty())) is None,
{
    lemma_key_order(member_keys(Seq::<Member>::empty()));
}

/// What follows an item or a member: another one, or the end of the container.
#[derive(Debug, Clone, Copy, PartialEq, Eq)]
enum ContainerDelimiter {
    Next,
    End,
}

/// The significant digits of a number: the first ones in `hi_value`, the others in `lo_value`.
struct DecimalScan {
    hi_value: i128,
    lo_value: i128,
    /// The number of digits behind the point.
    scale: usize,
    /// The number of digits.
    precision: usize,
    /// There is a point.
    has_fraction: bool,
}

/// The first digits, as many as fit in 128 bits, and the others, as numbers.
spec fn halves(hi: int, lo: int, digits: Seq<u8>) -> bool {
    if digits.len() <= MAX_DECIMAL128_PRECISION {
        hi == decimal_value(digits) && lo == 0
    } else {
        &&& hi == decimal_value(digits.take(MAX_DECIMAL128_PRECISION as int))
        &&& lo == decimal_value(digits.skip(MAX_DECIMAL128_PRECISION as int))
    }
}

/// One more digit goes to the first half while it has room, then to the second.
proof fn lemma_push_digit(hi: int, lo: int, digits: Seq<u8>, digit: u8)
    requires
        halves(hi, lo, digits),
        all_digits(digits),
        is_digit(digit),
        digits.len() < MAX_DECIMAL256_PRECISION,
        pow10(38) == 100_000_000_000_000_000_000_000_000_000_000_000_000,
    ensures
        all_digits(digits.push(digit)),
        digits.len() < MAX_DECIMAL128_PRECISION ==> halves(
            hi * 10 + (digit - 0x30),
            lo,
            digits.push(digit),
        ) && 0 <= hi && 10 * hi + 9 < pow10(38),
        digits.len() >= MAX_DECIMAL128_PRECISION ==> halves(
            hi,
            lo * 10 + (digit - 0x30),
            digits.push(digit),
        ) && 0 <= lo && 10 * lo + 9 < pow10(38),
{
    let n = MAX_DECIMAL128_PRECISION as int;
    if digits.len() < n {
        lemma_radix_value_push(digits, digit, 10);
        lemma_decimal_value_bound(digits);
        lemma_pow10_monotonic(digits.len(), 37);
    } else {
        let low = digits.skip(n);
        lemma_radix_value_push(low, digit, 10);
        assert(all_digits(low)) by {
            assert forall|i: int| 0 <= i < low.len() implies is_digit(#[trigger] low[i]) by {
                assert(low[i] == digits[i + n]);
            }
        }
        lemma_decimal_value_bound(low);
        lemma_pow10_monotonic(low.len(), 37);
        assert(digits.push(digit).skip(n) =~= low.push(digit));
        assert(digits.push(digit).take(n) =~= digits.take(n));
        if digits.len() == n {
            assert(low =~= Seq::empty());
            assert(digits.take(n) =~= digits);
        }
    }
}

proof fn lemma_pow10_38()
    ensures
        pow10(38) == 100_000_000_000_000_000_000_000_000_000_000_000_000,
{
    reveal_with_fuel(pow10, 39);
}

/// Ten to the power `n`.
fn power_of_ten(n: usize) -> (r: i128)
    requires
        n <= MAX_DECIMAL128_PRECISION,
    ensures
        r == pow10(n as nat),
        1 <= r <= 100_000_000_000_000_000_000_000_000_000_000_000_000,
{
    let mut r: i128 = 1;
    let mut i: usize = 0;
    proof {
        lemma_pow10_38();
        lemma_pow10_monotonic(n as nat, 38);
    }
    while i < n
        invariant
            i <= n,
            n <= MAX_DECIMAL128_PRECISION,
            r == pow10(i as nat),
            pow10(38) == 100_000_000_000_000_000_000_000_000_000_000_000_000,
        decreases n - i,
    {
        proof {
            lemma_pow10_monotonic((i + 1) as nat, 38);
        }
        r = r * 10;
        i += 1;
    }
    r
}

impl DecimalScan {
    /// The two halves hold the given digits.
    spec fn holds(self, digits: Seq<u8>) -> bool {
        &&& halves(self.hi_value as int, self.lo_value as int, digits)
        &&& all_digits(digits)
        &&& self.precision == digits.len()
    }

    /// The number that the digits are, with the given sign.
    fn number(&self, negative: bool, Ghost(digits): Ghost<Seq<u8>>) -> (r: Number)
        requires
            self.precision <= MAX_DECIMAL256_PRECISION,
            self.scale <= self.precision,
            self.holds(digits),
        ensures
            r == decimal_number(
                negative,
                decimal_value(digits),
                digits.len() as int,
                self.scale as int,
            ),
    {
        if self.precision > MAX_DECIMAL128_PRECISION {
            return self.wide_number(negative, Ghost(digits));
        }
        proof {
            lemma_pow10_38();
            lemma_decimal_value_bound(digits);
            lemma_pow10_monotonic(digits.len(), 38);
        }
        let value: i128 = if negative {
            -self.hi_value
        } else {
            self.hi_value
        };
        if self.scale == 0 && 0 <= value && value <= 0xffff_ffff_ffff_ffff {
            return Number::UInt64(value as u64);
        }
        if self.scale == 0 && -0x8000_0000_0000_0000 <= value && value <= 0x7fff_ffff_ffff_ffff {
            return Number::Int64(value as i64);
        }
        if -DECIMAL64_MAX <= value && value <= DECIMAL64_MAX && self.precision
            <= MAX_DECIMAL64_PRECISION {
            return Number::Decimal64(Decimal64 { scale: self.scale as u8, value: value as i64 });
        }
        Number::Decimal128(Decimal128 { scale: self.scale as u8, value })
    }

    /// The number that the digits are, with the given sign, where one half does not hold them.
    fn wide_number(&self, negative: bool, Ghost(digits): Ghost<Seq<u8>>) -> (r: Number)
        requires
            MAX_DECIMAL128_PRECISION < self.precision <= MAX_DECIMAL256_PRECISION,
            self.scale <= self.precision,
            self.holds(digits),
        ensures
            r == decimal_number(
                negative,
                decimal_value(digits),
                digits.len() as int,
                self.scale as int,
            ),
    {
        let power: i128 = power_of_ten(self.precision - MAX_DECIMAL128_PRECISION);
        proof {
            lemma_pow10_38();
            lemma_halves_value(self.hi_value as int, self.lo_value as int, digits, power as int);
        }
        let shifted = int256_mul(int256_from_i128(self.hi_value), int256_from_i128(power));
        let magnitude = int256_sum(shifted, int256_from_i128(self.lo_value));
        let value = if negative {
            int256_mul(magnitude, int256_from_i128(-1))
        } else {
            magnitude
        };
        proof {
            lemma_int256(value);
        }
        Number::Decimal256(Decimal256 { scale: self.scale as u8, value })
    }
}

/// The number that two halves are together.
proof fn lemma_halves_value(hi: int, lo: int, digits: Seq<u8>, power: int)
    requires
        halves(hi, lo, digits),
        all_digits(digits),
        MAX_DECIMAL128_PRECISION < digits.len() <= MAX_DECIMAL256_PRECISION,
        power == pow10((digits.len() - MAX_DECIMAL128_PRECISION) as nat),
        pow10(38) == 100_000_000_000_000_000_000_000_000_000_000_000_000,
    ensures
        hi * power + lo == decimal_value(digits),
        0 <= hi < pow10(38),
        0 <= lo < pow10(38),
        0 <= hi * power,
        hi * power + lo
            < 10_000_000_000_000_000_000_000_000_000_000_000_000_000_000_000_000_000_000_000_000_000_000_000_000_000int,
{
    let n = MAX_DECIMAL128_PRECISION as int;
    let high = digits.take(n);
    let low = digits.skip(n);
    assert(digits =~= high + low);
    lemma_decimal_value_concat(high, low);
    assert(all_digits(high)) by {
        assert forall|i: int| 0 <= i < high.len() implies is_digit(#[trigger] high[i]) by {
            assert(high[i] == digits[i]);
        }
    }
    assert(all_digits(low)) by {
        assert forall|i: int| 0 <= i < low.len() implies is_digit(#[trigger] low[i]) by {
            assert(low[i] == digits[i + n]);
        }
    }
    lemma_decimal_value_bound(high);
    lemma_decimal_value_bound(low);
    lemma_pow10_monotonic(low.len(), 38);
    let top = 100_000_000_000_000_000_000_000_000_000_000_000_000int;
    assert(0 <= hi * power <= (top - 1) * top) by (nonlinear_arith)
        requires
            0 <= hi <= top - 1,
            1 <= power <= top,
    ;
    assert((top - 1) * top + top
        == 10_000_000_000_000_000_000_000_000_000_000_000_000_000_000_000_000_000_000_000_000_000_000_000_000_000int);
}

/// A letter of ASCII in lower case; any other byte as it is.
fn to_lower(byte: u8) -> (r: u8)
    ensures
        r == lower(byte),
{
    if 0x41 <= byte && byte <= 0x5a {
        byte + 0x20
    } else {
        byte
    }
}

/// Tells whether a byte is a letter, a digit, `_` or `$`.
fn is_unquoted_byte(byte: u8) -> (r: bool)
    ensures
        r == is_key_byte(byte),
{
    is_ascii_digit(byte) || (0x41 <= byte && byte <= 0x5a) || (0x61 <= byte && byte <= 0x7a) || byte
        == UNDERSCORE || byte == DOLLAR
}

/// The 64-bit integer of the given sign and magnitude, if there is one.
fn integer_of(negative: bool, magnitude: u64) -> (r: Option<Number>)
    ensures
        r == integer_number(negative, magnitude as nat),
{
    if !negative {
        return Some(Number::UInt64(magnitude));
    }
    if magnitude <= 0x7fff_ffff_ffff_ffff {
        return Some(Number::Int64(-(magnitude as i64)));
    }
    if magnitude == 0x8000_0000_0000_0000 {
        return Some(Number::Int64(i64::MIN));
    }
    None
}

/// The number that hexadecimal digits spell, if it fits in 128 bits.
fn parse_hex_digits(buf: &[u8], start: usize, end: usize) -> (r: Option<u128>)
    requires
        start <= end <= buf@.len(),
        forall|i: int| start <= i < end ==> is_hex_digit(#[trigger] buf@[i]),
    ensures
        ({
            let value = radix_value(buf@.subrange(start as int, end as int), 16);
            match r {
                Some(v) => v == value,
                None => value > u128::MAX,
            }
        }),
{
    let mut value: u128 = 0;
    let mut overflow = false;
    let mut i: usize = start;
    assert(buf@.subrange(start as int, start as int) =~= Seq::empty());
    while i < end
        invariant
            start <= i <= end <= buf@.len(),
            forall|i: int| start <= i < end ==> is_hex_digit(#[trigger] buf@[i]),
            overflow == (radix_value(buf@.subrange(start as int, i as int), 16) > u128::MAX),
            !overflow ==> value == radix_value(buf@.subrange(start as int, i as int), 16),
        decreases end - i,
    {
        proof {
            lemma_radix_value_push(buf@.subrange(start as int, i as int), buf@[i as int], 16);
            assert(buf@.subrange(start as int, i as int).push(buf@[i as int]) =~= buf@.subrange(
                start as int,
                i + 1,
            ));
        }
        if !overflow {
            let digit = hex_digit(buf[i]) as u128;
            match value.checked_mul(16) {
                Some(shifted) => {
                    match shifted.checked_add(digit) {
                        Some(next) => {
                            value = next;
                        },
                        None => {
                            overflow = true;
                        },
                    }
                },
                None => {
                    overflow = true;
                },
            }
        }
        i += 1;
    }
    if overflow {
        None
    } else {
        Some(value)
    }
}

/// The integer of the given sign and magnitude: the first of the kinds that holds it.
fn hex_integer_of(negative: bool, value: u128) -> (r: Number)
    ensures
        r == hex_integer(negative, value as nat),
{
    if value <= 0xffff_ffff_ffff_ffff {
        match integer_of(negative, value as u64) {
            Some(number) => {
                return number;
            },
            None => {},
        }
    }
    if negative {
        if value <= DECIMAL128_MAX as u128 + 1 {
            return Number::Decimal128(Decimal128 { scale: 0, value: -(value as i128) });
        }
        let value256 = int256_mul(int256_from_u128(value), int256_from_i128(-1));
        proof {
            lemma_int256(value256);
        }
        Number::Decimal256(Decimal256 { scale: 0, value: value256 })
    } else {
        if value <= DECIMAL128_MAX as u128 {
            return Number::Decimal128(Decimal128 { scale: 0, value: value as i128 });
        }
        let value256 = int256_from_u128(value);
        proof {
            lemma_int256(value256);
        }
        Number::Decimal256(Decimal256 { scale: 0, value: value256 })
    }
}

} // verus!
