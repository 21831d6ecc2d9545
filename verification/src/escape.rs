//! The contents of quoted strings: UTF-8 and escapes.

use vstd::prelude::*;
use vstd::slice::slice_subrange;
use vstd::string::StringSliceAdditionalSpecFns;
use vstd::utf8::{decode_utf8, encode_scalar, encode_utf8_decode_utf8, is_scalar, valid_utf8};

use crate::ascii::{
    BACKSLASH, CLOSE_BRACE, LOWER_B, LOWER_F, LOWER_N, LOWER_R, LOWER_T, LOWER_U, OPEN_BRACE, QUOTE,
    SLASH,
};
use crate::bytes::append;
use crate::error::{Error, ErrorModel, ParseErrorCode};
use crate::scan::{digit_value, is_ascii_digit, is_ascii_hexdigit, is_hex_digit, radix_value};

verus! {

/// `std::str::from_utf8`: gives back the bytes as a string exactly where they are UTF-8.
#[verifier::external_body]
pub(crate) fn str_from_utf8(bytes: &[u8]) -> (r: Option<&str>)
    ensures
        r is Some <==> valid_utf8(bytes@),
        r matches Some(s) ==> s.spec_bytes() == bytes@,
{
    std::str::from_utf8(bytes).ok()
}

/// The characters that a string decoded from bytes holds.
pub(crate) proof fn lemma_decoded(s: &str, bytes: Seq<u8>)
    requires
        s.spec_bytes() == bytes,
    ensures
        s@ == decode_utf8(bytes),
{
    encode_utf8_decode_utf8(s@);
}

/// The four digits of a `\u` escape whose first byte behind the `u` is at `i`, and the offset
/// behind it: either the next four bytes, or four bytes in braces. Errors count from `pos`.
pub open spec fn hex_escape(data: Seq<u8>, i: int, pos: int) -> Result<
    (Seq<u8>, int),
    ErrorModel,
> {
    let (first, next) = if i < data.len() && data[i] == OPEN_BRACE {
        (i + 1, i + 6)
    } else {
        (i, i + 4)
    };
    if next > data.len() {
        Err(ErrorModel::Syntax(ParseErrorCode::InvalidEOF, pos + i))
    } else if next == i + 6 && data[i + 5] != CLOSE_BRACE {
        Err(ErrorModel::Syntax(ParseErrorCode::UnexpectedEndOfHexEscape, pos + i))
    } else if !is_hex_digit(data[first]) {
        Err(ErrorModel::Syntax(ParseErrorCode::InvalidHex(data[first]), pos + next))
    } else if !is_hex_digit(data[first + 1]) {
        Err(ErrorModel::Syntax(ParseErrorCode::InvalidHex(data[first + 1]), pos + next))
    } else if !is_hex_digit(data[first + 2]) {
        Err(ErrorModel::Syntax(ParseErrorCode::InvalidHex(data[first + 2]), pos + next))
    } else if !is_hex_digit(data[first + 3]) {
        Err(ErrorModel::Syntax(ParseErrorCode::InvalidHex(data[first + 3]), pos + next))
    } else {
        Ok((data.subrange(first, first + 4), next))
    }
}

/// An escape that stands for no character, spelled out.
pub open spec fn spelled_escape(digits: Seq<u8>) -> Seq<u8> {
    seq![0x5cu8, 0x75u8] + digits
}

/// The bytes that one escape stands for, and the offset behind it. `i` is the offset behind the
/// backslash; errors count from `pos`. A pair of surrogates stands for one character; a surrogate
/// outside a pair is spelled out.
pub open spec fn escaped(data: Seq<u8>, i: int, pos: int) -> Result<(Seq<u8>, int), ErrorModel>
    decreases data.len() - i,
{
    if i >= data.len() {
        Err(ErrorModel::Syntax(ParseErrorCode::InvalidEOF, pos + i))
    } else if data[i] == BACKSLASH || data[i] == QUOTE || data[i] == SLASH {
        Ok((seq![data[i]], i + 1))
    } else if data[i] == LOWER_B {
        Ok((seq![0x08u8], i + 1))
    } else if data[i] == LOWER_F {
        Ok((seq![0x0cu8], i + 1))
    } else if data[i] == LOWER_N {
        Ok((seq![0x0au8], i + 1))
    } else if data[i] == LOWER_R {
        Ok((seq![0x0du8], i + 1))
    } else if data[i] == LOWER_T {
        Ok((seq![0x09u8], i + 1))
    } else if data[i] == LOWER_U {
        match hex_escape(data, i + 1, pos) {
            Err(e) => Err(e),
            Ok((digits, next)) => {
                let n = radix_value(digits, 16);
                if 0xdc00 <= n <= 0xdfff {
                    Ok((spelled_escape(digits), next))
                } else if 0xd800 <= n <= 0xdbff {
                    if next >= data.len() || data[next] != BACKSLASH {
                        Ok((spelled_escape(digits), next))
                    } else if next + 1 >= data.len() || data[next + 1] != LOWER_U {
                        match escaped(data, next + 1, pos) {
                            Err(e) => Err(e),
                            Ok((more, end)) => Ok((spelled_escape(digits) + more, end)),
                        }
                    } else {
                        match hex_escape(data, next + 2, pos) {
                            Err(e) => Err(e),
                            Ok((low_digits, end)) => {
                                let low = radix_value(low_digits, 16);
                                if 0xdc00 <= low <= 0xdfff {
                                    let c = 0x1_0000 + (n - 0xd800) * 0x400 + (low - 0xdc00);
                                    Ok((encode_scalar(c as u32), end))
                                } else {
                                    Ok((spelled_escape(digits) + spelled_escape(low_digits), end))
                                }
                            },
                        }
                    }
                } else {
                    Ok((encode_scalar(n as u32), next))
                }
            },
        }
    } else {
        Err(ErrorModel::Syntax(ParseErrorCode::InvalidEscaped(data[i]), pos + i + 1))
    }
}

/// An escape takes at least one byte behind its backslash and none beyond the end.
pub proof fn lemma_escaped_advances(data: Seq<u8>, i: int, pos: int)
    requires
        0 <= i,
    ensures
        escaped(data, i, pos) matches Ok((_, next)) ==> i < next <= data.len(),
    decreases data.len() - i,
{
    if i < data.len() && data[i] == LOWER_U {
        if let Ok((_, next)) = hex_escape(data, i + 1, pos) {
            if next < data.len() {
                lemma_escaped_advances(data, next + 1, pos);
            }
        }
    }
}

/// What the bytes from `i` on stand for once every escape is replaced; errors count from `pos`.
pub open spec fn unescaped(data: Seq<u8>, i: int, pos: int) -> Result<Seq<u8>, ErrorModel>
    decreases data.len() - i,
{
    if i < 0 || i >= data.len() {
        Ok(seq![])
    } else if data[i] != BACKSLASH {
        match unescaped(data, i + 1, pos) {
            Ok(rest) => Ok(seq![data[i]] + rest),
            Err(e) => Err(e),
        }
    } else {
        match escaped(data, i + 1, pos) {
            Ok((bytes, next)) => {
                proof {
                    lemma_escaped_advances(data, i + 1, pos);
                }
                match unescaped(data, next, pos) {
                    Ok(rest) => Ok(bytes + rest),
                    Err(e) => Err(e),
                }
            },
            Err(e) => Err(e),
        }
    }
}

/// The string that quoted contents with escapes stand for, as UTF-8.
pub open spec fn escaped_string(data: Seq<u8>, pos: int) -> Result<Seq<u8>, ErrorModel> {
    match unescaped(data, 0, pos) {
        Ok(bytes) => if valid_utf8(bytes) {
            Ok(bytes)
        } else {
            Err(ErrorModel::InvalidUtf8)
        },
        Err(e) => Err(e),
    }
}

/// The number that a hexadecimal digit stands for.
pub fn hex_digit(byte: u8) -> (r: u32)
    requires
        is_hex_digit(byte),
    ensures
        r == digit_value(byte),
        r < 16,
{
    if is_ascii_digit(byte) {
        (byte - 0x30) as u32
    } else if byte <= 0x46 {
        (byte - 0x41 + 10) as u32
    } else {
        (byte - 0x61 + 10) as u32
    }
}

/// Four hexadecimal digits with the number they spell and the offset behind them.
struct HexEscape {
    first: usize,
    value: u32,
    next: usize,
}

/// Reads the digits of a `\u` escape.
fn decode_hex_escape(data: &[u8], i: usize, pos: usize) -> (r: Result<HexEscape, Error>)
    requires
        i <= data@.len(),
        pos + data@.len() <= usize::MAX,
    ensures
        match r {
            Ok(h) => hex_escape(data@, i as int, pos as int) == Ok::<_, ErrorModel>(
                (data@.subrange(h.first as int, h.first + 4), h.next as int),
            ) && h.value == radix_value(data@.subrange(h.first as int, h.first + 4), 16)
                && h.value <= 0xffff && h.first + 4 <= h.next <= data@.len() && i <= h.first,
            Err(e) => hex_escape(data@, i as int, pos as int) == Err::<(Seq<u8>, int), _>(e@),
        },
{
    let braced = i < data.len() && data[i] == OPEN_BRACE;
    let more: usize = if braced {
        6
    } else {
        4
    };
    if data.len() - i < more {
        return Err(Error::Syntax(ParseErrorCode::InvalidEOF, pos + i));
    }
    let next: usize = i + more;
    let first: usize = if braced {
        i + 1
    } else {
        i
    };
    if braced && data[i + 5] != CLOSE_BRACE {
        return Err(Error::Syntax(ParseErrorCode::UnexpectedEndOfHexEscape, pos + i));
    }
    let mut value: u32 = 0;
    let mut k: usize = 0;
    assert(data@.subrange(first as int, first as int) =~= Seq::empty());
    while k < 4
        invariant
            k <= 4,
            first + 4 <= next <= data@.len(),
            pos + data@.len() <= usize::MAX,
            value == radix_value(data@.subrange(first as int, first + k), 16),
            k == 0 ==> value == 0,
            k == 1 ==> value <= 0xf,
            k == 2 ==> value <= 0xff,
            k == 3 ==> value <= 0xfff,
            k == 4 ==> value <= 0xffff,
            forall|j: int| first <= j < first + k ==> is_hex_digit(#[trigger] data@[j]),
            i <= data@.len(),
            braced == (i < data@.len() && data@[i as int] == OPEN_BRACE),
            first == (if braced {
                i + 1
            } else {
                i as int
            }),
            next == (if braced {
                i + 6
            } else {
                i + 4
            }),
            braced ==> data@[i + 5] == CLOSE_BRACE,
        decreases 4 - k,
    {
        let byte = data[first + k];
        if !is_ascii_hexdigit(byte) {
            assert(k > 0 ==> is_hex_digit(data@[first as int]));
            assert(k > 1 ==> is_hex_digit(data@[first + 1]));
            assert(k > 2 ==> is_hex_digit(data@[first + 2]));
            return Err(Error::Syntax(ParseErrorCode::InvalidHex(byte), pos + next));
        }
        assert(data@.subrange(first as int, first + k + 1).drop_last() =~= data@.subrange(
            first as int,
            first + k,
        ));
        value = value * 16 + hex_digit(byte);
        k += 1;
    }
    assert(is_hex_digit(data@[first as int]) && is_hex_digit(data@[first + 1]) && is_hex_digit(
        data@[first + 2],
    ) && is_hex_digit(data@[first + 3]));
    Ok(HexEscape { first, value, next })
}

/// Appends the UTF-8 encoding of a character.
fn push_scalar(out: &mut Vec<u8>, c: u32)
    requires
        is_scalar(c),
    ensures
        final(out)@ == old(out)@ + encode_scalar(c),
{
    if c <= 0x7f {
        out.push((c & 0x7f) as u8);
    } else if c <= 0x7ff {
        out.push(0xc0 | ((c >> 6) & 0x1f) as u8);
        out.push(0x80 | (c & 0x3f) as u8);
    } else if c <= 0xffff {
        out.push(0xe0 | ((c >> 12) & 0x0f) as u8);
        out.push(0x80 | ((c >> 6) & 0x3f) as u8);
        out.push(0x80 | (c & 0x3f) as u8);
    } else {
        out.push(0xf0 | ((c >> 18) & 0x07) as u8);
        out.push(0x80 | ((c >> 12) & 0x3f) as u8);
        out.push(0x80 | ((c >> 6) & 0x3f) as u8);
        out.push(0x80 | (c & 0x3f) as u8);
    }
    assert(out@ =~= old(out)@ + encode_scalar(c));
}

/// Appends an escape that stands for no character.
fn push_spelled(out: &mut Vec<u8>, digits: &[u8])
    ensures
        final(out)@ == old(out)@ + spelled_escape(digits@),
{
    out.push(BACKSLASH);
    out.push(LOWER_U);
    append(out, digits);
    assert(out@ =~= old(out)@ + spelled_escape(digits@));
}

/// Appends what one escape stands for and returns the offset behind it.
fn parse_escaped_string(data: &[u8], i: usize, pos: usize, out: &mut Vec<u8>) -> (r: Result<
    usize,
    Error,
>)
    requires
        i <= data@.len(),
        pos + data@.len() <= usize::MAX,
    ensures
        match r {
            Ok(next) => i < next <= data@.len() && (escaped(data@, i as int, pos as int) matches Ok(
                (bytes, end),
            ) && end == next && final(out)@ == old(out)@ + bytes),
            Err(e) => escaped(data@, i as int, pos as int) == Err::<(Seq<u8>, int), _>(e@),
        },
    decreases data@.len() - i,
{
    if i >= data.len() {
        return Err(Error::Syntax(ParseErrorCode::InvalidEOF, pos + i));
    }
    let byte = data[i];
    if byte != LOWER_U {
        let plain: u8 = if byte == BACKSLASH || byte == QUOTE || byte == SLASH {
            byte
        } else if byte == LOWER_B {
            0x08
        } else if byte == LOWER_F {
            0x0c
        } else if byte == LOWER_N {
            0x0a
        } else if byte == LOWER_R {
            0x0d
        } else if byte == LOWER_T {
            0x09
        } else {
            return Err(Error::Syntax(ParseErrorCode::InvalidEscaped(byte), pos + i + 1));
        };
        out.push(plain);
        assert(out@ =~= old(out)@ + seq![plain]);
        return Ok(i + 1);
    }
    let high = match decode_hex_escape(data, i + 1, pos) {
        Ok(h) => h,
        Err(e) => {
            return Err(e);
        },
    };
    let digits = slice_subrange(data, high.first, high.first + 4);
    let n = high.value;
    let next = high.next;
    if 0xdc00 <= n && n <= 0xdfff {
        push_spelled(out, digits);
        return Ok(next);
    }
    if n < 0xd800 || n > 0xdbff {
        push_scalar(out, n);
        return Ok(next);
    }
    if next >= data.len() || data[next] != BACKSLASH {
        push_spelled(out, digits);
        return Ok(next);
    }
    if next + 1 >= data.len() || data[next + 1] != LOWER_U {
        push_spelled(out, digits);
        let r = parse_escaped_string(data, next + 1, pos, out);
        assert(escaped(data@, next + 1, pos as int) matches Ok((bytes, _)) ==> old(out)@
            + spelled_escape(digits@) + bytes =~= old(out)@ + (spelled_escape(digits@) + bytes));
        return r;
    }
    let low = match decode_hex_escape(data, next + 2, pos) {
        Ok(h) => h,
        Err(e) => {
            return Err(e);
        },
    };
    if 0xdc00 <= low.value && low.value <= 0xdfff {
        push_scalar(out, 0x1_0000 + (n - 0xd800) * 0x400 + (low.value - 0xdc00));
    } else {
        let low_digits = slice_subrange(data, low.first, low.first + 4);
        push_spelled(out, digits);
        push_spelled(out, low_digits);
        assert(out@ =~= old(out)@ + (spelled_escape(digits@) + spelled_escape(low_digits@)));
    }
    Ok(low.next)
}

/// Replaces the escapes in the contents of a quoted string. Errors count from `pos`.
pub fn parse_string(data: &[u8], pos: usize) -> (r: Result<String, Error>)
    requires
        pos + data@.len() <= usize::MAX,
    ensures
        match r {
            Ok(s) => escaped_string(data@, pos as int) == Ok::<_, ErrorModel>(
                vstd::utf8::encode_utf8(s@),
            ),
            Err(e) => escaped_string(data@, pos as int) == Err::<Seq<u8>, _>(e@),
        },
{
    let mut out: Vec<u8> = Vec::with_capacity(data.len());
    let mut i: usize = 0;
    let ghost whole = unescaped(data@, 0, pos as int);
    proof {
        if let Ok(rest) = whole {
            assert(rest =~= out@ + rest);
        }
    }
    while i < data.len()
        invariant
            i <= data@.len(),
            pos + data@.len() <= usize::MAX,
            whole == unescaped(data@, 0, pos as int),
            match unescaped(data@, i as int, pos as int) {
                Ok(rest) => whole == Ok::<_, ErrorModel>(out@ + rest),
                Err(e) => whole == Err::<Seq<u8>, _>(e),
            },
        decreases data@.len() - i,
    {
        let ghost before = out@;
        let byte = data[i];
        if byte == BACKSLASH {
            match parse_escaped_string(data, i + 1, pos, &mut out) {
                Ok(next) => {
                    proof {
                        let bytes = escaped(data@, i + 1, pos as int)->Ok_0.0;
                        if let Ok(rest) = unescaped(data@, next as int, pos as int) {
                            assert(before + (bytes + rest) =~= out@ + rest);
                        }
                    }
                    i = next;
                },
                Err(e) => {
                    return Err(e);
                },
            }
        } else {
            out.push(byte);
            proof {
                if let Ok(rest) = unescaped(data@, i + 1, pos as int) {
                    assert(before + (seq![byte] + rest) =~= out@ + rest);
                }
            }
            i += 1;
        }
    }
    assert(out@ + Seq::<u8>::empty() =~= out@);
    match str_from_utf8(out.as_slice()) {
        Some(s) => Ok(s.to_owned()),
        None => Err(Error::InvalidUtf8),
    }
}

} // verus!
