//! Strings: which characters the contents of quotes stand for.

use vstd::prelude::*;
use vstd::utf8::{
    char_is_scalar, encode_scalar, encode_utf8, encode_utf8_valid_utf8, is_scalar, valid_utf8,
    valid_utf8_concat,
};

use crate::error::{ErrorModel, ParseErrorCode, Refusal};
use crate::escape::{escaped, escaped_string, hex_escape, spelled_escape, unescaped};
use crate::grammar::{document, quoted_string, unused_end};
use crate::numerals::{hex_figures, lemma_scalar_document, lemma_spelled_in_hex, spelled_in};
use crate::scan::{
    digit_value, escape_end, is_hex_digit, lemma_string_scan, radix_value, string_scan,
    StringScanError,
};
use crate::spelling::key_meaning;
use crate::value::JsonValue;

verus! {

/// A `\u` escape of four hexadecimal figures, bare or in braces, that spell a number.
pub open spec fn unicode_escape(s: Seq<u8>, n: int) -> bool {
    ||| s.len() == 6 && s[0] == 0x5c && s[1] == 0x75 && hex_figures(s.subrange(2, 6)) && spelled_in(
        s.subrange(2, 6),
        16,
    ) == n
    ||| s.len() == 8 && s[0] == 0x5c && s[1] == 0x75 && s[2] == 0x7b && s[7] == 0x7d && hex_figures(
        s.subrange(3, 7),
    ) && spelled_in(s.subrange(3, 7), 16) == n
}

/// Bytes that stand for a character between quotes: the character itself, unless it is the
/// backslash or the quote; a backslash and a letter; its number in an escape; or, for a character
/// beyond 16 bits, its two surrogates in escapes.
pub open spec fn spells(s: Seq<u8>, c: char, quote: u8) -> bool {
    ||| c as int != 0x5c && c as int != quote && s == encode_utf8(seq![c])
    ||| c as int == 0x22 && s == seq![0x5cu8, 0x22]
    ||| c as int == 0x5c && s == seq![0x5cu8, 0x5c]
    ||| c as int == 0x2f && s == seq![0x5cu8, 0x2f]
    ||| c as int == 0x08 && s == seq![0x5cu8, 0x62]
    ||| c as int == 0x0c && s == seq![0x5cu8, 0x66]
    ||| c as int == 0x0a && s == seq![0x5cu8, 0x6e]
    ||| c as int == 0x0d && s == seq![0x5cu8, 0x72]
    ||| c as int == 0x09 && s == seq![0x5cu8, 0x74]
    ||| unicode_escape(s, c as int)
    ||| exists|k: int|
        0 <= k <= s.len() && c as int >= 0x1_0000 && #[trigger] unicode_escape(
            s.take(k),
            0xd800 + (c as int - 0x1_0000) / 0x400,
        ) && unicode_escape(s.skip(k), 0xdc00 + (c as int - 0x1_0000) % 0x400)
}

proof fn lemma_figures(a: u8)
    ensures
        (0x30 <= a <= 0x39 || 0x41 <= a <= 0x46 || 0x61 <= a <= 0x66) <==> is_hex_digit(a),
{
}

/// The escape is found where it stands.
proof fn lemma_unicode_escape(data: Seq<u8>, i: int, s: Seq<u8>, n: int, pos: int)
    requires
        0 <= i,
        i + s.len() <= data.len(),
        data.subrange(i, i + s.len()) == s,
        unicode_escape(s, n),
    ensures
        data[i] == 0x5c,
        data[i + 1] == 0x75,
        escape_end(data, i) == Some(i + s.len()),
        hex_escape(data, i + 2, pos) matches Ok((digits, next)) && next == i + s.len()
            && radix_value(digits, 16) == n && digits == if s.len() == 6 {
            s.subrange(2, 6)
        } else {
            s.subrange(3, 7)
        },
        0 <= n <= 0xffff,
{
    let part = data.subrange(i, i + s.len());
    assert forall|k: int| 0 <= k < s.len() implies data[i + k] == #[trigger] s[k] by {
        assert(part[k] == data[i + k]);
    }
    assert(data[i + 0] == s[0] && data[i + 1] == s[1] && data[i + 2] == s[2]);
    let (first, digits) = if s.len() == 6 {
        (2int, s.subrange(2, 6))
    } else {
        (3int, s.subrange(3, 7))
    };
    assert(data.subrange(i + first, i + first + 4) =~= digits) by {
        assert forall|k: int| 0 <= k < 4 implies data.subrange(i + first, i + first + 4)[k]
            == digits[k] by {
            assert(data[i + (first + k)] == s[first + k]);
        }
    }
    assert(data[i + (first + 0)] == s[first + 0] && s[first + 0] == digits[0]);
    assert(data[i + (first + 1)] == s[first + 1] && s[first + 1] == digits[1]);
    assert(data[i + (first + 2)] == s[first + 2] && s[first + 2] == digits[2]);
    assert(data[i + (first + 3)] == s[first + 3] && s[first + 3] == digits[3]);
    lemma_figures(digits[0]);
    lemma_figures(digits[1]);
    lemma_figures(digits[2]);
    lemma_figures(digits[3]);
    if s.len() == 8 {
        assert(data[i + 7] == s[7]);
    } else {
        lemma_figures(digits[0]);
        assert(digits[0] == s[2]);
    }
    lemma_spelled_in_hex(digits);
    lemma_four_figures(digits);
}

proof fn lemma_four_figures(digits: Seq<u8>)
    requires
        digits.len() == 4,
        hex_figures(digits),
    ensures
        radix_value(digits, 16) <= 0xffff,
{
    let a = digits.drop_last();
    let b = a.drop_last();
    let c = b.drop_last();
    assert(a.last() == digits[2] && b.last() == digits[1] && c.last() == digits[0]);
    assert(c.drop_last() =~= Seq::<u8>::empty());
    lemma_figures(digits[0]);
    lemma_figures(digits[1]);
    lemma_figures(digits[2]);
    lemma_figures(digits[3]);
    assert(radix_value(Seq::<u8>::empty(), 16) == 0);
    assert(radix_value(c, 16) == digit_value(digits[0]));
    assert(radix_value(b, 16) <= 0xff);
    assert(radix_value(a, 16) <= 0xfff);
}

/// The bytes of one character.
pub proof fn lemma_one(c: char)
    ensures
        encode_utf8(seq![c]) == encode_scalar(c as u32),
        is_scalar(c as u32),
        valid_utf8(encode_utf8(seq![c])),
{
    assert(seq![c].drop_first() =~= Seq::<char>::empty());
    assert(encode_utf8(Seq::<char>::empty()) == Seq::<u8>::empty());
    assert(encode_scalar(c as u32) + Seq::<u8>::empty() =~= encode_scalar(c as u32));
    char_is_scalar(c);
    encode_utf8_valid_utf8(seq![c]);
}

/// A character of ASCII is one byte; the bytes of any other are not of ASCII.
pub proof fn lemma_raw_bytes(c: char)
    ensures
        c as int <= 0x7f ==> encode_utf8(seq![c]) == seq![c as u8] && c as u8 == c as int,
        c as int > 0x7f ==> forall|k: int|
            0 <= k < encode_utf8(seq![c]).len() ==> #[trigger] encode_utf8(seq![c])[k] >= 0x80,
        encode_utf8(seq![c]).len() > 0,
{
    let n = c as u32;
    lemma_one(c);
    assert(n <= 0x7f ==> n & 0x7f == n) by (bit_vector);
    assert(0xC0u8 | ((n >> 6) & 0x1F) as u8 >= 0x80 && 0xE0u8 | ((n >> 12) & 0x0F) as u8 >= 0x80
        && 0xF0u8 | ((n >> 18) & 0x7) as u8 >= 0x80 && 0x80u8 | (n & 0x3F) as u8 >= 0x80 && 0x80u8
        | ((n >> 6) & 0x3F) as u8 >= 0x80 && 0x80u8 | ((n >> 12) & 0x3F) as u8 >= 0x80)
        by (bit_vector);
    if n <= 0x7f {
        assert(encode_utf8(seq![c]) =~= seq![c as u8]);
    }
}

/// Bytes that are neither escapes nor quotes are passed one by one.
proof fn lemma_plain_bytes(data: Seq<u8>, i: int, end: int, quote: u8, pos: int)
    requires
        0 <= i <= end <= data.len(),
        forall|k: int| i <= k < end ==> #[trigger] data[k] != 0x5c && data[k] != quote,
    ensures
        string_scan(data, i, quote, false) == string_scan(data, end, quote, false),
        unescaped(data, i, pos) == match unescaped(data, end, pos) {
            Ok(rest) => Ok::<_, ErrorModel>(data.subrange(i, end) + rest),
            Err(e) => Err(e),
        },
    decreases end - i,
{
    if i < end {
        assert(data[i] != 0x5c);
        lemma_plain_bytes(data, i + 1, end, quote, pos);
        if let Ok(rest) = unescaped(data, end, pos) {
            assert(seq![data[i]] + (data.subrange(i + 1, end) + rest) =~= data.subrange(i, end)
                + rest);
        }
    } else {
        if let Ok(rest) = unescaped(data, end, pos) {
            assert(data.subrange(i, end) + rest =~= rest);
        }
    }
}

/// One spelled character is passed, and stands for itself.
spec fn passed(data: Seq<u8>, i: int, s: Seq<u8>, c: char, quote: u8, pos: int) -> bool {
    &&& s.len() > 0
    &&& string_scan(data, i, quote, false) == match string_scan(data, i + s.len(), quote, false) {
        Ok((end, escape)) => Ok::<_, StringScanError>((end, escape || s[0] == 0x5c)),
        Err(e) => Err(e),
    }
    &&& unescaped(data, i, pos) == match unescaped(data, i + s.len(), pos) {
        Ok(rest) => Ok::<_, ErrorModel>(encode_utf8(seq![c]) + rest),
        Err(e) => Err(e),
    }
}

proof fn lemma_raw_passed(data: Seq<u8>, i: int, s: Seq<u8>, c: char, quote: u8, pos: int)
    requires
        0 <= i,
        i + s.len() <= data.len(),
        data.subrange(i, i + s.len()) == s,
        quote == 0x22 || quote == 0x27,
        c as int != 0x5c && c as int != quote && s == encode_utf8(seq![c]),
    ensures
        passed(data, i, s, c, quote, pos),
{
    let part = data.subrange(i, i + s.len());
    lemma_raw_bytes(c);
    assert forall|k: int| i <= k < i + s.len() implies #[trigger] data[k] != 0x5c && data[k]
        != quote by {
        assert(data[k] == part[k - i]);
        assert(encode_utf8(seq![c])[k - i] == part[k - i]);
    }
    assert(part[0] == data[i]);
    assert(data[i] != 0x5c);
    lemma_plain_bytes(data, i, i + s.len(), quote, pos);
}

proof fn lemma_unicode_passed(data: Seq<u8>, i: int, s: Seq<u8>, c: char, quote: u8, pos: int)
    requires
        0 <= i,
        i + s.len() <= data.len(),
        data.subrange(i, i + s.len()) == s,
        quote == 0x22 || quote == 0x27,
        unicode_escape(s, c as int),
    ensures
        passed(data, i, s, c, quote, pos),
{
    let part = data.subrange(i, i + s.len());
    assert(data[i] == part[0]);
    lemma_one(c);
    lemma_unicode_escape(data, i, s, c as int, pos);
}

proof fn lemma_short_passed(data: Seq<u8>, i: int, s: Seq<u8>, c: char, quote: u8, pos: int)
    requires
        0 <= i,
        i + s.len() <= data.len(),
        data.subrange(i, i + s.len()) == s,
        quote == 0x22 || quote == 0x27,
        s.len() == 2 && s[0] == 0x5c,
        c as int <= 0x7f,
        escaped(data, i + 1, pos) == Ok::<_, ErrorModel>((seq![c as u8], i + 2)),
        s[1] != 0x75,
    ensures
        passed(data, i, s, c, quote, pos),
{
    let part = data.subrange(i, i + s.len());
    assert(data[i] == part[0]);
    assert(data[i + 1] == part[1]);
    lemma_raw_bytes(c);
    assert(escape_end(data, i) == Some(i + 2));
}

proof fn lemma_pair_passed(data: Seq<u8>, i: int, s: Seq<u8>, c: char, quote: u8, pos: int)
    requires
        0 <= i,
        i + s.len() <= data.len(),
        data.subrange(i, i + s.len()) == s,
        quote == 0x22 || quote == 0x27,
        c as int >= 0x1_0000,
        exists|k: int|
            0 <= k <= s.len() && #[trigger] unicode_escape(
                s.take(k),
                0xd800 + (c as int - 0x1_0000) / 0x400,
            ) && unicode_escape(s.skip(k), 0xdc00 + (c as int - 0x1_0000) % 0x400),
    ensures
        passed(data, i, s, c, quote, pos),
{
    let part = data.subrange(i, i + s.len());
    let n = c as int - 0x1_0000;
    let k = choose|k: int|
        0 <= k <= s.len() && #[trigger] unicode_escape(s.take(k), 0xd800 + n / 0x400)
            && unicode_escape(s.skip(k), 0xdc00 + n % 0x400);
    lemma_one(c);
    assert(data.subrange(i, i + k) =~= s.take(k)) by {
        assert(data.subrange(i, i + k) =~= part.take(k));
    }
    assert(data.subrange(i + k, i + k + s.skip(k).len()) =~= s.skip(k)) by {
        assert(data.subrange(i + k, i + s.len()) =~= part.skip(k));
    }
    lemma_unicode_escape(data, i, s.take(k), 0xd800 + n / 0x400, pos);
    lemma_unicode_escape(data, i + k, s.skip(k), 0xdc00 + n % 0x400, pos);
    let rest = string_scan(data, i + s.len(), quote, false);
    assert(string_scan(data, i + k, quote, false) == match rest {
        Ok((end, _)) => Ok::<_, StringScanError>((end, true)),
        Err(e) => Err(e),
    });
    assert(s.take(k)[0] == s[0]);
    assert(n < 0x10_0000);
    assert(0x1_0000 + (n / 0x400) * 0x400 + n % 0x400 == c as int);
    assert(escaped(data, i + 1, pos) == Ok::<_, ErrorModel>((encode_utf8(seq![c]), i + s.len())));
}

proof fn lemma_spelled(data: Seq<u8>, i: int, s: Seq<u8>, c: char, quote: u8, pos: int)
    requires
        0 <= i,
        i + s.len() <= data.len(),
        data.subrange(i, i + s.len()) == s,
        quote == 0x22 || quote == 0x27,
        spells(s, c, quote),
    ensures
        passed(data, i, s, c, quote, pos),
{
    let part = data.subrange(i, i + s.len());
    if c as int != 0x5c && c as int != quote && s == encode_utf8(seq![c]) {
        lemma_raw_passed(data, i, s, c, quote, pos);
    } else if unicode_escape(s, c as int) {
        lemma_unicode_passed(data, i, s, c, quote, pos);
    } else if s.len() == 2 {
        assert(data[i + 1] == part[1]);
        assert(escaped(data, i + 1, pos) == Ok::<_, ErrorModel>((seq![c as u8], i + 2)));
        lemma_short_passed(data, i, s, c, quote, pos);
    } else {
        lemma_pair_passed(data, i, s, c, quote, pos);
    }
}

/// Each character is spelled by the bytes at the same place.
pub open spec fn all_spelled(spellings: Seq<Seq<u8>>, chars: Seq<char>, quote: u8) -> bool {
    &&& spellings.len() == chars.len()
    &&& forall|i: int| 0 <= i < chars.len() ==> spells(spellings[i], #[trigger] chars[i], quote)
}

/// Spelled characters are passed, and stand for themselves.
proof fn lemma_all_spelled(
    data: Seq<u8>,
    i: int,
    spellings: Seq<Seq<u8>>,
    chars: Seq<char>,
    quote: u8,
    pos: int,
)
    requires
        0 <= i,
        i + spellings.flatten().len() <= data.len(),
        data.subrange(i, i + spellings.flatten().len()) == spellings.flatten(),
        all_spelled(spellings, chars, quote),
        quote == 0x22 || quote == 0x27,
    ensures
        ({
            let end = i + spellings.flatten().len();
            &&& string_scan(data, end, quote, false) is Ok ==> (string_scan(
                data,
                i,
                quote,
                false,
            ) matches Ok((found, _)) && found == string_scan(data, end, quote, false)->Ok_0.0)
            &&& unescaped(data, i, pos) == match unescaped(data, end, pos) {
                Ok(rest) => Ok::<_, ErrorModel>(encode_utf8(chars) + rest),
                Err(e) => Err(e),
            }
        }),
    decreases chars.len(),
{
    let all = spellings.flatten();
    let end = i + all.len();
    if chars.len() == 0 {
        assert(all =~= Seq::<u8>::empty());
        if let Ok(rest) = unescaped(data, end, pos) {
            assert(encode_utf8(chars) + rest =~= rest);
        }
    } else {
        let s = spellings[0];
        let more = spellings.drop_first();
        let others = chars.drop_first();
        assert(spells(spellings[0], chars[0], quote));
        assert(all == s + more.flatten());
        let part = data.subrange(i, end);
        assert(data.subrange(i, i + s.len()) =~= part.subrange(0, s.len() as int));
        assert(part.subrange(0, s.len() as int) =~= s);
        assert(data.subrange(i + s.len(), end) =~= part.subrange(s.len() as int, part.len() as int));
        assert(part.subrange(s.len() as int, part.len() as int) =~= more.flatten());
        assert forall|k: int| 0 <= k < others.len() implies spells(
            more[k],
            #[trigger] others[k],
            quote,
        ) by {
            assert(spells(spellings[k + 1], chars[k + 1], quote));
        }
        lemma_all_spelled(data, i + s.len(), more, others, quote, pos);
        lemma_spelled(data, i, s, chars[0], quote, pos);
        lemma_one(chars[0]);
        if let Ok(rest) = unescaped(data, end, pos) {
            assert(encode_utf8(seq![chars[0]]) + (encode_utf8(others) + rest) =~= encode_utf8(chars)
                + rest);
        }
    }
}

/// Contents without an escape hold no backslash.
proof fn lemma_no_escape(text: Seq<u8>, pos: int, quote: u8)
    requires
        0 <= pos,
    ensures
        string_scan(text, pos, quote, false) matches Ok((end, escape)) ==> pos <= end && (!escape
            ==> forall|k: int| pos <= k < end ==> #[trigger] text[k] != 0x5c && text[k] != quote),
    decreases text.len() - pos,
{
    if pos < text.len() && text[pos] != quote {
        if text[pos] == 0x5c {
            if let Some(next) = escape_end(text, pos) {
                lemma_no_escape(text, next, quote);
            }
        } else {
            lemma_no_escape(text, pos + 1, quote);
        }
    }
}

/// Spelled characters between quotes are read as those characters.
pub proof fn lemma_quoted_chars(
    text: Seq<u8>,
    pos: int,
    spellings: Seq<Seq<u8>>,
    chars: Seq<char>,
    quote: u8,
)
    requires
        0 <= pos,
        pos + spellings.flatten().len() < text.len(),
        text.subrange(pos, pos + spellings.flatten().len()) == spellings.flatten(),
        text[pos + spellings.flatten().len()] == quote,
        all_spelled(spellings, chars, quote),
        quote == 0x22 || quote == 0x27,
    ensures
        ({
            let end = pos + spellings.flatten().len();
            let data = text.subrange(pos, end);
            &&& quoted_string(text, pos, quote) == Ok::<_, Refusal>((encode_utf8(chars), end + 1))
            &&& string_scan(text, pos, quote, false) matches Ok((found, escape)) && found == end && (
            escape || data == encode_utf8(chars))
            &&& escaped_string(data, pos + 1) == Ok::<_, ErrorModel>(encode_utf8(chars))
            &&& escaped_string(data, 0) == Ok::<_, ErrorModel>(encode_utf8(chars))
        }),
{
    let n = spellings.flatten().len() as int;
    let end = pos + n;
    let data = text.subrange(pos, end);
    assert(data.subrange(0, n) =~= data);
    assert(string_scan(text, end, quote, false) == Ok::<_, StringScanError>((end, false)));
    lemma_all_spelled(text, pos, spellings, chars, quote, 0);
    lemma_all_spelled(data, 0, spellings, chars, quote, pos + 1);
    lemma_all_spelled(data, 0, spellings, chars, quote, 0);
    assert(unescaped(data, n, pos + 1) == Ok::<_, ErrorModel>(Seq::<u8>::empty()));
    assert(unescaped(data, n, 0) == Ok::<_, ErrorModel>(Seq::<u8>::empty()));
    assert(encode_utf8(chars) + Seq::<u8>::empty() =~= encode_utf8(chars));
    encode_utf8_valid_utf8(chars);
    lemma_no_escape(text, pos, quote);
    let escape = string_scan(text, pos, quote, false)->Ok_0.1;
    if !escape {
        assert forall|k: int| 0 <= k < n implies #[trigger] data[k] != 0x5c && data[k] != quote by {
            assert(data[k] == text[pos + k]);
        }
        lemma_plain_bytes(data, 0, n, quote, 0);
        assert(data.subrange(0, n) + Seq::<u8>::empty() =~= data);
    }
}

/// A string denotes the characters that are spelled between its quotes, whichever way each of them
/// is spelled. The standard dialect has double quotes, the extended one single quotes too.
pub proof fn law_string_text(
    spellings: Seq<Seq<u8>>,
    chars: Seq<char>,
    quote: u8,
    standard: bool,
)
    requires
        quote == 0x22 || quote == 0x27 && !standard,
        all_spelled(spellings, chars, quote),
    ensures
        document(seq![quote] + spellings.flatten() + seq![quote], standard) == Ok::<_, Refusal>(
            JsonValue::Text(encode_utf8(chars)),
        ),
{
    let all = spellings.flatten();
    let text = seq![quote] + all + seq![quote];
    assert(text.subrange(1, all.len() + 1int) =~= all);
    assert(text[all.len() + 1int] == quote);
    assert(text[0] == quote);
    lemma_quoted_chars(text, 1, spellings, chars, quote);
    lemma_scalar_document(text, standard, JsonValue::Text(encode_utf8(chars)));
}

/// A string in quotes is the key that it denotes.
pub proof fn law_key_text(spellings: Seq<Seq<u8>>, chars: Seq<char>, quote: u8, standard: bool)
    requires
        quote == 0x22 || quote == 0x27 && !standard,
        all_spelled(spellings, chars, quote),
    ensures
        key_meaning(seq![quote] + spellings.flatten() + seq![quote], standard) == Some(
            encode_utf8(chars),
        ),
{
    let all = spellings.flatten();
    let key = seq![quote] + all + seq![quote];
    let text = key.push(0x3a);
    assert(text.subrange(1, all.len() + 1int) =~= all);
    assert(text[all.len() + 1int] == quote);
    assert(text[0] == quote);
    lemma_quoted_chars(text, 1, spellings, chars, quote);
}

/// Between quotes, bytes that are neither a quote nor a backslash are the string, where they are
/// UTF-8; they are refused where they are not.
pub proof fn law_raw_string(data: Seq<u8>, quote: u8, standard: bool)
    requires
        quote == 0x22 || quote == 0x27 && !standard,
        forall|i: int| 0 <= i < data.len() ==> #[trigger] data[i] != quote && data[i] != 0x5c,
    ensures
        ({
            let found = document(seq![quote] + data + seq![quote], standard);
            if valid_utf8(data) {
                found == Ok::<_, Refusal>(JsonValue::Text(data))
            } else {
                found is Err
            }
        }),
{
    let text = seq![quote] + data + seq![quote];
    let end = 1 + data.len();
    assert(text.subrange(1, end as int) =~= data);
    assert forall|k: int| 1 <= k < end implies #[trigger] text[k] != 0x5c && text[k] != quote by {
        assert(text[k] == data[k - 1]);
    }
    assert(text[0] == quote && text[end as int] == quote);
    lemma_plain_bytes(text, 1, end as int, quote, 0);
    assert(string_scan(text, end as int, quote, false) == Ok::<_, StringScanError>(
        (end as int, false),
    ));
    assert(unused_end(text, 0) == 0);
    if valid_utf8(data) {
        lemma_scalar_document(text, standard, JsonValue::Text(data));
    }
}

/// Contents in which no backslash stands end where a quote stands.
proof fn lemma_scan_closes(text: Seq<u8>, pos: int, rest: Seq<u8>, quote: u8)
    requires
        0 <= pos <= text.len(),
        text.skip(pos) == rest,
        rest.contains(quote),
        !rest.contains(0x5c),
    ensures
        string_scan(text, pos, quote, false) is Ok,
    decreases rest.len(),
{
    assert(rest[0] == text[pos]);
    assert(rest.contains(rest[0]));
    if rest[0] != quote {
        let more = rest.drop_first();
        assert(text.skip(pos + 1) =~= more);
        let k = choose|k: int| 0 <= k < rest.len() && rest[k] == quote;
        assert(more[k - 1] == quote);
        if more.contains(0x5c) {
            let j = choose|j: int| 0 <= j < more.len() && more[j] == 0x5c;
            assert(rest[j + 1] == 0x5c);
        }
        lemma_scan_closes(text, pos + 1, more, quote);
    }
}

/// A backslash before any other character than those that spell escapes is refused behind that
/// character, or at the end of the text where the string does not end.
#[verifier::spinoff_prover]
#[verifier::rlimit(30)]
pub proof fn law_unknown_escape(
    spellings: Seq<Seq<u8>>,
    chars: Seq<char>,
    c: u8,
    rest: Seq<u8>,
    quote: u8,
    standard: bool,
)
    requires
        quote == 0x22 || quote == 0x27 && !standard,
        all_spelled(spellings, chars, quote),
        c != 0x22 && c != 0x5c && c != 0x2f && c != 0x62 && c != 0x66 && c != 0x6e && c != 0x72 && c
            != 0x74 && c != 0x75,
    ensures
        ({
            let text = seq![quote] + spellings.flatten() + seq![0x5cu8, c] + rest;
            let closed = rest.contains(quote) && !rest.contains(0x5c);
            &&& document(text, standard) matches Err(e) && (e.error == ErrorModel::Syntax(
                ParseErrorCode::InvalidEscaped(c),
                spellings.flatten().len() as int + 4,
            ) || !closed && e.error == ErrorModel::Syntax(
                ParseErrorCode::InvalidEOF,
                text.len() as int,
            ))
        }),
{
    let all = spellings.flatten();
    let text = seq![quote] + all + seq![0x5cu8, c] + rest;
    let n = all.len() as int;
    assert(text.subrange(1, 1 + n) =~= all);
    assert(text[0] == quote && text[1 + n] == 0x5c && text[2 + n] == c);
    assert(unused_end(text, 0) == 0);
    lemma_all_spelled(text, 1, spellings, chars, quote, 0);
    if rest.contains(quote) && !rest.contains(0x5c) {
        assert(text.skip(3 + n) =~= rest);
        lemma_scan_closes(text, 3 + n, rest, quote);
        assert(escape_end(text, 1 + n) == Some(3 + n));
    }
    if let Ok((end, escape)) = string_scan(text, 1, quote, false) {
        lemma_scan_passes(text, 1, spellings, chars, quote);
        assert(string_scan(text, 3 + n, quote, false) is Ok);
        lemma_string_scan(text, 3 + n, quote, false);
        let data = text.subrange(1, end);
        assert(data.subrange(0, n) =~= all);
        assert(data[n] == 0x5c && data[n + 1] == c);
        lemma_all_spelled(data, 0, spellings, chars, quote, 2);
        assert(escaped(data, n + 1, 2) == Err::<(Seq<u8>, int), _>(
            ErrorModel::Syntax(ParseErrorCode::InvalidEscaped(c), n + 4),
        ));
        lemma_no_escape(text, 1, quote);
        assert(escape);
        assert(escaped_string(data, 2) is Err);
    }
}

/// The scan of contents goes on behind spelled characters.
proof fn lemma_scan_passes(
    data: Seq<u8>,
    i: int,
    spellings: Seq<Seq<u8>>,
    chars: Seq<char>,
    quote: u8,
)
    requires
        0 <= i,
        i + spellings.flatten().len() <= data.len(),
        data.subrange(i, i + spellings.flatten().len()) == spellings.flatten(),
        all_spelled(spellings, chars, quote),
        quote == 0x22 || quote == 0x27,
        string_scan(data, i, quote, false) is Ok,
    ensures
        string_scan(data, i + spellings.flatten().len(), quote, false) matches Ok((end, _)) && end
            == string_scan(data, i, quote, false)->Ok_0.0,
    decreases chars.len(),
{
    let all = spellings.flatten();
    let end = i + all.len();
    if chars.len() == 0 {
        assert(all =~= Seq::<u8>::empty());
    } else {
        let s = spellings[0];
        let more = spellings.drop_first();
        let others = chars.drop_first();
        assert(spells(spellings[0], chars[0], quote));
        assert(all == s + more.flatten());
        let part = data.subrange(i, end);
        assert(data.subrange(i, i + s.len()) =~= part.subrange(0, s.len() as int));
        assert(part.subrange(0, s.len() as int) =~= s);
        assert(data.subrange(i + s.len(), end) =~= part.subrange(s.len() as int, part.len() as int));
        assert(part.subrange(s.len() as int, part.len() as int) =~= more.flatten());
        assert forall|k: int| 0 <= k < others.len() implies spells(
            more[k],
            #[trigger] others[k],
            quote,
        ) by {
            assert(spells(spellings[k + 1], chars[k + 1], quote));
        }
        lemma_spelled(data, i, s, chars[0], quote, 0);
        lemma_scan_passes(data, i + s.len(), more, others, quote);
    }
}

/// A string without its closing quote is refused, at the end of the text.
pub proof fn law_open_string(
    spellings: Seq<Seq<u8>>,
    chars: Seq<char>,
    quote: u8,
    standard: bool,
)
    requires
        quote == 0x22 || quote == 0x27 && !standard,
        all_spelled(spellings, chars, quote),
    ensures
        document(seq![quote] + spellings.flatten(), standard) matches Err(e) && e.error
            == ErrorModel::Syntax(
            ParseErrorCode::InvalidEOF,
            spellings.flatten().len() as int + 1,
        ),
{
    let all = spellings.flatten();
    let text = seq![quote] + all;
    assert(text.subrange(1, all.len() + 1int) =~= all);
    assert(text[0] == quote);
    assert(unused_end(text, 0) == 0);
    if string_scan(text, 1, quote, false) is Ok {
        lemma_scan_passes(text, 1, spellings, chars, quote);
    }
}

/// The four figures of an escape.
pub open spec fn escape_figures(s: Seq<u8>) -> Seq<u8> {
    if s.len() == 6 {
        s.subrange(2, 6)
    } else {
        s.subrange(3, 7)
    }
}

/// A surrogate outside a pair stands for no character: it is kept as it is spelled, without braces.
/// That is so of a low one, and of a high one that no other escape follows.
pub proof fn law_lone_surrogate(
    s: Seq<u8>,
    n: int,
    spellings: Seq<Seq<u8>>,
    chars: Seq<char>,
    quote: u8,
    standard: bool,
)
    requires
        quote == 0x22 || quote == 0x27 && !standard,
        unicode_escape(s, n),
        all_spelled(spellings, chars, quote),
        0xdc00 <= n <= 0xdfff || 0xd800 <= n <= 0xdbff && (spellings.flatten().len() == 0
            || spellings.flatten()[0] != 0x5c),
    ensures
        document(seq![quote] + s + spellings.flatten() + seq![quote], standard) == Ok::<_, Refusal>(
            JsonValue::Text(seq![0x5cu8, 0x75] + escape_figures(s) + encode_utf8(chars)),
        ),
{
    let all = spellings.flatten();
    let text = seq![quote] + s + all + seq![quote];
    let from = 1 + s.len() as int;
    let end = from + all.len();
    let data = text.subrange(1, end);
    let kept = seq![0x5cu8, 0x75] + escape_figures(s);
    assert(text.subrange(1, from) =~= s);
    assert(text.subrange(from, end) =~= all);
    assert(data.subrange(0, from - 1) =~= s);
    assert(data.subrange(from - 1, end - 1) =~= all);
    assert(text[0] == quote && text[end] == quote);
    assert(string_scan(text, end, quote, false) == Ok::<_, StringScanError>((end, false)));
    lemma_unicode_escape(text, 1, s, n, 0);
    lemma_unicode_escape(data, 0, s, n, 2);
    lemma_all_spelled(text, from, spellings, chars, quote, 0);
    lemma_all_spelled(data, from - 1, spellings, chars, quote, 2);
    assert(unescaped(data, end - 1, 2) == Ok::<_, ErrorModel>(Seq::<u8>::empty()));
    assert(encode_utf8(chars) + Seq::<u8>::empty() =~= encode_utf8(chars));
    if all.len() > 0 {
        assert(data[from - 1] == all[0]);
    }
    assert(escaped(data, 1, 2) == Ok::<_, ErrorModel>((spelled_escape(escape_figures(s)), from - 1)));
    assert(spelled_escape(escape_figures(s)) =~= kept);
    assert(unescaped(data, 0, 2) == Ok::<_, ErrorModel>(kept + encode_utf8(chars)));
    lemma_kept(escape_figures(s));
    encode_utf8_valid_utf8(chars);
    valid_utf8_concat(kept, encode_utf8(chars));
    lemma_scalar_document(text, standard, JsonValue::Text(kept + encode_utf8(chars)));
}

/// A high surrogate and an escape that is no low one are both kept as they are spelled.
pub proof fn law_broken_pair(
    s: Seq<u8>,
    n: int,
    t: Seq<u8>,
    m: int,
    quote: u8,
    standard: bool,
)
    requires
        quote == 0x22 || quote == 0x27 && !standard,
        unicode_escape(s, n),
        unicode_escape(t, m),
        0xd800 <= n <= 0xdbff,
        !(0xdc00 <= m <= 0xdfff),
    ensures
        document(seq![quote] + s + t + seq![quote], standard) == Ok::<_, Refusal>(
            JsonValue::Text(
                seq![0x5cu8, 0x75] + escape_figures(s) + (seq![0x5cu8, 0x75] + escape_figures(t)),
            ),
        ),
{
    let text = seq![quote] + s + t + seq![quote];
    let from = 1 + s.len() as int;
    let end = from + t.len();
    let data = text.subrange(1, end);
    let kept = seq![0x5cu8, 0x75] + escape_figures(s);
    let more = seq![0x5cu8, 0x75] + escape_figures(t);
    assert(text.subrange(1, from) =~= s);
    assert(text.subrange(from, end) =~= t);
    assert(data.subrange(0, from - 1) =~= s);
    assert(data.subrange(from - 1, end - 1) =~= t);
    assert(text[0] == quote && text[end] == quote);
    assert(string_scan(text, end, quote, false) == Ok::<_, StringScanError>((end, false)));
    lemma_unicode_escape(text, 1, s, n, 0);
    lemma_unicode_escape(text, from, t, m, 0);
    lemma_unicode_escape(data, 0, s, n, 2);
    lemma_unicode_escape(data, from - 1, t, m, 2);
    assert(string_scan(text, from, quote, false) == Ok::<_, StringScanError>((end, true)));
    assert(string_scan(text, 1, quote, false) == Ok::<_, StringScanError>((end, true)));
    assert(spelled_escape(escape_figures(s)) =~= kept);
    assert(spelled_escape(escape_figures(t)) =~= more);
    assert(escaped(data, 1, 2) == Ok::<_, ErrorModel>((kept + more, end - 1)));
    assert(unescaped(data, end - 1, 2) == Ok::<_, ErrorModel>(Seq::<u8>::empty()));
    assert(kept + more + Seq::<u8>::empty() =~= kept + more);
    lemma_kept(escape_figures(s));
    lemma_kept(escape_figures(t));
    valid_utf8_concat(kept, more);
    lemma_scalar_document(text, standard, JsonValue::Text(kept + more));
}

/// An escape as it is spelled is made of ASCII.
proof fn lemma_kept(figures: Seq<u8>)
    requires
        hex_figures(figures),
    ensures
        valid_utf8(seq![0x5cu8, 0x75] + figures),
{
    let kept = seq![0x5cu8, 0x75] + figures;
    assert forall|i: int| 0 <= i < kept.len() implies #[trigger] kept[i] <= 0x7f by {
        if i >= 2 {
            assert(kept[i] == figures[i - 2]);
        }
    }
    lemma_ascii_is_utf8(kept);
}

pub proof fn lemma_ascii_is_utf8(bytes: Seq<u8>)
    requires
        forall|i: int| 0 <= i < bytes.len() ==> #[trigger] bytes[i] <= 0x7f,
    ensures
        valid_utf8(bytes),
    decreases bytes.len(),
{
    if bytes.len() > 0 {
        let c = bytes[0] as char;
        let rest = bytes.drop_first();
        assert(bytes[0] <= 0x7f);
        assert forall|i: int| 0 <= i < rest.len() implies #[trigger] rest[i] <= 0x7f by {
            assert(rest[i] == bytes[i + 1]);
        }
        lemma_ascii_is_utf8(rest);
        lemma_raw_bytes(c);
        lemma_one(c);
        assert(bytes =~= seq![bytes[0]] + rest);
        valid_utf8_concat(encode_utf8(seq![c]), rest);
    }
}

/// An escape that spells a character is passed in one go, or in two for a pair of surrogates.
pub proof fn lemma_escape_ends(data: Seq<u8>, i: int, s: Seq<u8>, c: char, quote: u8) -> (mid: int)
    requires
        0 <= i,
        i + s.len() <= data.len(),
        data.subrange(i, i + s.len()) == s,
        spells(s, c, quote),
        quote == 0x22 || quote == 0x27,
        s[0] == 0x5c,
    ensures
        s.len() > 0,
        data[i] == 0x5c,
        escape_end(data, i) == Some(mid),
        i < mid <= i + s.len(),
        mid == i + s.len() || data[mid] == 0x5c && escape_end(data, mid) == Some(i + s.len()),
{
    let part = data.subrange(i, i + s.len());
    lemma_raw_bytes(c);
    assert(data[i] == part[0]);
    if c as int != 0x5c && c as int != quote && s == encode_utf8(seq![c]) {
        assert(false);
        i
    } else if unicode_escape(s, c as int) {
        lemma_unicode_escape(data, i, s, c as int, 0);
        i + s.len()
    } else if s.len() == 2 {
        assert(data[i + 1] == part[1]);
        i + 2
    } else {
        let n = c as int - 0x1_0000;
        let k = choose|k: int|
            0 <= k <= s.len() && c as int >= 0x1_0000 && #[trigger] unicode_escape(
                s.take(k),
                0xd800 + n / 0x400,
            ) && unicode_escape(s.skip(k), 0xdc00 + n % 0x400);
        assert(data.subrange(i, i + k) =~= s.take(k)) by {
            assert(data.subrange(i, i + k) =~= part.take(k));
        }
        assert(data.subrange(i + k, i + k + s.skip(k).len()) =~= s.skip(k)) by {
            assert(data.subrange(i + k, i + s.len()) =~= part.skip(k));
        }
        lemma_unicode_escape(data, i, s.take(k), 0xd800 + n / 0x400, 0);
        lemma_unicode_escape(data, i + k, s.skip(k), 0xdc00 + n % 0x400, 0);
        i + k
    }
}

/// Spelled characters stand for themselves, with their escapes replaced; without escapes they are
/// their own bytes.
pub proof fn lemma_contents(spellings: Seq<Seq<u8>>, chars: Seq<char>)
    requires
        all_spelled(spellings, chars, 0x22),
    ensures
        escaped_string(spellings.flatten(), 0) == Ok::<_, ErrorModel>(encode_utf8(chars)),
        !spellings.flatten().contains(0x5c) ==> spellings.flatten() == encode_utf8(chars),
{
    let data = spellings.flatten();
    let n = data.len() as int;
    assert(data.subrange(0, n) =~= data);
    lemma_all_spelled(data, 0, spellings, chars, 0x22, 0);
    assert(unescaped(data, n, 0) == Ok::<_, ErrorModel>(Seq::<u8>::empty()));
    assert(encode_utf8(chars) + Seq::<u8>::empty() =~= encode_utf8(chars));
    encode_utf8_valid_utf8(chars);
    if !data.contains(0x5c) {
        assert forall|k: int| 0 <= k < n implies #[trigger] data[k] != 0x5c && data[k] != 0x5c by {
            assert(data.contains(data[k]));
        }
        lemma_plain_bytes(data, 0, n, 0x5c, 0);
        assert(data.subrange(0, n) + Seq::<u8>::empty() =~= data);
    }
}

proof fn lemma_first_bad_figure(four: Seq<u8>, k: int)
    requires
        0 <= k < four.len(),
        hex_figures(four.take(k)),
        !hex_figures(seq![four[k]]),
    ensures
        forall|i: int| 0 <= i < k ==> is_hex_digit(#[trigger] four[i]),
        !is_hex_digit(four[k]),
{
    assert forall|i: int| 0 <= i < k implies is_hex_digit(#[trigger] four[i]) by {
        assert(four.take(k)[i] == four[i]);
        lemma_figures(four[i]);
    }
    lemma_figures(four[k]);
    if is_hex_digit(four[k]) {
        assert(hex_figures(seq![four[k]]));
    }
}

/// A `\u` escape whose four characters are not all hexadecimal figures is refused behind the four,
/// with the first that is none, or at the end of the text where the string does not end.
#[verifier::spinoff_prover]
#[verifier::rlimit(30)]
pub proof fn law_bad_figures(
    spellings: Seq<Seq<u8>>,
    chars: Seq<char>,
    four: Seq<u8>,
    k: int,
    rest: Seq<u8>,
    quote: u8,
    standard: bool,
)
    requires
        quote == 0x22 || quote == 0x27 && !standard,
        all_spelled(spellings, chars, quote),
        four.len() == 4,
        four[0] != 0x7b,
        0 <= k < 4,
        hex_figures(four.take(k)),
        !hex_figures(seq![four[k]]),
    ensures
        ({
            let text = seq![quote] + spellings.flatten() + seq![0x5cu8, 0x75] + four + rest;
            let closed = rest.contains(quote) && !rest.contains(0x5c);
            &&& document(text, standard) matches Err(e) && (e.error == ErrorModel::Syntax(
                ParseErrorCode::InvalidHex(four[k]),
                spellings.flatten().len() as int + 8,
            ) || !closed && e.error == ErrorModel::Syntax(
                ParseErrorCode::InvalidEOF,
                text.len() as int,
            ))
        }),
{
    let all = spellings.flatten();
    let text = seq![quote] + all + seq![0x5cu8, 0x75] + four + rest;
    let n = all.len() as int;
    assert(text.subrange(1, 1 + n) =~= all);
    assert(text[0] == quote && text[1 + n] == 0x5c && text[2 + n] == 0x75);
    assert(text[3 + n] == four[0] && text[4 + n] == four[1] && text[5 + n] == four[2] && text[6 + n]
        == four[3]);
    assert(unused_end(text, 0) == 0);
    assert(escape_end(text, 1 + n) == Some(7 + n));
    if rest.contains(quote) && !rest.contains(0x5c) {
        assert(text.skip(7 + n) =~= rest);
        lemma_scan_closes(text, 7 + n, rest, quote);
        lemma_all_spelled(text, 1, spellings, chars, quote, 0);
    }
    if let Ok((end, escape)) = string_scan(text, 1, quote, false) {
        lemma_scan_passes(text, 1, spellings, chars, quote);
        assert(string_scan(text, 7 + n, quote, false) is Ok);
        lemma_string_scan(text, 7 + n, quote, false);
        let data = text.subrange(1, end);
        assert(data.subrange(0, n) =~= all);
        assert(data[n] == 0x5c && data[n + 1] == 0x75);
        assert(data[n + 2] == four[0] && data[n + 3] == four[1] && data[n + 4] == four[2] && data[n
            + 5] == four[3]);
        lemma_all_spelled(data, 0, spellings, chars, quote, 2);
        lemma_first_bad_figure(four, k);
        assert(hex_escape(data, n + 2, 2) == Err::<(Seq<u8>, int), _>(
            ErrorModel::Syntax(ParseErrorCode::InvalidHex(four[k]), n + 8),
        ));
        lemma_no_escape(text, 1, quote);
        assert(escape);
        assert(escaped_string(data, 2) is Err);
    }
}

/// A `\u` escape in braces holds four hexadecimal figures and the closing brace. One without that
/// brace is refused at the opening one, one with other figures behind the closing one, or at the
/// end of the text where the string does not end.
#[verifier::spinoff_prover]
#[verifier::rlimit(30)]
pub proof fn law_bad_braces(
    spellings: Seq<Seq<u8>>,
    chars: Seq<char>,
    six: Seq<u8>,
    k: int,
    rest: Seq<u8>,
    quote: u8,
    standard: bool,
)
    requires
        quote == 0x22 || quote == 0x27 && !standard,
        all_spelled(spellings, chars, quote),
        six.len() == 6,
        six[0] == 0x7b,
        six[5] != 0x7d || 0 <= k < 4 && hex_figures(six.subrange(1, 5).take(k)) && !hex_figures(
            seq![six.subrange(1, 5)[k]],
        ),
    ensures
        ({
            let text = seq![quote] + spellings.flatten() + seq![0x5cu8, 0x75] + six + rest;
            let closed = rest.contains(quote) && !rest.contains(0x5c);
            let n = spellings.flatten().len() as int;
            &&& document(text, standard) matches Err(e) && (e.error == if six[5] != 0x7d {
                ErrorModel::Syntax(ParseErrorCode::UnexpectedEndOfHexEscape, n + 4)
            } else {
                ErrorModel::Syntax(ParseErrorCode::InvalidHex(six.subrange(1, 5)[k]), n + 10)
            } || !closed && e.error == ErrorModel::Syntax(
                ParseErrorCode::InvalidEOF,
                text.len() as int,
            ))
        }),
{
    let all = spellings.flatten();
    let text = seq![quote] + all + seq![0x5cu8, 0x75] + six + rest;
    let n = all.len() as int;
    let four = six.subrange(1, 5);
    assert(text.subrange(1, 1 + n) =~= all);
    assert(text[0] == quote && text[1 + n] == 0x5c && text[2 + n] == 0x75);
    assert(text[3 + n] == 0x7b && text[4 + n] == four[0] && text[5 + n] == four[1] && text[6 + n]
        == four[2] && text[7 + n] == four[3] && text[8 + n] == six[5]);
    assert(unused_end(text, 0) == 0);
    assert(escape_end(text, 1 + n) == Some(9 + n));
    if rest.contains(quote) && !rest.contains(0x5c) {
        assert(text.skip(9 + n) =~= rest);
        lemma_scan_closes(text, 9 + n, rest, quote);
        lemma_all_spelled(text, 1, spellings, chars, quote, 0);
    }
    if let Ok((end, escape)) = string_scan(text, 1, quote, false) {
        lemma_scan_passes(text, 1, spellings, chars, quote);
        assert(string_scan(text, 9 + n, quote, false) is Ok);
        lemma_string_scan(text, 9 + n, quote, false);
        let data = text.subrange(1, end);
        assert(data.subrange(0, n) =~= all);
        assert(data[n] == 0x5c && data[n + 1] == 0x75 && data[n + 2] == 0x7b);
        assert(data[n + 3] == four[0] && data[n + 4] == four[1] && data[n + 5] == four[2] && data[n
            + 6] == four[3] && data[n + 7] == six[5]);
        lemma_all_spelled(data, 0, spellings, chars, quote, 2);
        if six[5] == 0x7d {
            lemma_first_bad_figure(four, k);
        }
        assert(hex_escape(data, n + 2, 2) is Err);
        lemma_no_escape(text, 1, quote);
        assert(escape);
        assert(escaped_string(data, 2) is Err);
    }
}

/// Where control characters are refused, contents of other plain bytes end at the quote, and at a
/// control character that comes before it they are refused.
pub proof fn law_control_characters(before: Seq<u8>, c: u8, rest: Seq<u8>, quote: u8)
    requires
        quote == 0x22 || quote == 0x27,
        forall|i: int|
            0 <= i < before.len() ==> #[trigger] before[i] >= 0x20 && before[i] != quote
                && before[i] != 0x5c,
        c < 0x20 || c == quote,
        (before + seq![c] + rest).len() <= usize::MAX,
    ensures
        string_scan(before + seq![c] + rest, 0, quote, true) == if c == quote {
            Ok((before.len() as int, false))
        } else {
            Err(StringScanError::ControlCharacter(before.len() as usize))
        },
{
    let text = before + seq![c] + rest;
    assert forall|i: int| 0 <= i < before.len() implies #[trigger] text[i] >= 0x20 && text[i]
        != quote && text[i] != 0x5c by {
        assert(text[i] == before[i]);
    }
    lemma_plain_passed(text, 0, before.len() as int, quote);
    assert(text[before.len() as int] == c);
}

proof fn lemma_plain_passed(text: Seq<u8>, pos: int, end: int, quote: u8)
    requires
        0 <= pos <= end < text.len(),
        forall|i: int|
            pos <= i < end ==> #[trigger] text[i] >= 0x20 && text[i] != quote && text[i] != 0x5c,
    ensures
        string_scan(text, pos, quote, true) == string_scan(text, end, quote, true),
    decreases end - pos,
{
    if pos < end {
        assert(text[pos] >= 0x20);
        lemma_plain_passed(text, pos + 1, end, quote);
    }
}

} // verus!
