//! Scalars and keys mean the same wherever they stand in a text.

use vstd::prelude::*;

use crate::ascii::{
    APOSTROPHE, BACKSLASH, CLOSE_BRACE, CLOSE_BRACKET, COLON, COMMA, MINUS, POINT, QUOTE,
};
use crate::error::{ErrorModel, Refusal};
use crate::escape::{escaped, hex_escape, lemma_escaped_advances, unescaped};
use crate::extent::{lemma_object_key, lemma_quoted_string, lemma_unquoted_end};
use crate::grammar::{
    exponent_end, extended_number, fraction_end, general_number, hex_number, is_key_byte, lower,
    object_key, plain_integer, quoted_string, remaining, scalar, sign_end, significant_digits,
    special_number, standard_number, unquoted_end, word_end, word_false, word_infinity, word_nan,
    word_null, word_true, zeros_end,
};
use crate::plain::{literal, plain};
use crate::scan::{
    byte_at, digits_end, escape_end, hex_digits_end, is_whitespace, lemma_string_scan, string_scan,
    StringScanError,
};
use crate::value::NumberToken;

verus! {

/// No scalar and no key goes on at `pos`: the text ends there, or goes on with what is skipped
/// between tokens, with a delimiter or with the end of a container.
pub open spec fn stops(text: Seq<u8>, pos: int) -> bool {
    match byte_at(text, pos) {
        None => true,
        Some(b) => is_whitespace(b) || b == BACKSLASH || b == COMMA || b == COLON || b
            == CLOSE_BRACKET || b == CLOSE_BRACE,
    }
}

/// The bytes from `low` up to `high` stand in another text, `d` further on.
pub open spec fn moved(s: Seq<u8>, t: Seq<u8>, d: int, low: int, high: int) -> bool {
    &&& 0 <= low <= high <= s.len()
    &&& 0 <= low + d
    &&& high + d <= t.len()
    &&& forall|k: int| low <= k < high ==> #[trigger] s[k] == t[k + d]
}

/// So they do, and in both texts no scalar and no key goes on behind them.
pub open spec fn moved_token(s: Seq<u8>, t: Seq<u8>, d: int, low: int, high: int) -> bool {
    &&& moved(s, t, d, low, high)
    &&& stops(s, high)
    &&& stops(t, high + d)
}

proof fn lemma_part(s: Seq<u8>, t: Seq<u8>, d: int, low: int, high: int, a: int, b: int)
    requires
        moved(s, t, d, low, high),
        low <= a <= b <= high,
    ensures
        s.subrange(a, b) == t.subrange(a + d, b + d),
{
    assert forall|i: int| 0 <= i < b - a implies s.subrange(a, b)[i] == t.subrange(
        a + d,
        b + d,
    )[i] by {
        assert(s[a + i] == t[a + i + d]);
    }
    assert(s.subrange(a, b) =~= t.subrange(a + d, b + d));
}

proof fn lemma_digits_moved(s: Seq<u8>, t: Seq<u8>, d: int, low: int, high: int, k: int)
    requires
        moved_token(s, t, d, low, high),
        low <= k <= high,
    ensures
        k <= digits_end(s, k) <= high,
        digits_end(t, k + d) == digits_end(s, k) + d,
    decreases high - k,
{
    if k < high {
        assert(s[k] == t[k + d]);
        lemma_digits_moved(s, t, d, low, high, k + 1);
    }
}

proof fn lemma_hex_digits_moved(s: Seq<u8>, t: Seq<u8>, d: int, low: int, high: int, k: int)
    requires
        moved_token(s, t, d, low, high),
        low <= k <= high,
    ensures
        k <= hex_digits_end(s, k) <= high,
        hex_digits_end(t, k + d) == hex_digits_end(s, k) + d,
    decreases high - k,
{
    if k < high {
        assert(s[k] == t[k + d]);
        lemma_hex_digits_moved(s, t, d, low, high, k + 1);
    }
}

proof fn lemma_zeros_moved(s: Seq<u8>, t: Seq<u8>, d: int, low: int, high: int, k: int)
    requires
        moved_token(s, t, d, low, high),
        low <= k <= high,
    ensures
        k <= zeros_end(s, k) <= high,
        zeros_end(t, k + d) == zeros_end(s, k) + d,
    decreases high - k,
{
    if k < high {
        assert(s[k] == t[k + d]);
        lemma_zeros_moved(s, t, d, low, high, k + 1);
    }
}

/// The bytes at corresponding offsets are the same, or neither carries a token on.
proof fn lemma_byte(s: Seq<u8>, t: Seq<u8>, d: int, low: int, high: int, k: int)
    requires
        moved_token(s, t, d, low, high),
        low <= k <= high,
    ensures
        byte_at(s, k) == byte_at(t, k + d) || (stops(s, k) && stops(t, k + d)),
        k < high ==> byte_at(s, k) == byte_at(t, k + d) && byte_at(s, k) is Some,
{
    if k < high {
        assert(s[k] == t[k + d]);
    }
}

proof fn lemma_fraction_moved(s: Seq<u8>, t: Seq<u8>, d: int, low: int, high: int, k: int)
    requires
        moved_token(s, t, d, low, high),
        low <= k <= high,
    ensures
        k <= fraction_end(s, k) <= high,
        fraction_end(t, k + d) == fraction_end(s, k) + d,
        (byte_at(s, k) == Some(POINT)) == (byte_at(t, k + d) == Some(POINT)),
        byte_at(s, k) == Some(POINT) ==> k < high,
{
    lemma_byte(s, t, d, low, high, k);
    if k < high {
        lemma_digits_moved(s, t, d, low, high, k + 1);
    }
}

proof fn lemma_exponent_moved(s: Seq<u8>, t: Seq<u8>, d: int, low: int, high: int, k: int)
    requires
        moved_token(s, t, d, low, high),
        low <= k <= high,
    ensures
        match exponent_end(s, k) {
            Ok(end) => exponent_end(t, k + d) == Ok::<int, Refusal>(end + d) && k <= end <= high,
            Err(_) => exponent_end(t, k + d) is Err,
        },
{
    lemma_byte(s, t, d, low, high, k);
    if k < high {
        lemma_byte(s, t, d, low, high, k + 1);
        lemma_digits_moved(s, t, d, low, high, k + 1);
        if k + 1 < high {
            lemma_digits_moved(s, t, d, low, high, k + 2);
        }
    }
}

/// A number token is the same in both texts.
spec fn token_moved(
    s: Seq<u8>,
    found: Result<(NumberToken, int), Refusal>,
    t: Seq<u8>,
    other: Result<(NumberToken, int), Refusal>,
    d: int,
) -> bool {
    found matches Ok((a, end)) ==> (other matches Ok((b, other_end)) && other_end == end + d
        && literal(s, a) == literal(t, b))
}

proof fn lemma_standard_number_moved(s: Seq<u8>, t: Seq<u8>, d: int, low: int, high: int)
    requires
        moved_token(s, t, d, low, high),
        low < high,
        s.len() <= usize::MAX,
        t.len() <= usize::MAX,
    ensures
        token_moved(s, standard_number(s, low), t, standard_number(t, low + d), d),
{
    lemma_byte(s, t, d, low, high, low);
    let first = if byte_at(s, low) == Some(MINUS) {
        low + 1
    } else {
        low
    };
    lemma_byte(s, t, d, low, high, first);
    lemma_digits_moved(s, t, d, low, high, first);
    let int_end = digits_end(s, first);
    lemma_fraction_moved(s, t, d, low, high, int_end);
    let frac_end = fraction_end(s, int_end);
    lemma_exponent_moved(s, t, d, low, high, frac_end);
    lemma_part(s, t, d, low, high, first, int_end);
    if let Ok(end) = exponent_end(s, frac_end) {
        lemma_part(s, t, d, low, high, low, end);
    }
}

/// A word is read the same in both texts.
proof fn lemma_word_moved(
    s: Seq<u8>,
    t: Seq<u8>,
    d: int,
    low: int,
    high: int,
    k: int,
    word: Seq<u8>,
    fold: bool,
)
    requires
        moved_token(s, t, d, low, high),
        low <= k <= high,
        forall|i: int| 0 <= i < word.len() ==> 0x61 <= #[trigger] word[i] <= 0x7a,
    ensures
        match word_end(s, k, word, fold) {
            Ok(end) => word_end(t, k + d, word, fold) == Ok::<int, Refusal>(end + d) && end <= high,
            Err(_) => word_end(t, k + d, word, fold) is Err,
        },
    decreases word.len(),
{
    if word.len() > 0 {
        lemma_byte(s, t, d, low, high, k);
        let rest = word.drop_first();
        assert(0x61 <= word[0] <= 0x7a);
        assert forall|i: int| 0 <= i < rest.len() implies 0x61 <= #[trigger] rest[i] <= 0x7a by {
            assert(rest[i] == word[i + 1]);
        }
        if k < high {
            lemma_word_moved(s, t, d, low, high, k + 1, rest, fold);
        }
    }
}

proof fn lemma_hex_number_moved(
    s: Seq<u8>,
    t: Seq<u8>,
    d: int,
    low: int,
    high: int,
    pos: int,
    negative: bool,
)
    requires
        moved_token(s, t, d, low, high),
        low < pos <= high,
        s.len() <= usize::MAX,
        t.len() <= usize::MAX,
    ensures
        token_moved(
            s,
            hex_number(s, low, pos, negative),
            t,
            hex_number(t, low + d, pos + d, negative),
            d,
        ),
{
    lemma_hex_digits_moved(s, t, d, low, high, pos);
    let int_end = hex_digits_end(s, pos);
    lemma_part(s, t, d, low, high, pos, int_end);
    lemma_byte(s, t, d, low, high, int_end);
    if int_end < high {
        lemma_hex_digits_moved(s, t, d, low, high, int_end + 1);
        lemma_part(s, t, d, low, high, int_end + 1, hex_digits_end(s, int_end + 1));
    }
}

proof fn lemma_special_number_moved(
    s: Seq<u8>,
    t: Seq<u8>,
    d: int,
    low: int,
    high: int,
    pos: int,
    negative: bool,
)
    requires
        moved_token(s, t, d, low, high),
        low <= pos <= high,
    ensures
        token_moved(
            s,
            special_number(s, pos, negative),
            t,
            special_number(t, pos + d, negative),
            d,
        ),
{
    lemma_byte(s, t, d, low, high, pos);
    lemma_word_moved(s, t, d, low, high, pos, word_infinity(), true);
    lemma_word_moved(s, t, d, low, high, pos, word_nan(), true);
}

#[verifier::spinoff_prover]
#[verifier::rlimit(30)]
proof fn lemma_extended_number_moved(s: Seq<u8>, t: Seq<u8>, d: int, low: int, high: int)
    requires
        moved_token(s, t, d, low, high),
        low < high,
        s.len() <= usize::MAX,
        t.len() <= usize::MAX,
    ensures
        token_moved(s, extended_number(s, low), t, extended_number(t, low + d), d),
{
    lemma_byte(s, t, d, low, high, low);
    let first = sign_end(s, low);
    let negative = byte_at(s, low) == Some(MINUS);
    lemma_byte(s, t, d, low, high, first);
    lemma_digits_moved(s, t, d, low, high, first);
    let run_end = digits_end(s, first);
    lemma_byte(s, t, d, low, high, run_end);
    lemma_part(s, t, d, low, high, first, run_end);
    assert(sign_end(t, low + d) == first + d);
    assert(plain_integer(s, first, run_end, negative) == plain_integer(
        t,
        first + d,
        run_end + d,
        negative,
    ));
    lemma_zeros_moved(s, t, d, low, high, first);
    let int_start = zeros_end(s, first);
    lemma_digits_moved(s, t, d, low, high, int_start);
    let int_end = digits_end(s, int_start);
    lemma_fraction_moved(s, t, d, low, high, int_end);
    let frac_end = fraction_end(s, int_end);
    lemma_byte(s, t, d, low, high, int_end);
    lemma_byte(s, t, d, low, high, frac_end);
    lemma_part(s, t, d, low, high, int_start, int_end);
    if byte_at(s, int_end) == Some(POINT) {
        lemma_digits_moved(s, t, d, low, high, int_end + 1);
        lemma_part(s, t, d, low, high, int_end + 1, frac_end);
    }
    assert(significant_digits(s, int_start) == significant_digits(t, int_start + d));
    lemma_exponent_moved(s, t, d, low, high, frac_end);
    lemma_special_number_moved(s, t, d, low, high, frac_end, negative);
    if int_end < high && low <= int_end {
        lemma_hex_number_moved(s, t, d, low, high, int_end + 1, negative);
    }
    if let Ok(end) = exponent_end(s, frac_end) {
        lemma_part(s, t, d, low, high, low, end);
    }
    assert(token_moved(
        s,
        general_number(s, low, first, negative),
        t,
        general_number(t, low + d, first + d, negative),
        d,
    ));
}

proof fn lemma_hex_escape_anywhere(data: Seq<u8>, i: int, a: int, b: int)
    ensures
        match hex_escape(data, i, a) {
            Ok(found) => hex_escape(data, i, b) == Ok::<_, ErrorModel>(found),
            Err(_) => hex_escape(data, i, b) is Err,
        },
{
}

proof fn lemma_escaped_anywhere(data: Seq<u8>, i: int, a: int, b: int)
    requires
        0 <= i,
    ensures
        match escaped(data, i, a) {
            Ok(found) => escaped(data, i, b) == Ok::<_, ErrorModel>(found),
            Err(_) => escaped(data, i, b) is Err,
        },
    decreases data.len() - i,
{
    if i < data.len() {
        lemma_hex_escape_anywhere(data, i + 1, a, b);
        if let Ok((_, next)) = hex_escape(data, i + 1, a) {
            lemma_hex_escape_anywhere(data, next + 2, a, b);
            if next < data.len() {
                lemma_escaped_anywhere(data, next + 1, a, b);
            }
        }
    }
}

proof fn lemma_unescaped_anywhere(data: Seq<u8>, i: int, a: int, b: int)
    requires
        0 <= i,
    ensures
        match unescaped(data, i, a) {
            Ok(bytes) => unescaped(data, i, b) == Ok::<_, ErrorModel>(bytes),
            Err(_) => unescaped(data, i, b) is Err,
        },
    decreases data.len() - i,
{
    if i < data.len() {
        if data[i] != BACKSLASH {
            lemma_unescaped_anywhere(data, i + 1, a, b);
        } else {
            lemma_escaped_anywhere(data, i + 1, a, b);
            if let Ok((_, next)) = escaped(data, i + 1, a) {
                lemma_escaped_advances(data, i + 1, a);
                lemma_unescaped_anywhere(data, next, a, b);
            }
        }
    }
}

/// String contents can be scanned to the same end in the other text, where other quotes may stand
/// around them.
proof fn lemma_string_scan_moved(
    s: Seq<u8>,
    t: Seq<u8>,
    d: int,
    low: int,
    high: int,
    k: int,
    quote: u8,
    other: u8,
)
    requires
        moved(s, t, d, low, high),
        low <= k,
        string_scan(s, k, quote, false) matches Ok((end, _)) && end == high,
        byte_at(t, high + d) == Some(other),
        quote == other || forall|i: int| low <= i < high ==> #[trigger] s[i] != other,
    ensures
        string_scan(s, k, quote, false) matches Ok((end, has_escape)) && string_scan(
            t,
            k + d,
            other,
            false,
        ) == Ok::<_, StringScanError>((end + d, has_escape)),
    decreases s.len() - k,
{
    lemma_string_scan(s, k, quote, false);
    if k < high {
        assert(s[k] == t[k + d]);
        if s[k] == BACKSLASH {
            let next = escape_end(s, k)->Some_0;
            lemma_string_scan(s, next, quote, false);
            assert(s[k + 1] == t[k + 1 + d]);
            if next > k + 2 {
                assert(s[k + 2] == t[k + 2 + d]);
            }
            lemma_string_scan_moved(s, t, d, low, high, next, quote, other);
        } else {
            lemma_string_scan_moved(s, t, d, low, high, k + 1, quote, other);
        }
    }
}

/// A string is the same in both texts, where other quotes may stand around it: `high` is the
/// place of the closing quote.
pub proof fn lemma_quoted_string_moved(
    s: Seq<u8>,
    t: Seq<u8>,
    d: int,
    low: int,
    high: int,
    quote: u8,
    other: u8,
)
    requires
        moved(s, t, d, low, high),
        quoted_string(s, low, quote) matches Ok((_, end)) && end == high + 1,
        byte_at(t, high + d) == Some(other),
        quote == other || forall|i: int| low <= i < high ==> #[trigger] s[i] != other,
    ensures
        quoted_string(t, low + d, other) == Ok::<_, Refusal>(
            (quoted_string(s, low, quote)->Ok_0.0, high + d + 1),
        ),
{
    let (end, has_escape) = string_scan(s, low, quote, false)->Ok_0;
    lemma_string_scan(s, low, quote, false);
    lemma_string_scan_moved(s, t, d, low, high, low, quote, other);
    lemma_part(s, t, d, low, high, low, end);
    lemma_unescaped_anywhere(s.subrange(low, end), 0, low + 1, low + d + 1);
}

/// A scalar is the same in both texts.
#[verifier::rlimit(40)]
#[verifier::spinoff_prover]
pub proof fn lemma_scalar_moved(
    s: Seq<u8>,
    t: Seq<u8>,
    d: int,
    low: int,
    high: int,
    standard: bool,
)
    requires
        moved_token(s, t, d, low, high),
        low < high,
        s.len() <= usize::MAX,
        t.len() <= usize::MAX,
        scalar(s, low, s[low], standard) matches Ok((_, end)) && end == high,
    ensures
        scalar(t, low + d, s[low], standard) matches Ok((w, end)) && end == high + d && plain(t, w)
            == plain(s, scalar(s, low, s[low], standard)->Ok_0.0),
{
    let byte = s[low];
    assert(byte == t[low + d]);
    let kind = if standard {
        byte
    } else {
        lower(byte)
    };
    if kind == 0x6e {
        lemma_word_moved(s, t, d, low, high, low, word_null(), !standard);
        lemma_word_moved(s, t, d, low, high, low, word_null(), true);
        lemma_word_moved(s, t, d, low, high, low, word_nan(), true);
    } else if kind == 0x74 {
        lemma_word_moved(s, t, d, low, high, low, word_true(), !standard);
    } else if kind == 0x66 {
        lemma_word_moved(s, t, d, low, high, low, word_false(), !standard);
    } else if kind == 0x69 && !standard {
        lemma_word_moved(s, t, d, low, high, low, word_infinity(), true);
    } else if byte == QUOTE || byte == APOSTROPHE {
        lemma_quoted_string(s, low + 1, byte);
        assert(s[high - 1] == t[high - 1 + d]);
        lemma_quoted_string_moved(s, t, d, low + 1, high - 1, byte, byte);
    } else if standard {
        lemma_standard_number_moved(s, t, d, low, high);
    } else {
        lemma_extended_number_moved(s, t, d, low, high);
    }
}

proof fn lemma_unquoted_end_moved(s: Seq<u8>, t: Seq<u8>, d: int, low: int, high: int, k: int)
    requires
        moved_token(s, t, d, low, high),
        low <= k,
        unquoted_end(s, k) == Ok::<int, Refusal>(high),
        high + d < t.len(),
    ensures
        unquoted_end(t, k + d) == Ok::<int, Refusal>(high + d),
    decreases remaining(s, k),
{
    lemma_unquoted_end(s, k);
    if k < high {
        assert(s[k] == t[k + d]);
        let next = if is_key_byte(s[k]) {
            k + 1
        } else if s[k] >= 0xf0 {
            k + 4
        } else if s[k] >= 0xe0 {
            k + 3
        } else {
            k + 2
        };
        lemma_unquoted_end_moved(s, t, d, low, high, next);
    }
}

/// A key is the same in both texts.
pub proof fn lemma_object_key_moved(
    s: Seq<u8>,
    t: Seq<u8>,
    d: int,
    low: int,
    high: int,
    standard: bool,
)
    requires
        moved_token(s, t, d, low, high),
        high + d < t.len(),
        object_key(s, low, standard) matches Ok((_, end)) && end == high,
    ensures
        object_key(t, low + d, standard) == Ok::<_, Refusal>(
            (object_key(s, low, standard)->Ok_0.0, high + d),
        ),
{
    lemma_object_key(s, low, standard);
    if low == high {
        lemma_quoted_string(s, low + 1, s[low]);
    }
    assert(s[low] == t[low + d]);
    if s[low] == QUOTE || (!standard && s[low] == APOSTROPHE) {
        lemma_quoted_string(s, low + 1, s[low]);
        assert(s[high - 1] == t[high - 1 + d]);
        lemma_quoted_string_moved(s, t, d, low + 1, high - 1, s[low], s[low]);
    } else {
        lemma_unquoted_end_moved(s, t, d, low, high, low);
        lemma_part(s, t, d, low, high, low, high);
    }
}

} // verus!
