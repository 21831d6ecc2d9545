//! The tokens of a text, and what is between them: white space there does not change what the
//! text denotes.

use vstd::prelude::*;

use crate::ascii::{
    APOSTROPHE, BACKSLASH, CLOSE_BRACE, CLOSE_BRACKET, COLON, COMMA, MINUS, OPEN_BRACE,
    OPEN_BRACKET, POINT, QUOTE, ZERO,
};
use crate::error::{Error, Refusal};
use crate::extent::{law_value_within_text, lemma_object_key, lemma_unquoted_end};
use crate::grammar::{
    array_items, document, exponent_end, extended_number, fraction_end, general_number, hex_number,
    lemma_unused_end, lemma_unused_end_again, object_key, object_members, object_value, remaining,
    scalar, sign_end, special_number, standard_number, unquoted_end, unused_end, unused_width,
    value, word_end, word_false, word_infinity, word_nan, word_null, word_true, zeros_end,
};
use crate::moved::{lemma_object_key_moved, lemma_scalar_moved, moved, moved_token, stops};
use crate::parser_direct::{parses, Parsed};
use crate::plain::{
    answers, law_parse_gives_what_is_denoted, lemma_plain_items_push, lemma_plain_keys,
    lemma_plain_members_push, meaning, plain, plain_items, plain_members, Literal,
};
use crate::scan::{
    byte_at, digits_end, hex_digits_end, is_whitespace, lemma_digits_end, lemma_hex_digits_end,
    lemma_string_scan, string_scan,
};
use crate::value::{JsonValue, Member};

verus! {

/// A byte that is a token by itself.
pub open spec fn is_punctuation(b: u8) -> bool {
    b == COMMA || b == COLON || b == OPEN_BRACKET || b == CLOSE_BRACKET || b == OPEN_BRACE || b
        == CLOSE_BRACE
}

/// A byte that ends a run of other bytes.
pub open spec fn ends_run(b: u8) -> bool {
    is_whitespace(b) || is_punctuation(b) || b == QUOTE || b == APOSTROPHE || b == BACKSLASH
}

/// The number of bytes of the character that a byte leads.
pub open spec fn char_width(b: u8) -> int {
    if b >= 0xf0 {
        4
    } else if b >= 0xe0 {
        3
    } else if b >= 0xc0 {
        2
    } else {
        1
    }
}

/// The offset behind a run: a number, a word or a key without quotes.
pub open spec fn run_end(text: Seq<u8>, pos: int) -> int
    decreases remaining(text, pos),
{
    if pos < 0 || pos >= text.len() || ends_run(text[pos]) {
        pos
    } else {
        run_end(text, pos + char_width(text[pos]))
    }
}

/// The offset behind the token at `pos`: punctuation, a string or a run.
pub open spec fn token_end(text: Seq<u8>, pos: int) -> int {
    let b = text[pos];
    if b == QUOTE || b == APOSTROPHE {
        match string_scan(text, pos + 1, b, false) {
            Ok((end, _)) => end + 1,
            Err(_) => pos + 1,
        }
    } else if ends_run(b) {
        pos + 1
    } else {
        run_end(text, pos)
    }
}

/// The offset behind what stands at `pos`: something to be skipped, or a token.
pub open spec fn step(text: Seq<u8>, pos: int) -> int {
    if unused_width(text, pos) > 0 {
        pos + unused_width(text, pos)
    } else {
        token_end(text, pos)
    }
}

proof fn lemma_run_end(text: Seq<u8>, pos: int)
    ensures
        pos <= run_end(text, pos),
        0 <= pos < text.len() && !ends_run(text[pos]) ==> pos < run_end(text, pos),
    decreases remaining(text, pos),
{
    if 0 <= pos < text.len() && !ends_run(text[pos]) {
        lemma_run_end(text, pos + char_width(text[pos]));
    }
}

pub proof fn lemma_step_advances(text: Seq<u8>, pos: int)
    requires
        0 <= pos < text.len(),
    ensures
        pos < step(text, pos),
{
    lemma_run_end(text, pos);
    lemma_string_scan(text, pos + 1, text[pos], false);
}

/// From the token boundary `from` on, `k` is a token boundary too: inside no token and no escape
/// that is skipped.
pub open spec fn between(text: Seq<u8>, from: int, k: int) -> bool
    decreases k - from,
{
    if from == k {
        true
    } else if 0 <= from < k && from < text.len() {
        proof {
            lemma_step_advances(text, from);
        }
        step(text, from) <= k && between(text, step(text, from), k)
    } else {
        false
    }
}

proof fn lemma_between_step(text: Seq<u8>, from: int, k: int)
    requires
        between(text, from, k),
        0 <= k < text.len(),
    ensures
        between(text, from, step(text, k)),
    decreases k - from,
{
    lemma_step_advances(text, k);
    if from < k {
        lemma_step_advances(text, from);
        lemma_between_step(text, step(text, from), k);
    } else {
        assert(between(text, step(text, k), step(text, k)));
    }
}

/// There is no boundary inside what one step passes.
proof fn lemma_no_boundary_inside(text: Seq<u8>, from: int, a: int, i: int)
    requires
        between(text, from, a),
        0 <= a < text.len(),
        a < i < step(text, a),
    ensures
        !between(text, from, i),
    decreases a - from,
{
    if from < a {
        lemma_step_advances(text, from);
        lemma_no_boundary_inside(text, step(text, from), a, i);
    }
}

/// The text ends at `pos`, or goes on with a comma or the end of a container.
pub open spec fn tail(text: Seq<u8>, pos: int) -> bool {
    byte_at(text, pos) is None || byte_at(text, pos) == Some(COMMA) || byte_at(text, pos) == Some(
        CLOSE_BRACKET,
    ) || byte_at(text, pos) == Some(CLOSE_BRACE)
}

/// The bytes of `s` from `low` up to `high` stand in `t`, with white space put between the tokens:
/// the byte at `i` is at `at[i]`, and the white space before it starts at `gap[i]`.
pub open spec fn embeds(
    s: Seq<u8>,
    low: int,
    high: int,
    t: Seq<u8>,
    gap: Seq<int>,
    at: Seq<int>,
) -> bool {
    &&& 0 <= low <= high <= s.len() <= usize::MAX
    &&& t.len() <= usize::MAX
    &&& forall|i: int| low <= i <= high ==> 0 <= gap[i] <= #[trigger] at[i] <= t.len()
    &&& forall|i: int|
        low <= i < high ==> #[trigger] at[i] < t.len() && t[at[i]] == s[i] && gap[i + 1] == at[i]
            + 1
    &&& forall|i: int, j: int|
        low <= i <= high && gap[i] <= j < #[trigger] at[i] ==> is_whitespace(#[trigger] t[j])
    &&& forall|i: int| low <= i <= high && gap[i] < #[trigger] at[i] ==> between(s, low, i)
    &&& tail(s, high)
    &&& tail(t, at[high])
}

/// What one step passes stands in one piece.
proof fn lemma_piece(
    s: Seq<u8>,
    low: int,
    high: int,
    t: Seq<u8>,
    gap: Seq<int>,
    at: Seq<int>,
    a: int,
    b: int,
)
    requires
        embeds(s, low, high, t, gap, at),
        low <= a < b <= high,
        between(s, low, a),
        step(s, a) == b,
    ensures
        moved(s, t, at[a] - a, a, b),
        gap[b] == at[a] + (b - a),
        between(s, low, b),
{
    lemma_between_step(s, low, a);
    assert(at[a] >= gap[a]);
    lemma_run_of_places(s, low, high, t, gap, at, a, b - 1);
    assert forall|k: int| a <= k < b implies #[trigger] s[k] == t[k + (at[a] - a)] by {
        lemma_run_of_places(s, low, high, t, gap, at, a, k);
        assert(at[k] == at[a] + (k - a));
        assert(t[at[k]] == s[k]);
    }
    assert(at[b - 1] < t.len());
}

proof fn lemma_run_of_places(
    s: Seq<u8>,
    low: int,
    high: int,
    t: Seq<u8>,
    gap: Seq<int>,
    at: Seq<int>,
    a: int,
    k: int,
)
    requires
        embeds(s, low, high, t, gap, at),
        low <= a <= k < high,
        between(s, low, a),
        k < step(s, a),
    ensures
        at[k] == at[a] + (k - a),
    decreases k - a,
{
    if k > a {
        lemma_run_of_places(s, low, high, t, gap, at, a, k - 1);
        lemma_no_boundary_inside(s, low, a, k);
        assert(gap[k] == at[k - 1] + 1);
        assert(gap[k] <= at[k]);
    }
}

/// A token is the same in both texts, where no scalar and no key goes on behind it.
proof fn lemma_token(
    s: Seq<u8>,
    low: int,
    high: int,
    t: Seq<u8>,
    gap: Seq<int>,
    at: Seq<int>,
    a: int,
    b: int,
)
    requires
        embeds(s, low, high, t, gap, at),
        low <= a < b <= high,
        between(s, low, a),
        step(s, a) == b,
        stops(s, b),
    ensures
        moved_token(s, t, at[a] - a, a, b),
        gap[b] == at[a] + (b - a),
        between(s, low, b),
        b < high ==> at[a] + (b - a) < t.len(),
{
    lemma_piece(s, low, high, t, gap, at, a, b);
    let g = gap[b];
    if g < at[b] {
        assert(is_whitespace(t[g]));
    } else if b < high {
        assert(t[at[b]] == s[b]);
    }
}

/// Where the other text has neither white space nor the end next, it has what this one has next.
proof fn lemma_next(
    s: Seq<u8>,
    low: int,
    high: int,
    t: Seq<u8>,
    gap: Seq<int>,
    at: Seq<int>,
    i: int,
)
    requires
        embeds(s, low, high, t, gap, at),
        low <= i < high,
        at[i] + 1 < t.len(),
        !is_whitespace(t[at[i] + 1]),
        t[at[i] + 1] != COMMA,
        t[at[i] + 1] != CLOSE_BRACKET,
        t[at[i] + 1] != CLOSE_BRACE,
    ensures
        i + 1 < high,
        at[i + 1] == at[i] + 1,
        s[i + 1] == t[at[i] + 1],
{
    let g = gap[i + 1];
    assert(g == at[i] + 1);
    assert(g <= at[i + 1]);
    if g < at[i + 1] {
        assert(is_whitespace(t[g]));
    }
    if i + 1 < high {
        assert(t[at[i + 1]] == s[i + 1]);
    }
}

/// What is skipped leads to corresponding places.
pub proof fn lemma_skipped(
    s: Seq<u8>,
    low: int,
    high: int,
    t: Seq<u8>,
    gap: Seq<int>,
    at: Seq<int>,
    p: int,
    x: int,
)
    requires
        embeds(s, low, high, t, gap, at),
        low <= p <= high,
        between(s, low, p),
        gap[p] <= x <= at[p],
    ensures
        p <= unused_end(s, p) <= high,
        between(s, low, unused_end(s, p)),
        unused_end(t, x) == at[unused_end(s, p)],
    decreases high - p, at[p] - x,
{
    lemma_unused_end(s, p);
    if x < at[p] {
        assert(is_whitespace(t[x]));
        lemma_skipped(s, low, high, t, gap, at, p, x + 1);
    } else if p == high {
        assert(unused_width(s, p) == 0);
        assert(unused_width(t, x) == 0);
    } else {
        assert(t[at[p]] == s[p]);
        let w = unused_width(s, p);
        if w > 0 {
            assert(p + w <= high) by {
                if w >= 2 {
                    assert(p + 1 != high);
                }
                if w == 4 {
                    assert(p + 2 != high);
                    assert(p + 3 != high);
                }
            }
            assert(step(s, p) == p + w);
            lemma_piece(s, low, high, t, gap, at, p, p + w);
            let d = at[p] - p;
            if w >= 2 {
                assert(s[p + 1] == t[p + 1 + d]);
            }
            if w == 4 {
                assert(s[p + 2] == t[p + 2 + d]);
                assert(s[p + 3] == t[p + 3 + d]);
            }
            assert(unused_width(t, x) == w);
            assert(gap[p + w] <= at[p + w]);
            lemma_skipped(s, low, high, t, gap, at, p + w, x + w);
        } else {
            if unused_width(t, x) > 0 {
                lemma_next(s, low, high, t, gap, at, p);
                if unused_width(t, x) == 4 {
                    lemma_next(s, low, high, t, gap, at, p + 1);
                    lemma_next(s, low, high, t, gap, at, p + 2);
                }
            }
            assert(unused_width(t, x) == 0);
        }
    }
}

/// A byte that a run of ASCII characters can hold.
spec fn run_byte(b: u8) -> bool {
    b < 0xc0 && !ends_run(b)
}

/// All bytes from `a` up to `b` can stand in a run.
spec fn run_bytes(text: Seq<u8>, a: int, b: int) -> bool {
    forall|k: int| a <= k < b ==> run_byte(#[trigger] text[k])
}

proof fn lemma_run_to(text: Seq<u8>, pos: int, end: int)
    requires
        0 <= pos <= end <= text.len(),
        run_bytes(text, pos, end),
        stops(text, end),
    ensures
        run_end(text, pos) == end,
    decreases end - pos,
{
    if pos < end {
        assert(run_byte(text[pos]));
        lemma_run_to(text, pos + 1, end);
    }
}

proof fn lemma_word_run(text: Seq<u8>, pos: int, word: Seq<u8>, fold: bool)
    requires
        0 <= pos <= text.len(),
        forall|i: int| 0 <= i < word.len() ==> 0x61 <= #[trigger] word[i] <= 0x7a,
    ensures
        word_end(text, pos, word, fold) matches Ok(end) ==> end == pos + word.len() && end
            <= text.len() && run_bytes(text, pos, end),
    decreases word.len(),
{
    if word.len() > 0 && pos < text.len() {
        let rest = word.drop_first();
        assert(0x61 <= word[0] <= 0x7a);
        assert forall|i: int| 0 <= i < rest.len() implies 0x61 <= #[trigger] rest[i] <= 0x7a by {
            assert(rest[i] == word[i + 1]);
        }
        lemma_word_run(text, pos + 1, rest, fold);
    }
}

proof fn lemma_exponent_run(text: Seq<u8>, pos: int)
    requires
        0 <= pos <= text.len(),
    ensures
        exponent_end(text, pos) matches Ok(end) ==> pos <= end <= text.len() && run_bytes(
            text,
            pos,
            end,
        ),
{
    if pos + 1 <= text.len() {
        lemma_digits_end(text, pos + 1);
    }
    if pos + 2 <= text.len() {
        lemma_digits_end(text, pos + 2);
    }
}

proof fn lemma_fraction_run(text: Seq<u8>, pos: int)
    requires
        0 <= pos <= text.len(),
    ensures
        pos <= fraction_end(text, pos) <= text.len(),
        run_bytes(text, pos, fraction_end(text, pos)),
        byte_at(text, pos) == Some(POINT) ==> pos < fraction_end(text, pos),
{
    if pos + 1 <= text.len() {
        lemma_digits_end(text, pos + 1);
    }
}

proof fn lemma_zeros_run(text: Seq<u8>, pos: int)
    requires
        0 <= pos <= text.len(),
    ensures
        pos <= zeros_end(text, pos) <= text.len(),
        run_bytes(text, pos, zeros_end(text, pos)),
    decreases text.len() - pos,
{
    if pos < text.len() && text[pos] == ZERO {
        lemma_zeros_run(text, pos + 1);
    }
}

proof fn lemma_standard_number_run(text: Seq<u8>, start: int)
    requires
        0 <= start < text.len(),
    ensures
        standard_number(text, start) matches Ok((_, end)) ==> start < end <= text.len()
            && run_bytes(text, start, end),
{
    let first = if byte_at(text, start) == Some(MINUS) {
        start + 1
    } else {
        start
    };
    lemma_digits_end(text, first);
    let int_end = digits_end(text, first);
    lemma_fraction_run(text, int_end);
    lemma_exponent_run(text, fraction_end(text, int_end));
}

proof fn lemma_hex_number_run(text: Seq<u8>, start: int, pos: int, negative: bool)
    requires
        0 <= start < pos <= text.len(),
        run_bytes(text, start, pos),
    ensures
        hex_number(text, start, pos, negative) matches Ok((_, end)) ==> start < end <= text.len()
            && run_bytes(text, start, end),
{
    lemma_hex_digits_end(text, pos);
    let int_end = hex_digits_end(text, pos);
    if int_end + 1 <= text.len() {
        lemma_hex_digits_end(text, int_end + 1);
    }
}

proof fn lemma_special_number_run(text: Seq<u8>, start: int, pos: int, negative: bool)
    requires
        0 <= start <= pos <= text.len(),
        run_bytes(text, start, pos),
    ensures
        special_number(text, pos, negative) matches Ok((_, end)) ==> start < end <= text.len()
            && run_bytes(text, start, end),
{
    lemma_word_run(text, pos, word_infinity(), true);
    lemma_word_run(text, pos, word_nan(), true);
}

proof fn lemma_extended_number_run(text: Seq<u8>, start: int)
    requires
        0 <= start < text.len(),
    ensures
        extended_number(text, start) matches Ok((_, end)) ==> start < end <= text.len()
            && run_bytes(text, start, end),
{
    let first = sign_end(text, start);
    let negative = byte_at(text, start) == Some(MINUS);
    assert(run_bytes(text, start, first));
    lemma_digits_end(text, first);
    lemma_zeros_run(text, first);
    let int_start = zeros_end(text, first);
    lemma_digits_end(text, int_start);
    let int_end = digits_end(text, int_start);
    lemma_fraction_run(text, int_end);
    let frac_end = fraction_end(text, int_end);
    assert(run_bytes(text, start, int_end));
    assert(run_bytes(text, start, frac_end));
    lemma_exponent_run(text, frac_end);
    lemma_special_number_run(text, start, frac_end, negative);
    if int_end < text.len() && (text[int_end] == 0x78 || text[int_end] == 0x58) {
        lemma_hex_number_run(text, start, int_end + 1, negative);
    }
    assert(general_number(text, start, first, negative) matches Ok((_, end)) ==> start < end
        <= text.len() && run_bytes(text, start, end));
}

/// A scalar is one token.
proof fn lemma_scalar_is_token(text: Seq<u8>, pos: int, standard: bool)
    requires
        0 <= pos < text.len(),
        unused_width(text, pos) == 0,
        scalar(text, pos, text[pos], standard) matches Ok((_, end)) && stops(text, end),
    ensures
        scalar(text, pos, text[pos], standard) matches Ok((_, end)) && pos < end <= text.len()
            && step(text, pos) == end,
{
    let end = scalar(text, pos, text[pos], standard)->Ok_0.1;
    lemma_word_run(text, pos, word_null(), !standard);
    lemma_word_run(text, pos, word_null(), true);
    lemma_word_run(text, pos, word_true(), !standard);
    lemma_word_run(text, pos, word_false(), !standard);
    lemma_word_run(text, pos, word_nan(), true);
    lemma_word_run(text, pos, word_infinity(), true);
    lemma_standard_number_run(text, pos);
    lemma_extended_number_run(text, pos);
    lemma_string_scan(text, pos + 1, text[pos], false);
    if text[pos] == QUOTE || text[pos] == APOSTROPHE {
    } else {
        assert(run_byte(text[pos]) && run_bytes(text, pos, end));
        lemma_run_to(text, pos, end);
    }
}

proof fn lemma_unquoted_is_run(text: Seq<u8>, pos: int, end: int)
    requires
        unquoted_end(text, pos) == Ok::<int, Refusal>(end),
        stops(text, end),
    ensures
        run_end(text, pos) == end,
    decreases remaining(text, pos),
{
    lemma_unquoted_end(text, pos);
    if pos < end {
        lemma_unquoted_is_run(text, pos + char_width(text[pos]), end);
    }
}

/// A key is one token.
proof fn lemma_key_is_token(text: Seq<u8>, pos: int, standard: bool)
    requires
        0 <= pos,
        unused_width(text, pos) == 0,
        object_key(text, pos, standard) matches Ok((_, end)) && stops(text, end),
    ensures
        object_key(text, pos, standard) matches Ok((_, end)) && pos < end <= text.len() && step(
            text,
            pos,
        ) == end,
{
    let end = object_key(text, pos, standard)->Ok_0.1;
    lemma_object_key(text, pos, standard);
    assert(pos < text.len());
    if text[pos] == QUOTE || (!standard && text[pos] == APOSTROPHE) {
        lemma_string_scan(text, pos + 1, text[pos], false);
    } else {
        lemma_unquoted_end(text, pos);
        lemma_unquoted_is_run(text, pos, end);
        lemma_run_end(text, pos);
    }
}

/// A value is followed by what no scalar goes on with, where a delimiter or the end comes next.
pub proof fn lemma_stops_before(text: Seq<u8>, end: int)
    requires
        0 <= end,
        ({
            let next = byte_at(text, unused_end(text, end));
            next is None || next == Some(COMMA) || next == Some(COLON) || next == Some(
                CLOSE_BRACKET,
            ) || next == Some(CLOSE_BRACE)
        }),
    ensures
        stops(text, end),
{
    if unused_width(text, end) == 0 {
        assert(unused_end(text, end) == end);
    }
}

/// An array ends behind the place of its items.
proof fn lemma_items_end(text: Seq<u8>, pos: int, standard: bool, items: Seq<JsonValue>)
    requires
        0 <= pos <= text.len() <= usize::MAX,
    ensures
        array_items(text, pos, standard, items) matches Ok((_, end)) ==> pos < end <= text.len(),
    decreases remaining(text, pos),
{
    law_value_within_text(text, pos, standard);
    let found = if !standard && (byte_at(text, pos) == Some(COMMA) || byte_at(text, pos) == Some(
        CLOSE_BRACKET,
    )) {
        Ok((JsonValue::Null, pos))
    } else {
        value(text, pos, standard)
    };
    if let Ok((item, end)) = found {
        let close = unused_end(text, end);
        lemma_unused_end(text, end);
        lemma_unused_end(text, close + 1);
        if byte_at(text, close) == Some(COMMA) {
            lemma_items_end(text, unused_end(text, close + 1), standard, items.push(item));
        }
    }
}

/// The member at `pos`, the offset behind its key, and the offset of what follows the member.
#[verifier::opaque]
pub open spec fn member_at(text: Seq<u8>, pos: int, standard: bool) -> Option<(Member, int, int)> {
    match object_key(text, pos, standard) {
        Err(_) => None,
        Ok((key, key_end)) => {
            let colon = unused_end(text, key_end);
            if byte_at(text, colon) != Some(COLON) {
                None
            } else {
                match value(text, colon + 1, standard) {
                    Err(_) => None,
                    Ok((value, end)) => Some(
                        (Member { key, value }, key_end, unused_end(text, end)),
                    ),
                }
            }
        },
    }
}

/// An object is read member by member.
pub proof fn lemma_members_step(
    text: Seq<u8>,
    pos: int,
    standard: bool,
    members: Seq<Member>,
    ends: Seq<int>,
)
    requires
        0 <= pos <= text.len() <= usize::MAX,
    ensures
        match member_at(text, pos, standard) {
            None => object_members(text, pos, standard, members, ends) is Err,
            Some((member, key_end, close)) => {
                let found = object_members(text, pos, standard, members, ends);
                &&& pos < close <= text.len()
                &&& pos <= key_end
                &&& byte_at(text, close) == Some(COMMA) ==> found == object_members(
                    text,
                    unused_end(text, close + 1),
                    standard,
                    members.push(member),
                    ends.push(key_end),
                )
                &&& byte_at(text, close) == Some(CLOSE_BRACE) ==> found == object_value(
                    members.push(member),
                    ends.push(key_end),
                    close + 1,
                )
                &&& found is Ok ==> byte_at(text, close) == Some(COMMA) || byte_at(text, close)
                    == Some(CLOSE_BRACE)
            },
        },
{
    reveal(member_at);
    lemma_object_key(text, pos, standard);
    if let Ok((key, key_end)) = object_key(text, pos, standard) {
        let colon = unused_end(text, key_end);
        lemma_unused_end(text, key_end);
        if byte_at(text, colon) == Some(COLON) {
            law_value_within_text(text, colon + 1, standard);
            if let Ok((item, end)) = value(text, colon + 1, standard) {
                lemma_unused_end(text, end);
            }
        }
    }
}

/// An object ends behind the place of its members.
proof fn lemma_members_end(
    text: Seq<u8>,
    pos: int,
    standard: bool,
    members: Seq<Member>,
    ends: Seq<int>,
)
    requires
        0 <= pos <= text.len() <= usize::MAX,
    ensures
        object_members(text, pos, standard, members, ends) matches Ok((_, end)) ==> pos < end
            <= text.len(),
    decreases remaining(text, pos),
{
    lemma_members_step(text, pos, standard, members, ends);
    if let Some((member, key_end, close)) = member_at(text, pos, standard) {
        if byte_at(text, close) == Some(COMMA) {
            lemma_unused_end(text, close + 1);
            lemma_members_end(
                text,
                unused_end(text, close + 1),
                standard,
                members.push(member),
                ends.push(key_end),
            );
        }
    }
}

/// Punctuation is one token.
proof fn lemma_punctuation(
    s: Seq<u8>,
    low: int,
    high: int,
    t: Seq<u8>,
    gap: Seq<int>,
    at: Seq<int>,
    i: int,
)
    requires
        embeds(s, low, high, t, gap, at),
        low <= i < high,
        between(s, low, i),
        is_punctuation(s[i]),
    ensures
        between(s, low, i + 1),
        byte_at(t, at[i]) == Some(s[i]),
        gap[i + 1] == at[i] + 1,
        gap[i + 1] <= at[i + 1],
{
    assert(step(s, i) == i + 1);
    lemma_between_step(s, low, i);
    assert(t[at[i]] == s[i]);
}

/// A value is the same value in both texts, and ends at corresponding places.
#[verifier::rlimit(30)]
pub proof fn lemma_value_embedded(
    s: Seq<u8>,
    low: int,
    high: int,
    t: Seq<u8>,
    gap: Seq<int>,
    at: Seq<int>,
    standard: bool,
    p: int,
    x: int,
)
    requires
        embeds(s, low, high, t, gap, at),
        low <= p <= high,
        between(s, low, p),
        gap[p] <= x <= at[p],
        value(s, p, standard) matches Ok((_, e)) && e <= high && stops(s, e),
        unused_end(s, p) < s.len() || (high == s.len() && at[high] == t.len()),
    ensures
        ({
            let (v, e) = value(s, p, standard)->Ok_0;
            &&& p <= e
            &&& between(s, low, e)
            &&& value(t, x, standard) matches Ok((w, y)) && gap[e] <= y <= at[e] && plain(t, w)
                == plain(s, v)
        }),
    decreases remaining(s, p), 0int,
{
    let (v, e) = value(s, p, standard)->Ok_0;
    law_value_within_text(s, p, standard);
    lemma_skipped(s, low, high, t, gap, at, p, x);
    lemma_unused_end_again(s, p);
    let first = unused_end(s, p);
    if first < s.len() {
        if first == high {
            assert(false);
        }
        assert(t[at[first]] == s[first]);
        if s[first] == OPEN_BRACKET {
            lemma_punctuation(s, low, high, t, gap, at, first);
            lemma_skipped(s, low, high, t, gap, at, first + 1, gap[first + 1]);
            let inside = unused_end(s, first + 1);
            if byte_at(s, inside) == Some(CLOSE_BRACKET) {
                lemma_punctuation(s, low, high, t, gap, at, inside);
            } else {
                lemma_items_end(s, inside, standard, seq![]);
                assert(byte_at(t, at[inside]) == byte_at(s, inside)) by {
                    assert(t[at[inside]] == s[inside]);
                }
                lemma_items_embedded(
                    s,
                    low,
                    high,
                    t,
                    gap,
                    at,
                    standard,
                    inside,
                    seq![],
                    seq![],
                );
            }
        } else if s[first] == OPEN_BRACE {
            lemma_punctuation(s, low, high, t, gap, at, first);
            lemma_skipped(s, low, high, t, gap, at, first + 1, gap[first + 1]);
            lemma_unused_end_again(s, first + 1);
            let inside = unused_end(s, first + 1);
            if byte_at(s, inside) == Some(CLOSE_BRACE) {
                lemma_punctuation(s, low, high, t, gap, at, inside);
            } else {
                lemma_members_end(s, inside, standard, seq![], seq![]);
                assert(byte_at(t, at[inside]) == byte_at(s, inside)) by {
                    assert(t[at[inside]] == s[inside]);
                }
                lemma_members_embedded(
                    s,
                    low,
                    high,
                    t,
                    gap,
                    at,
                    standard,
                    inside,
                    seq![],
                    seq![],
                    seq![],
                    seq![],
                );
            }
        } else {
            lemma_scalar_is_token(s, first, standard);
            lemma_token(s, low, high, t, gap, at, first, e);
            lemma_scalar_moved(s, t, at[first] - first, first, e, standard);
            assert(gap[e] <= at[e]);
        }
    }
}

/// An array is the same array in both texts.
#[verifier::rlimit(30)]
proof fn lemma_items_embedded(
    s: Seq<u8>,
    low: int,
    high: int,
    t: Seq<u8>,
    gap: Seq<int>,
    at: Seq<int>,
    standard: bool,
    p: int,
    a: Seq<JsonValue>,
    b: Seq<JsonValue>,
)
    requires
        embeds(s, low, high, t, gap, at),
        low <= p <= high,
        between(s, low, p),
        array_items(s, p, standard, a) matches Ok((_, e)) && e <= high,
        plain_items(s, a) == plain_items(t, b),
    ensures
        ({
            let (v, e) = array_items(s, p, standard, a)->Ok_0;
            &&& between(s, low, e)
            &&& array_items(t, at[p], standard, b) matches Ok((w, y)) && gap[e] <= y <= at[e]
                && plain(t, w) == plain(s, v)
        }),
    decreases remaining(s, p), 1int,
{
    lemma_items_end(s, p, standard, a);
    law_value_within_text(s, p, standard);
    law_value_within_text(t, at[p], standard);
    assert(t[at[p]] == s[p]);
    let left_out = !standard && (s[p] == COMMA || s[p] == CLOSE_BRACKET);
    let (item, end) = if left_out {
        (JsonValue::Null, p)
    } else {
        value(s, p, standard)->Ok_0
    };
    let close = unused_end(s, end);
    lemma_unused_end(s, end);
    lemma_unused_end(s, close + 1);
    lemma_unused_end(s, p);
    if byte_at(s, close) == Some(COMMA) {
        lemma_items_end(s, unused_end(s, close + 1), standard, a.push(item));
    }
    if !left_out {
        lemma_stops_before(s, end);
        lemma_value_embedded(s, low, high, t, gap, at, standard, p, at[p]);
    }
    let (other, y) = if left_out {
        (JsonValue::Null, at[p])
    } else {
        value(t, at[p], standard)->Ok_0
    };
    lemma_skipped(s, low, high, t, gap, at, end, y);
    lemma_punctuation(s, low, high, t, gap, at, close);
    lemma_plain_items_push(s, a, item);
    lemma_plain_items_push(t, b, other);
    assert(plain(t, other) == plain(s, item));
    if s[close] == COMMA {
        lemma_skipped(s, low, high, t, gap, at, close + 1, gap[close + 1]);
        lemma_items_embedded(
            s,
            low,
            high,
            t,
            gap,
            at,
            standard,
            unused_end(s, close + 1),
            a.push(item),
            b.push(other),
        );
    }
}

/// A member is the same member in both texts.
pub proof fn lemma_member_embedded(
    s: Seq<u8>,
    low: int,
    high: int,
    t: Seq<u8>,
    gap: Seq<int>,
    at: Seq<int>,
    standard: bool,
    p: int,
)
    requires
        embeds(s, low, high, t, gap, at),
        low <= p <= high,
        between(s, low, p),
        unused_width(s, p) == 0,
        member_at(s, p, standard) matches Some((_, _, close)) && close <= high && (byte_at(s, close)
            == Some(COMMA) || byte_at(s, close) == Some(CLOSE_BRACE)),
    ensures
        ({
            let (member, _, close) = member_at(s, p, standard)->Some_0;
            &&& between(s, low, close)
            &&& member_at(t, at[p], standard) matches Some((other, _, other_close)) && other_close
                == at[close] && other.key == member.key && plain(t, other.value) == plain(
                s,
                member.value,
            )
        }),
    decreases remaining(s, p), 1int,
{
    reveal(member_at);
    lemma_object_key(s, p, standard);
    let (key, key_end) = object_key(s, p, standard)->Ok_0;
    let colon = unused_end(s, key_end);
    lemma_unused_end(s, key_end);
    lemma_stops_before(s, key_end);
    lemma_key_is_token(s, p, standard);
    law_value_within_text(s, colon + 1, standard);
    let end = value(s, colon + 1, standard)->Ok_0.1;
    lemma_unused_end(s, end);
    lemma_unused_end(s, colon + 1);
    lemma_token(s, low, high, t, gap, at, p, key_end);
    lemma_object_key_moved(s, t, at[p] - p, p, key_end, standard);
    let other_end = key_end + (at[p] - p);
    assert(gap[key_end] <= at[key_end]);
    lemma_skipped(s, low, high, t, gap, at, key_end, other_end);
    lemma_punctuation(s, low, high, t, gap, at, colon);
    lemma_stops_before(s, end);
    lemma_value_embedded(s, low, high, t, gap, at, standard, colon + 1, at[colon] + 1);
    lemma_skipped(s, low, high, t, gap, at, end, value(t, at[colon] + 1, standard)->Ok_0.1);
}

/// An object is the same object in both texts.
proof fn lemma_members_embedded(
    s: Seq<u8>,
    low: int,
    high: int,
    t: Seq<u8>,
    gap: Seq<int>,
    at: Seq<int>,
    standard: bool,
    p: int,
    a: Seq<Member>,
    a_ends: Seq<int>,
    b: Seq<Member>,
    b_ends: Seq<int>,
)
    requires
        embeds(s, low, high, t, gap, at),
        low <= p <= high,
        between(s, low, p),
        unused_width(s, p) == 0,
        object_members(s, p, standard, a, a_ends) matches Ok((_, e)) && e <= high,
        plain_members(s, a) == plain_members(t, b),
    ensures
        ({
            let (v, e) = object_members(s, p, standard, a, a_ends)->Ok_0;
            &&& between(s, low, e)
            &&& object_members(t, at[p], standard, b, b_ends) matches Ok((w, y)) && gap[e] <= y
                <= at[e] && plain(t, w) == plain(s, v)
        }),
    decreases remaining(s, p), 2int,
{
    lemma_members_step(s, p, standard, a, a_ends);
    let (member, key_end, close) = member_at(s, p, standard)->Some_0;
    let all = a.push(member);
    let next = unused_end(s, close + 1);
    lemma_unused_end(s, close + 1);
    lemma_unused_end_again(s, close + 1);
    if s[close] == COMMA {
        lemma_members_end(s, next, standard, all, a_ends.push(key_end));
    }
    lemma_member_embedded(s, low, high, t, gap, at, standard, p);
    assert(at[p] <= t.len());
    lemma_members_step(t, at[p], standard, b, b_ends);
    let (other, other_end, _) = member_at(t, at[p], standard)->Some_0;
    let others = b.push(other);
    lemma_punctuation(s, low, high, t, gap, at, close);
    lemma_plain_members_push(s, a, member);
    lemma_plain_members_push(t, b, other);
    assert(plain_members(s, all) == plain_members(t, others));
    if s[close] == COMMA {
        lemma_skipped(s, low, high, t, gap, at, close + 1, gap[close + 1]);
        lemma_members_embedded(
            s,
            low,
            high,
            t,
            gap,
            at,
            standard,
            next,
            all,
            a_ends.push(key_end),
            others,
            b_ends.push(other_end),
        );
    } else {
        lemma_plain_keys(s, all);
        lemma_plain_keys(t, others);
    }
}

/// The first `k` bytes of a text, with something put before each of them and behind the last.
pub open spec fn padded_front(text: Seq<u8>, pads: Seq<Seq<u8>>, k: int) -> Seq<u8>
    decreases k,
{
    if k <= 0 {
        pads[0]
    } else {
        padded_front(text, pads, k - 1).push(text[k - 1]) + pads[k]
    }
}

/// A text with something put before each of its bytes and behind the last.
pub open spec fn padded(text: Seq<u8>, pads: Seq<Seq<u8>>) -> Seq<u8> {
    padded_front(text, pads, text.len() as int)
}

/// What is put into the text is white space, and none of it stands inside a token.
pub open spec fn spaces_between_tokens(text: Seq<u8>, pads: Seq<Seq<u8>>) -> bool {
    &&& pads.len() == text.len() + 1
    &&& forall|i: int, j: int|
        0 <= i < pads.len() && 0 <= j < pads[i].len() ==> is_whitespace(#[trigger] pads[i][j])
    &&& forall|i: int| 0 <= i < pads.len() && (#[trigger] pads[i]).len() > 0 ==> between(text, 0, i)
}

proof fn lemma_padded_front(text: Seq<u8>, pads: Seq<Seq<u8>>, k: int, n: int)
    requires
        0 <= k <= n,
    ensures
        padded_front(text, pads, k).len() >= k,
        padded_front(text, pads, k).len() <= padded_front(text, pads, n).len(),
        forall|j: int|
            0 <= j < padded_front(text, pads, k).len() ==> #[trigger] padded_front(
                text,
                pads,
                n,
            )[j] == padded_front(text, pads, k)[j],
    decreases n,
{
    if k < n {
        lemma_padded_front(text, pads, k, n - 1);
        let before = padded_front(text, pads, n - 1);
        assert forall|j: int| 0 <= j < padded_front(text, pads, k).len() implies #[trigger]
        padded_front(text, pads, n)[j] == padded_front(text, pads, k)[j] by {
            assert(padded_front(text, pads, n)[j] == before[j]);
        }
    } else if k > 0 {
        lemma_padded_front(text, pads, k - 1, k - 1);
    }
}

/// White space between the tokens of a text does not change what the text denotes. The end of the
/// text is such a place too.
pub proof fn law_white_space_keeps_the_meaning(
    text: Seq<u8>,
    pads: Seq<Seq<u8>>,
    standard: bool,
)
    requires
        spaces_between_tokens(text, pads),
        padded(text, pads).len() <= usize::MAX,
        document(text, standard) is Ok,
    ensures
        meaning(padded(text, pads), standard) == meaning(text, standard),
        between(text, 0, text.len() as int),
{
    let n = text.len() as int;
    let t = padded(text, pads);
    let at = Seq::new(text.len() + 1, |i: int| padded_front(text, pads, i).len() as int);
    let gap = Seq::new(
        text.len() + 1,
        |i: int|
            if i == 0 {
                0int
            } else {
                padded_front(text, pads, i - 1).len() as int + 1
            },
    );
    lemma_padded_front(text, pads, n, n);
    assert forall|i: int| 0 <= i <= n implies 0 <= gap[i] <= #[trigger] at[i] <= t.len() by {
        lemma_padded_front(text, pads, i, n);
    }
    assert forall|i: int| 0 <= i < n implies #[trigger] at[i] < t.len() && t[at[i]] == text[i]
        && gap[i + 1] == at[i] + 1 by {
        lemma_padded_front(text, pads, i + 1, n);
        assert(padded_front(text, pads, i + 1)[at[i]] == text[i]);
    }
    assert forall|i: int, j: int| 0 <= i <= n && gap[i] <= j < #[trigger] at[i] implies (
    is_whitespace(#[trigger] t[j])) by {
        lemma_padded_front(text, pads, i, n);
        assert(t[j] == padded_front(text, pads, i)[j]);
        assert(padded_front(text, pads, i)[j] == pads[i][j - gap[i]]);
    }
    assert forall|i: int| 0 <= i <= n && gap[i] < #[trigger] at[i] implies between(text, 0, i) by {
        assert(pads[i].len() > 0);
    }
    assert(embeds(text, 0, n, t, gap, at));
    law_value_within_text(text, 0, standard);
    let end = value(text, 0, standard)->Ok_0.1;
    lemma_unused_end(text, end);
    lemma_stops_before(text, end);
    lemma_value_embedded(text, 0, n, t, gap, at, standard, 0, 0);
    let y = value(t, 0, standard)->Ok_0.1;
    lemma_skipped(text, 0, n, t, gap, at, end, y);
}

/// White space between the tokens of a text does not change the bytes that a parse gives: a text
/// that is accepted is accepted with any white space put before and behind its tokens, and gives
/// the same bytes.
pub proof fn law_white_space_does_not_matter(
    text: Seq<u8>,
    pads: Seq<Seq<u8>>,
    standard: bool,
    floats: Map<usize, u64>,
    padded_floats: Map<usize, u64>,
    bits: spec_fn(Literal) -> u64,
    r: Result<Parsed, Error>,
    padded_r: Result<Parsed, Error>,
)
    requires
        spaces_between_tokens(text, pads),
        padded(text, pads).len() <= usize::MAX,
        answers(text, standard, floats, bits),
        answers(padded(text, pads), standard, padded_floats, bits),
        parses(text, standard, floats, r),
        parses(padded(text, pads), standard, padded_floats, padded_r),
        r is Ok,
    ensures
        r matches Ok(Parsed::Jsonb(a)) && padded_r matches Ok(Parsed::Jsonb(b)) && a@ == b@,
{
    law_white_space_keeps_the_meaning(text, pads, standard);
    law_parse_gives_what_is_denoted(text, standard, floats, bits, r);
    law_parse_gives_what_is_denoted(
        padded(text, pads),
        standard,
        padded_floats,
        bits,
        padded_r,
    );
}

} // verus!
