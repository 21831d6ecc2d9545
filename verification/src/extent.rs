//! Where values lie in a text: none ends before it starts or beyond the end of the text, and
//! their floating-point literals come one behind the other.

use vstd::prelude::*;

use crate::ascii::{CLOSE_BRACKET, COLON, COMMA, MINUS, OPEN_BRACE, OPEN_BRACKET, POINT, ZERO};
use crate::error::Refusal;
use crate::grammar::{
    array_items, document, exponent_end, extended_number, fraction_end, general_number, hex_number,
    lemma_unused_end, object_key, object_members, quoted_string, remaining, scalar, sign_end,
    special_number, standard_number, unquoted_end, unused_end, value, word_end, word_false,
    word_infinity, word_nan, word_null, word_true, zeros_end,
};
use crate::scan::{
    byte_at, digits_end, hex_digits_end, lemma_digits_end, lemma_hex_digits_end, lemma_string_scan,
};
use crate::value::{
    float_sources, item_sources, lemma_encoded_items_push, lemma_encoded_members_push,
    member_sources, FloatSource, JsonValue, Member, NumberToken,
};

verus! {

/// The literals start between `low` and `high`, one behind the other, and end by `high`.
pub open spec fn sources_within(sources: Seq<FloatSource>, low: int, high: int) -> bool {
    &&& forall|i: int|
        0 <= i < sources.len() ==> low <= (#[trigger] sources[i]).spec_start() < high && (
        sources[i] matches FloatSource::Decimal { start, end } ==> start < end <= high)
    &&& forall|i: int, j: int|
        0 <= i < j < sources.len() ==> (#[trigger] sources[i]).spec_start() < (
        #[trigger] sources[j]).spec_start()
}

proof fn lemma_sources_joined(
    a: Seq<FloatSource>,
    b: Seq<FloatSource>,
    low: int,
    mid: int,
    from: int,
    high: int,
)
    requires
        sources_within(a, low, mid),
        sources_within(b, from, high),
        low <= mid <= from <= high,
    ensures
        sources_within(a + b, low, high),
{
    let all = a + b;
    assert forall|i: int| 0 <= i < all.len() implies low <= (#[trigger] all[i]).spec_start() < high
        && (all[i] matches FloatSource::Decimal { start, end } ==> start < end <= high) by {
        if i < a.len() {
            assert(all[i] == a[i]);
        } else {
            assert(all[i] == b[i - a.len()]);
        }
    }
    assert forall|i: int, j: int| 0 <= i < j < all.len() implies (#[trigger] all[i]).spec_start()
        < (#[trigger] all[j]).spec_start() by {
        if j < a.len() {
            assert(all[i] == a[i] && all[j] == a[j]);
        } else if i < a.len() {
            assert(all[i] == a[i] && all[j] == b[j - a.len()]);
        } else {
            assert(all[i] == b[i - a.len()] && all[j] == b[j - a.len()]);
        }
    }
}

proof fn lemma_word_end(text: Seq<u8>, pos: int, word: Seq<u8>, fold: bool)
    requires
        0 <= pos <= text.len(),
    ensures
        word_end(text, pos, word, fold) matches Ok(end) ==> end == pos + word.len() && end
            <= text.len(),
    decreases word.len(),
{
    if word.len() > 0 && pos < text.len() {
        lemma_word_end(text, pos + 1, word.drop_first(), fold);
    }
}

proof fn lemma_zeros_end(text: Seq<u8>, pos: int)
    requires
        0 <= pos <= text.len(),
    ensures
        pos <= zeros_end(text, pos) <= text.len(),
    decreases text.len() - pos,
{
    if pos < text.len() && text[pos] == ZERO {
        lemma_zeros_end(text, pos + 1);
    }
}

pub proof fn lemma_unquoted_end(text: Seq<u8>, pos: int)
    ensures
        unquoted_end(text, pos) matches Ok(end) ==> pos <= end < text.len(),
    decreases remaining(text, pos),
{
    if 0 <= pos < text.len() {
        lemma_unquoted_end(text, pos + 1);
        lemma_unquoted_end(text, pos + 2);
        lemma_unquoted_end(text, pos + 3);
        lemma_unquoted_end(text, pos + 4);
    }
}

proof fn lemma_exponent_end(text: Seq<u8>, pos: int)
    requires
        0 <= pos <= text.len(),
    ensures
        exponent_end(text, pos) matches Ok(end) ==> pos <= end <= text.len(),
{
    if pos + 1 <= text.len() {
        lemma_digits_end(text, pos + 1);
    }
    if pos + 2 <= text.len() {
        lemma_digits_end(text, pos + 2);
    }
}

proof fn lemma_fraction_end(text: Seq<u8>, pos: int)
    requires
        0 <= pos <= text.len(),
    ensures
        pos <= fraction_end(text, pos) <= text.len(),
        byte_at(text, pos) == Some(POINT) ==> pos < fraction_end(text, pos),
{
    if pos + 1 <= text.len() {
        lemma_digits_end(text, pos + 1);
    }
}

/// A number token ends between `low` and `high`, and if it is to be converted it starts at
/// `start`.
spec fn token_within(
    found: Result<(NumberToken, int), Refusal>,
    start: int,
    low: int,
    high: int,
) -> bool {
    found matches Ok((token, end)) ==> low <= end <= high && match token {
        NumberToken::Number(_) => true,
        NumberToken::Float(FloatSource::Decimal { start: s, end: e }) => s == start && e == end,
        NumberToken::Float(FloatSource::Hexadecimal { start: s, .. }) => s == start,
    }
}

proof fn lemma_standard_number(text: Seq<u8>, start: int)
    requires
        0 <= start < text.len() <= usize::MAX,
    ensures
        token_within(standard_number(text, start), start, start + 1, text.len() as int),
{
    let first = if byte_at(text, start) == Some(MINUS) {
        start + 1
    } else {
        start
    };
    lemma_digits_end(text, first);
    let int_end = digits_end(text, first);
    lemma_fraction_end(text, int_end);
    lemma_exponent_end(text, fraction_end(text, int_end));
}

proof fn lemma_hex_number(text: Seq<u8>, start: int, pos: int, negative: bool)
    requires
        0 <= start < pos <= text.len() <= usize::MAX,
    ensures
        token_within(hex_number(text, start, pos, negative), start, pos, text.len() as int),
{
    lemma_hex_digits_end(text, pos);
    let int_end = hex_digits_end(text, pos);
    if int_end + 1 <= text.len() {
        lemma_hex_digits_end(text, int_end + 1);
    }
}

proof fn lemma_special_number(text: Seq<u8>, start: int, pos: int, negative: bool)
    requires
        0 <= start <= pos <= text.len(),
    ensures
        token_within(special_number(text, pos, negative), start, pos + 1, text.len() as int),
{
    lemma_word_end(text, pos, word_infinity(), true);
    lemma_word_end(text, pos, word_nan(), true);
}

proof fn lemma_extended_number(text: Seq<u8>, start: int)
    requires
        0 <= start < text.len() <= usize::MAX,
    ensures
        token_within(extended_number(text, start), start, start + 1, text.len() as int),
{
    let first = sign_end(text, start);
    let negative = byte_at(text, start) == Some(MINUS);
    lemma_digits_end(text, first);
    lemma_zeros_end(text, first);
    let int_start = zeros_end(text, first);
    lemma_digits_end(text, int_start);
    let int_end = digits_end(text, int_start);
    lemma_fraction_end(text, int_end);
    let frac_end = fraction_end(text, int_end);
    lemma_exponent_end(text, frac_end);
    lemma_special_number(text, start, frac_end, negative);
    if int_end + 1 <= text.len() {
        lemma_hex_number(text, start, int_end + 1, negative);
    }
    assert(token_within(
        general_number(text, start, first, negative),
        start,
        start + 1,
        text.len() as int,
    ));
}

pub proof fn lemma_quoted_string(text: Seq<u8>, pos: int, quote: u8)
    ensures
        quoted_string(text, pos, quote) matches Ok((_, end)) ==> pos < end <= text.len()
            && text[end - 1] == quote,
{
    lemma_string_scan(text, pos, quote, false);
}

pub proof fn lemma_object_key(text: Seq<u8>, pos: int, standard: bool)
    ensures
        object_key(text, pos, standard) matches Ok((_, end)) ==> pos <= end <= text.len(),
{
    if let Some(byte) = byte_at(text, pos) {
        lemma_quoted_string(text, pos + 1, byte);
    }
    lemma_unquoted_end(text, pos);
}

/// A value lies between `low` and `high` with its literals.
pub open spec fn value_within(
    found: Result<(JsonValue, int), Refusal>,
    low: int,
    from: int,
    high: int,
) -> bool {
    found matches Ok((v, end)) ==> from <= end <= high && sources_within(
        float_sources(v),
        low,
        end,
    )
}

proof fn lemma_scalar(text: Seq<u8>, pos: int, byte: u8, standard: bool)
    requires
        0 <= pos < text.len() <= usize::MAX,
        text[pos] == byte,
    ensures
        value_within(scalar(text, pos, byte, standard), pos, pos, text.len() as int),
{
    lemma_word_end(text, pos, word_null(), false);
    lemma_word_end(text, pos, word_true(), false);
    lemma_word_end(text, pos, word_false(), false);
    lemma_word_end(text, pos, word_null(), true);
    lemma_word_end(text, pos, word_true(), true);
    lemma_word_end(text, pos, word_false(), true);
    lemma_word_end(text, pos, word_nan(), true);
    lemma_word_end(text, pos, word_infinity(), true);
    lemma_standard_number(text, pos);
    lemma_extended_number(text, pos);
    lemma_quoted_string(text, pos + 1, byte);
}

/// A value ends where it starts or behind that, inside the text; its floating-point literals
/// lie there too, one behind the other, so that no two of them start at the same offset.
pub proof fn law_value_within_text(text: Seq<u8>, pos: int, standard: bool)
    requires
        0 <= pos <= text.len() <= usize::MAX,
    ensures
        value_within(value(text, pos, standard), pos, pos, text.len() as int),
    decreases remaining(text, pos), 0int,
{
    let first = unused_end(text, pos);
    lemma_unused_end(text, pos);
    if let Some(byte) = byte_at(text, first) {
        let inside = unused_end(text, first + 1);
        lemma_unused_end(text, first + 1);
        assert(item_sources(seq![]) =~= seq![]);
        assert(member_sources(seq![]) =~= seq![]);
        if byte == OPEN_BRACKET {
            lemma_items_within(text, inside, standard, seq![], pos);
        } else if byte == OPEN_BRACE {
            lemma_members_within(text, inside, standard, seq![], seq![], pos);
        } else {
            lemma_scalar(text, first, byte, standard);
        }
    }
}

proof fn lemma_items_within(
    text: Seq<u8>,
    pos: int,
    standard: bool,
    items: Seq<JsonValue>,
    low: int,
)
    requires
        0 <= low <= pos <= text.len() <= usize::MAX,
        sources_within(item_sources(items), low, pos),
    ensures
        value_within(array_items(text, pos, standard, items), low, pos, text.len() as int),
    decreases remaining(text, pos), 1int,
{
    law_value_within_text(text, pos, standard);
    let found = if !standard && (byte_at(text, pos) == Some(COMMA) || byte_at(text, pos) == Some(
        CLOSE_BRACKET,
    )) {
        Ok((JsonValue::Null, pos))
    } else {
        value(text, pos, standard)
    };
    if let Ok((item, end)) = found {
        let close = unused_end(text, end);
        lemma_unused_end(text, end);
        lemma_unused_end(text, close + 1);
        lemma_encoded_items_push(items, item, Map::empty());
        lemma_sources_joined(item_sources(items), float_sources(item), low, pos, pos, end);
        let all = item_sources(items.push(item));
        lemma_sources_joined(all, seq![], low, end, end, close + 1);
        assert(all + Seq::<FloatSource>::empty() =~= all);
        if byte_at(text, close) == Some(COMMA) {
            let next = unused_end(text, close + 1);
            lemma_sources_joined(all, seq![], low, close + 1, close + 1, next);
            lemma_items_within(text, next, standard, items.push(item), low);
        }
    }
}

proof fn lemma_members_within(
    text: Seq<u8>,
    pos: int,
    standard: bool,
    members: Seq<Member>,
    ends: Seq<int>,
    low: int,
)
    requires
        0 <= low <= pos <= text.len() <= usize::MAX,
        sources_within(member_sources(members), low, pos),
    ensures
        value_within(
            object_members(text, pos, standard, members, ends),
            low,
            pos,
            text.len() as int,
        ),
    decreases remaining(text, pos), 1int,
{
    lemma_object_key(text, pos, standard);
    if let Ok((key, key_end)) = object_key(text, pos, standard) {
        let colon = unused_end(text, key_end);
        lemma_unused_end(text, key_end);
        if byte_at(text, colon) == Some(COLON) {
            law_value_within_text(text, colon + 1, standard);
            if let Ok((item, end)) = value(text, colon + 1, standard) {
                let member = Member { key, value: item };
                let close = unused_end(text, end);
                lemma_unused_end(text, end);
                lemma_unused_end(text, close + 1);
                lemma_encoded_members_push(members, member, Map::empty());
                lemma_sources_joined(
                    member_sources(members),
                    float_sources(item),
                    low,
                    pos,
                    colon + 1,
                    end,
                );
                let all = member_sources(members.push(member));
                lemma_sources_joined(all, seq![], low, end, end, close + 1);
                assert(all + Seq::<FloatSource>::empty() =~= all);
                if byte_at(text, close) == Some(COMMA) {
                    let next = unused_end(text, close + 1);
                    lemma_sources_joined(all, seq![], low, close + 1, close + 1, next);
                    lemma_members_within(
                        text,
                        next,
                        standard,
                        members.push(member),
                        ends.push(key_end),
                        low,
                    );
                }
            }
        }
    }
}

/// The floating-point literals of a document lie in its text, one behind the other.
pub proof fn law_literals_within_text(text: Seq<u8>, standard: bool)
    requires
        text.len() <= usize::MAX,
    ensures
        document(text, standard) matches Ok(root) ==> sources_within(
            float_sources(root),
            0,
            text.len() as int,
        ),
{
    law_value_within_text(text, 0, standard);
    if let Ok((root, end)) = value(text, 0, standard) {
        lemma_sources_joined(float_sources(root), seq![], 0, end, end, text.len() as int);
        assert(float_sources(root) + Seq::<FloatSource>::empty() =~= float_sources(root));
    }
}

} // verus!
