//! How the two dialects relate: a standard text is an extended text, and stands for the same
//! value in both but for the numbers that the extended dialect can hold more exactly.

use vstd::prelude::*;

use crate::ascii::{
    CLOSE_BRACE, CLOSE_BRACKET, COLON, COMMA, LOWER_X, MINUS, OPEN_BRACE, OPEN_BRACKET, POINT,
    UPPER_X, ZERO,
};
use crate::error::Refusal;
use crate::extent::{law_value_within_text, lemma_object_key};
use crate::grammar::{
    array_items, document, exponent_end, extended_number, fraction_end, general_number,
    integer_number, lemma_unused_end, lemma_unused_end_again, object_key, object_members, remaining,
    scalar, significant_digits, standard_number, unused_end, unused_width, value, word_end,
    word_false, word_null, word_true, zeros_end,
};
use crate::laws::exact;
use crate::scan::{byte_at, decimal_value, digits_end, is_digit, lemma_digits_end, radix_value};
use crate::value::{member_keys, JsonValue, Member, NumberToken};

verus! {

/// Two number literals agree: they are the same, or the second is exact where the first is to be
/// converted to a floating-point number.
pub open spec fn numbers_agree(a: NumberToken, b: NumberToken) -> bool {
    a == b || (a is Float && b is Number && exact(b->Number_0) is Some)
}

/// Two values agree but for numbers, which agree as literals.
pub open spec fn agree(a: JsonValue, b: JsonValue) -> bool
    decreases a,
{
    match (a, b) {
        (JsonValue::Number(x), JsonValue::Number(y)) => numbers_agree(x, y),
        (JsonValue::Array(x), JsonValue::Array(y)) => items_agree(x, y),
        (JsonValue::Object(x), JsonValue::Object(y)) => members_agree(x, y),
        _ => a == b,
    }
}

/// Two lists of values agree item by item.
pub open spec fn items_agree(a: Seq<JsonValue>, b: Seq<JsonValue>) -> bool
    decreases a,
{
    &&& a.len() == b.len()
    &&& a.len() == 0 || (items_agree(a.drop_last(), b.drop_last()) && agree(a.last(), b.last()))
}

/// Two lists of members have the same keys, and their values agree.
pub open spec fn members_agree(a: Seq<Member>, b: Seq<Member>) -> bool
    decreases a,
{
    &&& a.len() == b.len()
    &&& a.len() == 0 || (members_agree(a.drop_last(), b.drop_last()) && a.last().key
        == b.last().key && agree(a.last().value, b.last().value))
}

/// The value that the standard dialect finds is found in the extended dialect too.
spec fn also_found(
    standard: Result<(JsonValue, int), Refusal>,
    extended: Result<(JsonValue, int), Refusal>,
) -> bool {
    standard matches Ok((a, end)) ==> (extended matches Ok((b, other)) && other == end && agree(
        a,
        b,
    ))
}

/// What stands at `pos` does not carry on a number.
spec fn number_ends(text: Seq<u8>, pos: int) -> bool {
    &&& byte_at(text, pos) != Some(POINT)
    &&& byte_at(text, pos) != Some(LOWER_X)
    &&& byte_at(text, pos) != Some(UPPER_X)
}

proof fn lemma_word_in_any_case(text: Seq<u8>, pos: int, word: Seq<u8>)
    ensures
        word_end(text, pos, word, false) matches Ok(end) ==> word_end(text, pos, word, true) == Ok::<
            int,
            Refusal,
        >(end),
    decreases word.len(),
{
    if word.len() > 0 {
        lemma_word_in_any_case(text, pos + 1, word.drop_first());
    }
}

proof fn lemma_zeros_end_at_digit(text: Seq<u8>, pos: int)
    requires
        0 <= pos < text.len(),
        is_digit(text[pos]),
        text[pos] == ZERO ==> digits_end(text, pos) == pos + 1,
    ensures
        text[pos] == ZERO ==> zeros_end(text, pos) == pos + 1,
        text[pos] != ZERO ==> zeros_end(text, pos) == pos,
        digits_end(text, zeros_end(text, pos)) == digits_end(text, pos),
        digits_end(text, pos) > pos,
{
    lemma_digits_end(text, pos);
    lemma_digits_end(text, pos + 1);
    if text[pos] == ZERO {
        assert(zeros_end(text, pos) == zeros_end(text, pos + 1));
        assert(zeros_end(text, pos + 1) == pos + 1);
    }
}

proof fn lemma_number_in_both(text: Seq<u8>, start: int)
    requires
        0 <= start < text.len() <= usize::MAX,
    ensures
        standard_number(text, start) matches Ok((a, end)) ==> number_ends(text, end) ==> (
        extended_number(text, start) matches Ok((b, other)) && other == end && numbers_agree(a, b)),
{
    let negative = byte_at(text, start) == Some(MINUS);
    let first = if negative {
        start + 1
    } else {
        start
    };
    lemma_digits_end(text, first);
    let int_end = digits_end(text, first);
    if let Ok((a, end)) = standard_number(text, start) {
        if number_ends(text, end) {
            lemma_zeros_end_at_digit(text, first);
            let int_start = zeros_end(text, first);
            let frac_end = fraction_end(text, int_end);
            let digits = significant_digits(text, int_start);
            let plain = end == int_end;
            if int_end < text.len() {
                lemma_digits_end(text, int_end + 1);
            }
            if frac_end < text.len() {
                lemma_digits_end(text, frac_end + 1);
            }
            if frac_end + 1 < text.len() {
                lemma_digits_end(text, frac_end + 2);
            }
            if !plain || integer_number(negative, decimal_value(text.subrange(first, int_end)))
                is None {
                if int_start == first {
                    assert(digits.len() > 0);
                } else if plain {
                    assert(text.subrange(first, int_end) =~= seq![0x30u8]);
                    assert(seq![0x30u8].drop_last() =~= Seq::<u8>::empty());
                    reveal_with_fuel(radix_value, 2);
                    assert(decimal_value(seq![0x30u8]) == 0);
                }
                assert(extended_number(text, start) == general_number(
                    text,
                    start,
                    first,
                    negative,
                ));
                assert(exponent_end(text, frac_end) == Ok::<int, Refusal>(end));
            }
        }
    }
}

/// What comes after a value in an array or an object does not carry on a number.
proof fn lemma_delimiter_ends_number(text: Seq<u8>, end: int)
    requires
        0 <= end <= text.len(),
        ({
            let close = unused_end(text, end);
            ||| byte_at(text, close) is None
            ||| byte_at(text, close) == Some(COMMA)
            ||| byte_at(text, close) == Some(CLOSE_BRACKET)
            ||| byte_at(text, close) == Some(CLOSE_BRACE)
        }),
    ensures
        number_ends(text, end),
{
    if !number_ends(text, end) {
        assert(unused_width(text, end) == 0);
        assert(unused_end(text, end) == end);
    }
}

proof fn lemma_scalar_in_both(text: Seq<u8>, pos: int, byte: u8)
    requires
        0 <= pos < text.len() <= usize::MAX,
        text[pos] == byte,
    ensures
        scalar(text, pos, byte, true) matches Ok((_, end)) ==> number_ends(text, end)
            ==> also_found(scalar(text, pos, byte, true), scalar(text, pos, byte, false)),
{
    lemma_word_in_any_case(text, pos, word_null());
    lemma_word_in_any_case(text, pos, word_true());
    lemma_word_in_any_case(text, pos, word_false());
    lemma_number_in_both(text, pos);
}

proof fn lemma_value_in_both(text: Seq<u8>, pos: int)
    requires
        0 <= pos <= text.len() <= usize::MAX,
    ensures
        value(text, pos, true) matches Ok((_, end)) ==> number_ends(text, end) ==> also_found(
            value(text, pos, true),
            value(text, pos, false),
        ),
    decreases remaining(text, pos), 0int,
{
    let first = unused_end(text, pos);
    lemma_unused_end(text, pos);
    if let Some(byte) = byte_at(text, first) {
        let inside = unused_end(text, first + 1);
        lemma_unused_end(text, first + 1);
        lemma_unused_end_again(text, first + 1);
        if byte == OPEN_BRACKET {
            lemma_items_in_both(text, inside, seq![], seq![]);
        } else if byte == OPEN_BRACE {
            lemma_members_in_both(text, inside, seq![], seq![], seq![]);
        } else {
            lemma_scalar_in_both(text, first, byte);
        }
    }
}

proof fn lemma_items_in_both(text: Seq<u8>, pos: int, a: Seq<JsonValue>, b: Seq<JsonValue>)
    requires
        0 <= pos <= text.len() <= usize::MAX,
        items_agree(a, b),
        unused_end(text, pos) == pos,
    ensures
        also_found(array_items(text, pos, true, a), array_items(text, pos, false, b)),
    decreases remaining(text, pos), 1int,
{
    if let Ok((item, end)) = value(text, pos, true) {
        law_value_within_text(text, pos, true);
        let close = unused_end(text, end);
        lemma_unused_end(text, end);
        lemma_unused_end(text, close + 1);
        if byte_at(text, close) == Some(COMMA) || byte_at(text, close) == Some(CLOSE_BRACKET) {
            lemma_delimiter_ends_number(text, end);
            lemma_value_in_both(text, pos);
            let other = value(text, pos, false)->Ok_0.0;
            assert(a.push(item).drop_last() =~= a);
            assert(b.push(other).drop_last() =~= b);
            assert(items_agree(a.push(item), b.push(other)));
            if byte_at(text, close) == Some(COMMA) {
                lemma_unused_end_again(text, close + 1);
                lemma_items_in_both(
                    text,
                    unused_end(text, close + 1),
                    a.push(item),
                    b.push(other),
                );
            }
        }
    }
}

proof fn lemma_keys_agree(a: Seq<Member>, b: Seq<Member>)
    requires
        members_agree(a, b),
    ensures
        member_keys(a) == member_keys(b),
    decreases a.len(),
{
    if a.len() > 0 {
        lemma_keys_agree(a.drop_last(), b.drop_last());
        assert(member_keys(a) =~= member_keys(a.drop_last()).push(a.last().key));
        assert(member_keys(b) =~= member_keys(b.drop_last()).push(b.last().key));
    } else {
        assert(member_keys(a) =~= member_keys(b));
    }
}

proof fn lemma_members_in_both(
    text: Seq<u8>,
    pos: int,
    a: Seq<Member>,
    b: Seq<Member>,
    ends: Seq<int>,
)
    requires
        0 <= pos <= text.len() <= usize::MAX,
        members_agree(a, b),
    ensures
        also_found(
            object_members(text, pos, true, a, ends),
            object_members(text, pos, false, b, ends),
        ),
    decreases remaining(text, pos), 1int,
{
    if let Ok((key, key_end)) = object_key(text, pos, true) {
        assert(object_key(text, pos, false) == object_key(text, pos, true));
        lemma_object_key(text, pos, true);
        let colon = unused_end(text, key_end);
        lemma_unused_end(text, key_end);
        if byte_at(text, colon) == Some(COLON) {
            if let Ok((item, end)) = value(text, colon + 1, true) {
                law_value_within_text(text, colon + 1, true);
                let close = unused_end(text, end);
                lemma_unused_end(text, end);
                lemma_unused_end(text, close + 1);
                if byte_at(text, close) == Some(COMMA) || byte_at(text, close) == Some(CLOSE_BRACE) {
                    lemma_delimiter_ends_number(text, end);
                    lemma_value_in_both(text, colon + 1);
                    let other = value(text, colon + 1, false)->Ok_0.0;
                    let more_a = a.push(Member { key, value: item });
                    let more_b = b.push(Member { key, value: other });
                    assert(more_a.drop_last() =~= a);
                    assert(more_b.drop_last() =~= b);
                    assert(members_agree(more_a, more_b));
                    lemma_keys_agree(more_a, more_b);
                    if byte_at(text, close) == Some(COMMA) {
                        lemma_members_in_both(
                            text,
                            unused_end(text, close + 1),
                            more_a,
                            more_b,
                            ends.push(key_end),
                        );
                    }
                }
            }
        }
    }
}

/// A text of the standard dialect is one of the extended dialect, and the values agree.
pub proof fn law_standard_texts_are_extended_texts(text: Seq<u8>)
    requires
        text.len() <= usize::MAX,
    ensures
        document(text, true) matches Ok(a) ==> (document(text, false) matches Ok(b) && agree(a, b)),
{
    law_value_within_text(text, 0, true);
    if let Ok((a, end)) = value(text, 0, true) {
        lemma_unused_end(text, end);
        if unused_end(text, end) == text.len() {
            lemma_delimiter_ends_number(text, end);
            lemma_value_in_both(text, 0);
        }
    }
}

} // verus!
