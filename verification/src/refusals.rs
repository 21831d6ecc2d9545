//! Texts that are refused, and what texts that are accepted must look like.

use vstd::prelude::*;
use vstd::utf8::{encode_utf8, encode_utf8_valid_utf8};

use crate::error::{ErrorModel, ParseErrorCode, Refusal};
use crate::extent::{law_value_within_text, lemma_object_key, lemma_quoted_string};
use crate::grammar::{
    array_items, at_x, document, exponent_end, extended_number, fraction_end, hex_number,
    lemma_unused_end, lemma_unused_end_again, lower, object_key, object_members, plain_integer,
    refused, scalar, sign_end, significant_digits, special_number, standard_number, unquoted_end,
    unused_end, unused_width, value, word_end, word_false, word_infinity, word_nan, word_null,
    word_true, zeros_end,
};
use crate::layout::{char_width, lemma_members_step, member_at};
use crate::number::Number;
use crate::numerals::{
    decimal_figures, decimal_text, hex_figures, hex_text, is_exponent, is_sign, lemma_digits_end_at,
    lemma_no_exponent_digits, lemma_parts, lemma_zeros_within,
};
use crate::plain::{lemma_plain_items_push, meaning, plain, plain_items, PlainValue};
use crate::scan::{
    byte_at, digits_end, hex_digits_end, is_digit, is_hex_digit, lemma_digits_end,
    lemma_digits_end_from, lemma_hex_digits_end,
};
use crate::spelling::{
    array_text, item_texts, joined, key_meaning, lemma_bare_bytes, lemma_first_text,
    lemma_items_step, lemma_member_moves, lemma_more_members, lemma_value_moves, lemma_value_start,
    member_meaning, member_texts, object_text,
};
use crate::strings::{all_spelled, lemma_one, lemma_quoted_chars, lemma_raw_bytes};
use crate::value::{JsonValue, Member, NumberToken};
use crate::words::{any_case, lemma_word_stands};

verus! {

/// A byte of white space between tokens.
pub open spec fn white(b: u8) -> bool {
    b == 0x09 || b == 0x0a || b == 0x0c || b == 0x0d || b == 0x20
}

/// In the standard dialect a text that is accepted starts, white space and what is spelled out for
/// it aside, with a bracket, a brace, a double quote, a minus, a digit, or the first letter of null,
/// true or false.
pub proof fn law_first_byte_of_standard_text(text: Seq<u8>)
    requires
        text.len() > 0,
        document(text, true) is Ok,
    ensures
        ({
            let b = text[0];
            white(b) || b == 0x5c || b == 0x5b || b == 0x7b || b == 0x22 || b == 0x2d || 0x30 <= b
                <= 0x39 || b == 0x6e || b == 0x74 || b == 0x66
        }),
{
    if unused_width(text, 0) == 0 {
        assert(unused_end(text, 0) == 0);
    }
}

/// In the extended dialect it can also start with a single quote, a plus, a point, or the first
/// letter of nan or infinity, in either case of the letters.
pub proof fn law_first_byte_of_extended_text(text: Seq<u8>)
    requires
        text.len() > 0,
        document(text, false) is Ok,
    ensures
        ({
            let b = text[0];
            white(b) || b == 0x5c || b == 0x5b || b == 0x7b || b == 0x22 || b == 0x27 || b == 0x2b
                || b == 0x2d || b == 0x2e || 0x30 <= b <= 0x39 || b == 0x6e || b == 0x4e || b
                == 0x74 || b == 0x54 || b == 0x66 || b == 0x46 || b == 0x69 || b == 0x49
        }),
{
    if unused_width(text, 0) == 0 {
        assert(unused_end(text, 0) == 0);
    }
}

/// A number of the standard dialect: a minus or none, digits without a zero in front, and then, or
/// not, a point and digits, and an exponent. Nothing else is read as a number.
pub proof fn law_standard_number_shape(text: Seq<u8>)
    requires
        text.len() > 0,
        text[0] == 0x2d || 0x30 <= text[0] <= 0x39,
        document(text, true) is Ok,
    ensures
        exists|number: Seq<u8>, behind: Seq<u8>|
            text == #[trigger] (number + behind) && number_shape(number) && (behind.len() > 0
                ==> white(behind[0]) || behind[0] == 0x5c),
{
    assert(unused_end(text, 0) == 0);
    lemma_number_shape(text);
    let end = standard_number(text, 0)->Ok_0.1;
    let number = text.take(end);
    let behind = text.skip(end);
    assert(text =~= number + behind);
    if behind.len() > 0 {
        assert(behind[0] == text[end]);
        if unused_width(text, end) == 0 {
            assert(unused_end(text, end) == end);
        }
    }
}

proof fn lemma_number_shape(text: Seq<u8>)
    requires
        standard_number(text, 0) is Ok,
    ensures
        ({
            let end = standard_number(text, 0)->Ok_0.1;
            0 <= end <= text.len() && number_shape(text.take(end))
        }),
{
    let end = standard_number(text, 0)->Ok_0.1;
    let negative = byte_at(text, 0) == Some(0x2du8);
    let (first, sign) = if negative {
        (1int, seq![0x2du8])
    } else {
        (0int, Seq::<u8>::empty())
    };
    lemma_digits_end(text, first);
    let int_end = digits_end(text, first);
    let whole = text.subrange(first, int_end);
    let point = byte_at(text, int_end) == Some(0x2eu8);
    if point {
        lemma_digits_end(text, int_end + 1);
    }
    let frac_end = fraction_end(text, int_end);
    let fraction = if point {
        text.subrange(int_end + 1, frac_end)
    } else {
        Seq::<u8>::empty()
    };
    let (exponent_sign, exponent_digits) = lemma_exponent_shape(text, frac_end);
    let exponent = text.subrange(frac_end, end);
    assert(decimal_text(sign, whole, point, fraction) + exponent =~= text.take(end));
    assert(decimal_figures(whole)) by {
        assert forall|i: int| 0 <= i < whole.len() implies 0x30 <= #[trigger] whole[i] <= 0x39 by {
            assert(is_digit(text[first + i]));
        }
    }
    assert(decimal_figures(fraction)) by {
        assert forall|i: int| 0 <= i < fraction.len() implies 0x30 <= #[trigger] fraction[i]
            <= 0x39 by {
            assert(is_digit(text[int_end + 1 + i]));
        }
    }
    assert(whole[0] == text[first]);
    assert(number_of_parts(
        text.take(end),
        sign,
        whole,
        point,
        fraction,
        exponent,
        exponent_sign,
        exponent_digits,
    ));
}

/// A text is a number of the standard dialect, made of the given parts.
pub open spec fn number_of_parts(
    text: Seq<u8>,
    sign: Seq<u8>,
    whole: Seq<u8>,
    point: bool,
    fraction: Seq<u8>,
    exponent: Seq<u8>,
    exponent_sign: Seq<u8>,
    exponent_digits: Seq<u8>,
) -> bool {
    &&& sign == Seq::<u8>::empty() || sign == seq![0x2du8]
    &&& whole.len() > 0
    &&& decimal_figures(whole)
    &&& whole.len() == 1 || whole[0] != 0x30
    &&& decimal_figures(fraction)
    &&& point <==> fraction.len() > 0
    &&& exponent.len() == 0 || is_exponent(exponent, exponent_sign, exponent_digits)
    &&& text == decimal_text(sign, whole, point, fraction) + exponent
}

/// A text is a number of the standard dialect.
pub open spec fn number_shape(text: Seq<u8>) -> bool {
    exists|
        sign: Seq<u8>,
        whole: Seq<u8>,
        point: bool,
        fraction: Seq<u8>,
        exponent: Seq<u8>,
        exponent_sign: Seq<u8>,
        exponent_digits: Seq<u8>,
    |
        number_of_parts(
            text,
            sign,
            whole,
            point,
            fraction,
            exponent,
            exponent_sign,
            exponent_digits,
        )
}

proof fn lemma_exponent_shape(text: Seq<u8>, pos: int) -> (parts: (Seq<u8>, Seq<u8>))
    requires
        0 <= pos <= text.len(),
        exponent_end(text, pos) is Ok,
    ensures
        ({
            let end = exponent_end(text, pos)->Ok_0;
            &&& pos <= end <= text.len()
            &&& end > pos ==> is_exponent(text.subrange(pos, end), parts.0, parts.1)
        }),
{
    let end = exponent_end(text, pos)->Ok_0;
    if byte_at(text, pos) == Some(0x65u8) || byte_at(text, pos) == Some(0x45u8) {
        let signed = byte_at(text, pos + 1) == Some(0x2bu8) || byte_at(text, pos + 1) == Some(
            0x2du8,
        );
        let first = if signed {
            pos + 2
        } else {
            pos + 1
        };
        lemma_digits_end(text, first);
        let sign = if signed {
            seq![text[pos + 1]]
        } else {
            Seq::<u8>::empty()
        };
        let digits = text.subrange(first, end);
        assert forall|i: int| 0 <= i < digits.len() implies 0x30 <= #[trigger] digits[i] <= 0x39 by {
            assert(digits[i] == text[first + i]);
        }
        assert(text.subrange(pos, end) =~= seq![text[pos]] + sign + digits);
        if signed {
            assert(sign =~= seq![0x2bu8] || sign =~= seq![0x2du8]);
        }
        (sign, digits)
    } else {
        (seq![], seq![])
    }
}

/// What is skipped before a token: a byte of white space, or `\n`, `\r`, `\t` or `\x0C` spelled out.
pub open spec fn skipped(s: Seq<u8>) -> bool {
    ||| s.len() == 1 && white(s[0])
    ||| s == seq![0x5cu8, 0x6e]
    ||| s == seq![0x5cu8, 0x72]
    ||| s == seq![0x5cu8, 0x74]
    ||| s == seq![0x5cu8, 0x78, 0x30, 0x43]
}

/// All of the given texts are skipped.
pub open spec fn all_skipped(parts: Seq<Seq<u8>>) -> bool {
    forall|i: int| 0 <= i < parts.len() ==> skipped(#[trigger] parts[i])
}

proof fn lemma_skipped_parts(text: Seq<u8>, pos: int, parts: Seq<Seq<u8>>)
    requires
        all_skipped(parts),
        0 <= pos,
        pos + parts.flatten().len() <= text.len(),
        text.subrange(pos, pos + parts.flatten().len()) == parts.flatten(),
    ensures
        unused_end(text, pos) == unused_end(text, pos + parts.flatten().len()),
    decreases parts.len(),
{
    let all = parts.flatten();
    if parts.len() > 0 {
        let s = parts[0];
        let more = parts.drop_first();
        let run = text.subrange(pos, pos + all.len());
        assert(skipped(parts[0]));
        assert(all == s + more.flatten());
        assert(run[0] == text[pos] && run[0] == s[0]);
        if s.len() > 1 {
            assert(run[1] == text[pos + 1] && run[1] == s[1]);
        }
        if s.len() == 4 {
            assert(run[2] == text[pos + 2] && run[2] == s[2]);
            assert(run[3] == text[pos + 3] && run[3] == s[3]);
        }
        assert(unused_width(text, pos) == s.len());
        assert forall|i: int| 0 <= i < more.len() implies skipped(#[trigger] more[i]) by {
            assert(more[i] == parts[i + 1]);
        }
        let next = pos + s.len();
        assert(text.subrange(next, next + more.flatten().len()) =~= run.subrange(
            s.len() as int,
            run.len() as int,
        ));
        assert(run.subrange(s.len() as int, run.len() as int) =~= more.flatten());
        lemma_skipped_parts(text, next, more);
    } else {
        assert(all =~= Seq::<u8>::empty());
    }
}

/// White space before a text, and what is spelled out for it, does not change what it denotes.
pub proof fn law_skipped_before_a_text(parts: Seq<Seq<u8>>, text: Seq<u8>, standard: bool)
    requires
        all_skipped(parts),
        meaning(text, standard) is Some,
        unused_end(text, 0) < text.len(),
        (parts.flatten() + text).len() <= usize::MAX,
    ensures
        meaning(parts.flatten() + text, standard) == meaning(text, standard),
{
    let all = parts.flatten();
    let t = all + text;
    let d = all.len() as int;
    assert(t.subrange(0, d) =~= all);
    assert(t.subrange(d, d + text.len()) =~= text);
    lemma_skipped_parts(t, 0, parts);
    lemma_value_moves(text, t, d, standard);
    lemma_unused_end_again(t, 0);
    assert(value(t, 0, standard) == value(t, d, standard));
}

/// Nothing but white space may follow a value: a text with a comma or the end of a container behind
/// it is refused there.
pub proof fn law_trailing_characters(text: Seq<u8>, b: u8, rest: Seq<u8>, standard: bool)
    requires
        meaning(text, standard) is Some,
        unused_end(text, 0) < text.len(),
        b == 0x2c || b == 0x5d || b == 0x7d,
        (text + seq![b] + rest).len() <= usize::MAX,
    ensures
        document(text + seq![b] + rest, standard) matches Err(e) && e.error == ErrorModel::Syntax(
            ParseErrorCode::UnexpectedTrailingCharacters,
            text.len() as int + 1,
        ),
{
    let t = text + seq![b] + rest;
    assert(t.subrange(0, text.len() as int) =~= text);
    assert(t[text.len() as int] == b);
    lemma_value_moves(text, t, 0, standard);
}

/// Nothing but white space.
pub open spec fn all_white(s: Seq<u8>) -> bool {
    forall|i: int| 0 <= i < s.len() ==> white(#[trigger] s[i])
}

proof fn lemma_white_run(text: Seq<u8>, pos: int, s: Seq<u8>)
    requires
        all_white(s),
        0 <= pos,
        pos + s.len() <= text.len(),
        text.subrange(pos, pos + s.len()) == s,
    ensures
        unused_end(text, pos) == unused_end(text, pos + s.len()),
    decreases s.len(),
{
    if s.len() > 0 {
        let run = text.subrange(pos, pos + s.len());
        let more = s.drop_first();
        assert(run[0] == text[pos]);
        assert(white(s[0]));
        assert forall|i: int| 0 <= i < more.len() implies white(#[trigger] more[i]) by {
            assert(more[i] == s[i + 1]);
        }
        assert(text.subrange(pos + 1, pos + 1 + more.len()) =~= run.drop_first());
        lemma_white_run(text, pos + 1, more);
    }
}

/// The text of an item, or white space where an item is left out.
pub open spec fn item_or_none(text: Seq<u8>, standard: bool) -> bool {
    all_white(text) || meaning(text, standard) is Some && unused_end(text, 0) < text.len()
}

/// What such a text stands for.
pub open spec fn item_meaning(text: Seq<u8>, standard: bool) -> PlainValue {
    if all_white(text) {
        PlainValue::Null
    } else {
        meaning(text, standard)->Some_0
    }
}

/// In the extended dialect an item that is left out is read as null.
proof fn lemma_left_out_read(
    texts: Seq<Seq<u8>>,
    t: Seq<u8>,
    off: int,
    items: Seq<JsonValue>,
) -> (read: Seq<JsonValue>)
    requires
        texts.len() > 0,
        forall|i: int| 0 <= i < texts.len() ==> item_or_none(#[trigger] texts[i], false),
        0 < off <= t.len() <= usize::MAX,
        t.subrange(off, t.len() as int) == joined(texts).push(0x5d),
    ensures
        array_items(t, unused_end(t, off), false, items) == Ok::<_, Refusal>(
            (JsonValue::Array(read), t.len() as int),
        ),
        plain_items(t, read) == plain_items(t, items) + texts.map_values(
            |text: Seq<u8>| item_meaning(text, false),
        ),
        texts.len() > 1 || !all_white(texts[0]) ==> byte_at(t, unused_end(t, off)) != Some(0x5du8),
    decreases texts.len(),
{
    let first = texts[0];
    let next = off + first.len();
    assert(item_or_none(texts[0], false));
    lemma_first_text(texts, t, off, 0x5d);
    lemma_unused_end(t, off);
    let item = if all_white(first) {
        lemma_white_run(t, off, first);
        assert(unused_end(t, next) == next);
        JsonValue::Null
    } else {
        lemma_value_moves(first, t, off, false);
        let (item, end) = value(t, off, false)->Ok_0;
        assert(unused_end(t, off) < t.len()) by {
            if unused_end(t, off) >= t.len() {
                assert(unused_end(t, end) >= t.len());
            }
        }
        lemma_value_start(t, off, false);
        lemma_items_step(t, unused_end(t, off), false, items, item, next);
        item
    };
    let all = items.push(item);
    lemma_plain_items_push(t, items, item);
    assert(plain(t, item) == item_meaning(first, false));
    assert(texts.len() == 1 ==> array_items(t, unused_end(t, off), false, items) == Ok::<
        _,
        Refusal,
    >((JsonValue::Array(all), next + 1)));
    assert(texts.len() > 1 ==> array_items(t, unused_end(t, off), false, items) == array_items(
        t,
        unused_end(t, next + 1),
        false,
        all,
    ));
    let read = if texts.len() == 1 {
        all
    } else {
        let others = texts.drop_first();
        assert forall|i: int| 0 <= i < others.len() implies item_or_none(
            #[trigger] others[i],
            false,
        ) by {
            assert(others[i] == texts[i + 1]);
        }
        lemma_left_out_read(others, t, next + 1, all)
    };
    assert(plain_items(t, read) =~= plain_items(t, items) + texts.map_values(
        |text: Seq<u8>| item_meaning(text, false),
    ));
    read
}

/// In the extended dialect an item of an array may be left out, before a comma or before the end,
/// and stands for null.
pub proof fn law_left_out_items(texts: Seq<Seq<u8>>)
    requires
        texts.len() > 1,
        forall|i: int| 0 <= i < texts.len() ==> item_or_none(#[trigger] texts[i], false),
        array_text(texts).len() <= usize::MAX,
    ensures
        meaning(array_text(texts), false) == Some(
            PlainValue::Array(texts.map_values(|text: Seq<u8>| item_meaning(text, false))),
        ),
{
    let t = array_text(texts);
    let n = t.len() as int;
    assert(unused_end(t, 0) == 0);
    assert(t[0] == 0x5b);
    assert(unused_end(t, n) == n);
    assert(t.subrange(1, n) =~= joined(texts).push(0x5d));
    let read = lemma_left_out_read(texts, t, 1, seq![]);
    assert(plain_items(t, read) =~= texts.map_values(|text: Seq<u8>| item_meaning(text, false)));
}

/// In the standard dialect no item can be left out.
pub proof fn law_no_item_left_out(texts: Seq<Seq<u8>>, k: int)
    requires
        texts.len() > 1,
        0 <= k < texts.len(),
        all_white(texts[k]),
        forall|i: int| 0 <= i < texts.len() ==> item_or_none(#[trigger] texts[i], true),
        array_text(texts).len() <= usize::MAX,
    ensures
        document(array_text(texts), true) is Err,
{
    let t = array_text(texts);
    let n = t.len() as int;
    assert(unused_end(t, 0) == 0);
    assert(t[0] == 0x5b);
    assert(t.subrange(1, n) =~= joined(texts).push(0x5d));
    lemma_left_out_refused(texts, t, 1, k, seq![]);
}

proof fn lemma_left_out_refused(
    texts: Seq<Seq<u8>>,
    t: Seq<u8>,
    off: int,
    k: int,
    items: Seq<JsonValue>,
)
    requires
        0 <= k < texts.len(),
        all_white(texts[k]),
        forall|i: int| 0 <= i < texts.len() ==> item_or_none(#[trigger] texts[i], true),
        0 < off <= t.len() <= usize::MAX,
        t.subrange(off, t.len() as int) == joined(texts).push(0x5d),
    ensures
        array_items(t, unused_end(t, off), true, items) is Err,
        texts.len() > 1 ==> byte_at(t, unused_end(t, off)) != Some(0x5du8),
    decreases texts.len(),
{
    let first = texts[0];
    let next = off + first.len();
    assert(item_or_none(texts[0], true));
    lemma_first_text(texts, t, off, 0x5d);
    lemma_unused_end(t, off);
    if all_white(first) {
        lemma_white_run(t, off, first);
        assert(unused_end(t, next) == next);
    } else {
        lemma_value_moves(first, t, off, true);
        let (item, end) = value(t, off, true)->Ok_0;
        assert(unused_end(t, off) < t.len()) by {
            if unused_end(t, off) >= t.len() {
                assert(unused_end(t, end) >= t.len());
            }
        }
        lemma_value_start(t, off, true);
        lemma_items_step(t, unused_end(t, off), true, items, item, next);
        let others = texts.drop_first();
        assert forall|i: int| 0 <= i < others.len() implies item_or_none(
            #[trigger] others[i],
            true,
        ) by {
            assert(others[i] == texts[i + 1]);
        }
        assert(others[k - 1] == texts[k]);
        lemma_left_out_refused(others, t, next + 1, k - 1, items.push(item));
    }
}

proof fn lemma_no_member_behind_comma(
    texts: Seq<Seq<u8>>,
    t: Seq<u8>,
    off: int,
    standard: bool,
    members: Seq<Member>,
    ends: Seq<int>,
)
    requires
        texts.len() > 0,
        all_white(texts.last()),
        member_texts(texts.drop_last(), standard),
        0 < off <= t.len() <= usize::MAX,
        t.subrange(off, t.len() as int) == joined(texts).push(0x7d),
    ensures
        object_members(t, unused_end(t, off), standard, members, ends) is Err,
        texts.len() > 1 ==> byte_at(t, unused_end(t, off)) != Some(0x7du8),
    decreases texts.len(),
{
    let first = texts[0];
    let next = off + first.len();
    lemma_first_text(texts, t, off, 0x7d);
    lemma_unused_end(t, off);
    if texts.len() == 1 {
        lemma_white_run(t, off, first);
        assert(unused_end(t, next) == next);
        assert(object_key(t, next, standard) is Err);
    } else {
        let front = texts.drop_last();
        assert(front[0] == first);
        assert(member_meaning(front[0], standard) is Some);
        lemma_member_moves(first, t, off, standard);
        lemma_members_step(t, unused_end(t, off), standard, members, ends);
        let (member, key_end, _) = member_at(t, unused_end(t, off), standard)->Some_0;
        let others = texts.drop_first();
        assert(others.last() == texts.last());
        assert forall|i: int| 0 <= i < others.drop_last().len() implies member_meaning(
            #[trigger] others.drop_last()[i],
            standard,
        ) is Some by {
            assert(others.drop_last()[i] == front[i + 1]);
        }
        lemma_no_member_behind_comma(
            others,
            t,
            next + 1,
            standard,
            members.push(member),
            ends.push(key_end),
        );
    }
}

/// In neither dialect can a comma stand before the end of an object.
pub proof fn law_no_comma_before_brace(members: Seq<Seq<u8>>, w: Seq<u8>, standard: bool)
    requires
        members.len() > 0,
        member_texts(members, standard),
        all_white(w),
        object_text(members.push(w)).len() <= usize::MAX,
    ensures
        document(object_text(members.push(w)), standard) is Err,
{
    let texts = members.push(w);
    let t = object_text(texts);
    let n = t.len() as int;
    assert(unused_end(t, 0) == 0);
    assert(t[0] == 0x7b);
    assert(t.subrange(1, n) =~= joined(texts).push(0x7d));
    assert(texts.drop_last() =~= members);
    lemma_no_member_behind_comma(texts, t, 1, standard, seq![], seq![]);
}

/// An object that is accepted goes on, behind its brace and white space, with its end or with a key:
/// in the standard dialect a string in double quotes, in the extended one also a string in single
/// quotes, or a letter, an underscore, a dollar sign or a character outside ASCII.
pub proof fn law_first_byte_of_key(text: Seq<u8>, standard: bool)
    requires
        text.len() > 1,
        text[0] == 0x7b,
        document(text, standard) is Ok,
    ensures
        ({
            let b = text[1];
            ||| white(b) || b == 0x5c || b == 0x7d || b == 0x22
            ||| !standard && (b == 0x27 || b == 0x5f || b == 0x24 || 0x41 <= b <= 0x5a || 0x61 <= b
                <= 0x7a || b >= 0xc0)
        }),
{
    assert(unused_end(text, 0) == 0);
    if unused_width(text, 1) == 0 {
        assert(unused_end(text, 1) == 1);
    }
}

/// A character that can stand in a key without quotes.
pub open spec fn key_char(c: char) -> bool {
    0x41 <= c as int <= 0x5a || 0x61 <= c as int <= 0x7a || 0x30 <= c as int <= 0x39 || c as int
        == 0x5f || c as int == 0x24 || c as int >= 0x80
}

/// The first byte of a character tells how many there are.
proof fn lemma_width(c: char)
    requires
        c as int >= 0x80,
    ensures
        encode_utf8(seq![c]).len() == char_width(encode_utf8(seq![c])[0]),
        encode_utf8(seq![c])[0] >= 0xc0,
{
    let n = c as u32;
    lemma_one(c);
    assert((0xC0u8 | (((n >> 6) & 0x1F) as u8)) >= 0xc0 && (0xC0u8 | (((n >> 6) & 0x1F) as u8))
        < 0xe0 && (0xE0u8 | (((n >> 12) & 0x0F) as u8)) >= 0xe0 && (0xE0u8 | (((n >> 12)
        & 0x0F) as u8)) < 0xf0 && (0xF0u8 | (((n >> 18) & 0x7) as u8)) >= 0xf0) by (bit_vector);
}

proof fn lemma_key_chars(text: Seq<u8>, pos: int, chars: Seq<char>)
    requires
        0 <= pos,
        pos + encode_utf8(chars).len() < text.len(),
        text.subrange(pos, pos + encode_utf8(chars).len()) == encode_utf8(chars),
        text[pos + encode_utf8(chars).len()] == 0x3a,
        forall|i: int| 0 <= i < chars.len() ==> key_char(#[trigger] chars[i]),
    ensures
        unquoted_end(text, pos) == Ok::<int, Refusal>(pos + encode_utf8(chars).len()),
    decreases chars.len(),
{
    let all = encode_utf8(chars);
    if chars.len() > 0 {
        let c = chars[0];
        let rest = chars.drop_first();
        let own = encode_utf8(seq![c]);
        let run = text.subrange(pos, pos + all.len());
        assert(key_char(chars[0]));
        lemma_one(c);
        lemma_raw_bytes(c);
        if c as int >= 0x80 {
            lemma_width(c);
        }
        assert(all == own + encode_utf8(rest));
        assert(run[0] == text[pos] && run[0] == own[0]);
        assert forall|i: int| 0 <= i < rest.len() implies key_char(#[trigger] rest[i]) by {
            assert(rest[i] == chars[i + 1]);
        }
        let next = pos + own.len();
        assert(text.subrange(next, next + encode_utf8(rest).len()) =~= run.subrange(
            own.len() as int,
            run.len() as int,
        ));
        assert(run.subrange(own.len() as int, run.len() as int) =~= encode_utf8(rest));
        lemma_key_chars(text, next, rest);
    }
}

/// In the extended dialect letters, digits, underscores, dollar signs and characters outside ASCII
/// are a key by themselves, unless they start with a digit; then they are refused.
pub proof fn law_key_without_quotes(chars: Seq<char>)
    requires
        chars.len() > 0,
        forall|i: int| 0 <= i < chars.len() ==> key_char(#[trigger] chars[i]),
    ensures
        key_meaning(encode_utf8(chars), false) == if 0x30 <= chars[0] as int <= 0x39 {
            None
        } else {
            Some(encode_utf8(chars))
        },
{
    let key = encode_utf8(chars);
    let text = key.push(0x3a);
    assert(text.subrange(0, key.len() as int) =~= key);
    lemma_key_chars(text, 0, chars);
    let c = chars[0];
    assert(key_char(chars[0]));
    lemma_one(c);
    lemma_raw_bytes(c);
    assert(key == encode_utf8(seq![c]) + encode_utf8(chars.drop_first()));
    assert(text[0] == encode_utf8(seq![c])[0]);
    encode_utf8_valid_utf8(chars);
}

/// In the standard dialect no key stands without double quotes.
pub proof fn law_standard_keys_are_quoted(key: Seq<u8>)
    requires
        key_meaning(key, true) is Some,
    ensures
        key.len() >= 2 && key[0] == 0x22 && key.last() == 0x22,
{
    let text = key.push(0x3a);
    lemma_quoted_string(text, 1, 0x22);
    assert(text[0] == 0x22);
}

/// A backslash outside a string is read only where it spells white space out.
pub proof fn law_backslash_outside_strings(text: Seq<u8>, standard: bool)
    requires
        text.len() > 0,
        text[0] == 0x5c,
        document(text, standard) is Ok,
    ensures
        text.len() >= 2 && (text[1] == 0x6e || text[1] == 0x72 || text[1] == 0x74) || text.len() >= 4
            && text.take(4) == seq![0x5cu8, 0x78, 0x30, 0x43],
{
    if unused_width(text, 0) == 0 {
        assert(unused_end(text, 0) == 0);
    } else if text[1] == 0x78 {
        assert(text.take(4) =~= seq![0x5cu8, 0x78, 0x30, 0x43]);
    }
}

/// In the extended dialect a text that starts with a letter starts with null, true, false, nan or
/// infinity, in any case of the letters, and denotes what that one stands for.
pub proof fn law_extended_words(text: Seq<u8>)
    requires
        text.len() > 0,
        0x41 <= text[0] <= 0x5a || 0x61 <= text[0] <= 0x7a,
        document(text, false) is Ok,
    ensures
        ({
            let root = document(text, false)->Ok_0;
            ||| text.len() >= 4 && any_case(text.take(4), seq![0x6eu8, 0x75, 0x6c, 0x6c]) && root
                == JsonValue::Null
            ||| text.len() >= 4 && any_case(text.take(4), seq![0x74u8, 0x72, 0x75, 0x65]) && root
                == JsonValue::Bool(true)
            ||| text.len() >= 5 && any_case(text.take(5), seq![0x66u8, 0x61, 0x6c, 0x73, 0x65])
                && root == JsonValue::Bool(false)
            ||| text.len() >= 3 && any_case(text.take(3), seq![0x6eu8, 0x61, 0x6e]) && root
                == JsonValue::Number(
                NumberToken::Number(Number::Float64(0x7ff8_0000_0000_0000)),
            )
            ||| text.len() >= 8 && any_case(
                text.take(8),
                seq![0x69u8, 0x6e, 0x66, 0x69, 0x6e, 0x69, 0x74, 0x79],
            ) && root == JsonValue::Number(
                NumberToken::Number(Number::Float64(0x7ff0_0000_0000_0000)),
            )
        }),
{
    assert(unused_end(text, 0) == 0);
    let kind = lower(text[0]);
    if kind == 0x6e {
        if word_end(text, 0, word_null(), true) is Ok {
            lemma_word_taken(text, 0, word_null());
        } else {
            lemma_word_taken(text, 0, word_nan());
        }
    } else if kind == 0x74 {
        lemma_word_taken(text, 0, word_true());
    } else if kind == 0x66 {
        lemma_word_taken(text, 0, word_false());
    } else if kind == 0x69 {
        lemma_word_taken(text, 0, word_infinity());
    }
}

proof fn lemma_word_taken(text: Seq<u8>, pos: int, word: Seq<u8>)
    requires
        0 <= pos,
        word.len() > 0,
        word_end(text, pos, word, true) is Ok,
        forall|i: int| 0 <= i < word.len() ==> 0x61 <= #[trigger] word[i] <= 0x7a,
    ensures
        word_end(text, pos, word, true) == Ok::<int, Refusal>(pos + word.len()),
        pos + word.len() <= text.len(),
        any_case(text.subrange(pos, pos + word.len()), word),
        pos == 0 ==> text.take(word.len() as int) == text.subrange(pos, pos + word.len()),
{
    lemma_word_stands(text, pos, word, true);
    let part = text.subrange(pos, pos + word.len());
    assert forall|i: int| 0 <= i < word.len() implies #[trigger] part[i] == word[i] || part[i]
        == word[i] - 0x20 by {
        assert(part[i] == text[pos + i]);
        assert(text[pos + i] == word[i] || text[pos + i] == word[i] - 0x20);
    }
    if pos == 0 {
        assert(text.take(word.len() as int) =~= part);
    }
}

/// A number of the extended dialect in decimal, made of the given parts.
pub open spec fn decimal_of_parts(
    text: Seq<u8>,
    sign: Seq<u8>,
    whole: Seq<u8>,
    point: bool,
    fraction: Seq<u8>,
    exponent: Seq<u8>,
    exponent_sign: Seq<u8>,
    exponent_digits: Seq<u8>,
) -> bool {
    &&& is_sign(sign)
    &&& decimal_figures(whole)
    &&& decimal_figures(fraction)
    &&& whole.len() + fraction.len() > 0
    &&& !point ==> fraction.len() == 0
    &&& exponent.len() == 0 || is_exponent(exponent, exponent_sign, exponent_digits)
    &&& text == decimal_text(sign, whole, point, fraction) + exponent
}

/// A text is a number of the extended dialect in decimal.
pub open spec fn decimal_shape(text: Seq<u8>) -> bool {
    exists|
        sign: Seq<u8>,
        whole: Seq<u8>,
        point: bool,
        fraction: Seq<u8>,
        exponent: Seq<u8>,
        exponent_sign: Seq<u8>,
        exponent_digits: Seq<u8>,
    |
        decimal_of_parts(
            text,
            sign,
            whole,
            point,
            fraction,
            exponent,
            exponent_sign,
            exponent_digits,
        )
}

/// A number of the extended dialect in hexadecimal, made of the given parts.
pub open spec fn hex_of_parts(
    text: Seq<u8>,
    sign: Seq<u8>,
    x: u8,
    figures: Seq<u8>,
    point: bool,
    fraction: Seq<u8>,
) -> bool {
    &&& is_sign(sign)
    &&& x == 0x78 || x == 0x58
    &&& figures.len() > 0
    &&& hex_figures(figures)
    &&& hex_figures(fraction)
    &&& point <==> fraction.len() > 0
    &&& text == hex_text(sign, x, figures, point, fraction)
}

/// A text is a number of the extended dialect in hexadecimal.
pub open spec fn hex_shape(text: Seq<u8>) -> bool {
    exists|sign: Seq<u8>, x: u8, figures: Seq<u8>, point: bool, fraction: Seq<u8>|
        hex_of_parts(text, sign, x, figures, point, fraction)
}

/// A text is infinity with a sign, or nan with a plus, in any case of the letters.
pub open spec fn special_shape(text: Seq<u8>) -> bool {
    text.len() > 0 && (text[0] == 0x2b || text[0] == 0x2d) && (any_case(
        text.skip(1),
        seq![0x69u8, 0x6e, 0x66, 0x69, 0x6e, 0x69, 0x74, 0x79],
    ) || text[0] == 0x2b && any_case(text.skip(1), seq![0x6eu8, 0x61, 0x6e]))
}

proof fn lemma_decimal_shape(text: Seq<u8>, end: int)
    requires
        text.len() > 0,
        ({
            let first = sign_end(text, 0);
            let int_end = digits_end(text, first);
            let frac_end = fraction_end(text, int_end);
            &&& exponent_end(text, frac_end) == Ok::<int, Refusal>(end) || end == frac_end && frac_end
                == int_end
            &&& frac_end - first > 1 || frac_end - first == 1 && byte_at(text, int_end) != Some(
                0x2eu8,
            )
        }),
    ensures
        0 <= end <= text.len(),
        decimal_shape(text.take(end)),
{
    let first = sign_end(text, 0);
    let sign = text.take(first);
    assert(sign =~= Seq::<u8>::empty() || sign =~= seq![0x2bu8] || sign =~= seq![0x2du8]);
    lemma_digits_end(text, first);
    let int_end = digits_end(text, first);
    let whole = text.subrange(first, int_end);
    let point = byte_at(text, int_end) == Some(0x2eu8);
    if point {
        lemma_digits_end(text, int_end + 1);
    }
    let frac_end = fraction_end(text, int_end);
    let fraction = if point {
        text.subrange(int_end + 1, frac_end)
    } else {
        Seq::<u8>::empty()
    };
    assert(decimal_figures(whole)) by {
        assert forall|i: int| 0 <= i < whole.len() implies 0x30 <= #[trigger] whole[i] <= 0x39 by {
            assert(is_digit(text[first + i]));
        }
    }
    assert(decimal_figures(fraction)) by {
        assert forall|i: int| 0 <= i < fraction.len() implies 0x30 <= #[trigger] fraction[i]
            <= 0x39 by {
            assert(is_digit(text[int_end + 1 + i]));
        }
    }
    let (exponent_sign, exponent_digits) = if exponent_end(text, frac_end) is Ok {
        lemma_exponent_shape(text, frac_end)
    } else {
        (seq![], seq![])
    };
    let exponent = text.subrange(frac_end, end);
    assert(decimal_text(sign, whole, point, fraction) + exponent =~= text.take(end));
    assert(decimal_of_parts(
        text.take(end),
        sign,
        whole,
        point,
        fraction,
        exponent,
        exponent_sign,
        exponent_digits,
    ));
}

proof fn lemma_hex_shape(text: Seq<u8>, first: int, negative: bool)
    requires
        text.len() > 0,
        first == sign_end(text, 0),
        first + 1 < text.len(),
        text[first] == 0x30,
        text[first + 1] == 0x78 || text[first + 1] == 0x58,
        hex_number(text, 0, first + 2, negative) is Ok,
    ensures
        ({
            let end = hex_number(text, 0, first + 2, negative)->Ok_0.1;
            0 <= end <= text.len() && hex_shape(text.take(end))
        }),
{
    let end = hex_number(text, 0, first + 2, negative)->Ok_0.1;
    let sign = text.take(first);
    assert(sign =~= Seq::<u8>::empty() || sign =~= seq![0x2bu8] || sign =~= seq![0x2du8]);
    let pos = first + 2;
    lemma_hex_digits_end(text, pos);
    let int_end = hex_digits_end(text, pos);
    let figures = text.subrange(pos, int_end);
    let point = byte_at(text, int_end) == Some(0x2eu8);
    if point {
        lemma_hex_digits_end(text, int_end + 1);
    }
    let fraction = if point {
        text.subrange(int_end + 1, end)
    } else {
        Seq::<u8>::empty()
    };
    assert(hex_figures(figures)) by {
        assert forall|i: int| 0 <= i < figures.len() implies 0x30 <= #[trigger] figures[i] <= 0x39
            || 0x41 <= figures[i] <= 0x46 || 0x61 <= figures[i] <= 0x66 by {
            assert(is_hex_digit(text[pos + i]));
        }
    }
    assert(hex_figures(fraction)) by {
        assert forall|i: int| 0 <= i < fraction.len() implies 0x30 <= #[trigger] fraction[i] <= 0x39
            || 0x41 <= fraction[i] <= 0x46 || 0x61 <= fraction[i] <= 0x66 by {
            assert(is_hex_digit(text[int_end + 1 + i]));
        }
    }
    let x = text[first + 1];
    assert(hex_text(sign, x, figures, point, fraction) =~= text.take(end));
    assert(hex_of_parts(text.take(end), sign, x, figures, point, fraction));
}

proof fn lemma_special_shape(text: Seq<u8>, negative: bool)
    requires
        text.len() > 0,
        sign_end(text, 0) == 1,
        negative == (text[0] == 0x2d),
        special_number(text, 1, negative) is Ok,
    ensures
        ({
            let end = special_number(text, 1, negative)->Ok_0.1;
            0 <= end <= text.len() && special_shape(text.take(end))
        }),
{
    let end = special_number(text, 1, negative)->Ok_0.1;
    if byte_at(text, 1) == Some(0x69u8) || byte_at(text, 1) == Some(0x49u8) {
        lemma_word_taken(text, 1, word_infinity());
    } else {
        lemma_word_taken(text, 1, word_nan());
    }
    assert(text.take(end).skip(1) =~= text.subrange(1, end));
    assert(text.take(end)[0] == text[0]);
}

/// A number of the extended dialect is a decimal or a hexadecimal one, or infinity or nan behind a
/// sign. Nothing else is read as a number.
pub proof fn law_extended_number_shape(text: Seq<u8>)
    requires
        text.len() > 0,
        text[0] == 0x2b || text[0] == 0x2d || text[0] == 0x2e || 0x30 <= text[0] <= 0x39,
        document(text, false) is Ok,
    ensures
        exists|number: Seq<u8>, behind: Seq<u8>|
            text == #[trigger] (number + behind) && (decimal_shape(number) || hex_shape(number)
                || special_shape(number)) && (behind.len() > 0 ==> white(behind[0]) || behind[0]
                == 0x5c),
{
    assert(unused_end(text, 0) == 0);
    lemma_extended_shape(text);
    let end = extended_number(text, 0)->Ok_0.1;
    let number = text.take(end);
    let behind = text.skip(end);
    assert(text =~= number + behind);
    if behind.len() > 0 {
        assert(behind[0] == text[end]);
        if unused_width(text, end) == 0 {
            assert(unused_end(text, end) == end);
        }
    }
}

proof fn lemma_extended_shape(text: Seq<u8>)
    requires
        text.len() > 0,
        text[0] == 0x2b || text[0] == 0x2d || text[0] == 0x2e || 0x30 <= text[0] <= 0x39,
        extended_number(text, 0) is Ok,
    ensures
        ({
            let end = extended_number(text, 0)->Ok_0.1;
            &&& 0 <= end <= text.len()
            &&& decimal_shape(text.take(end)) || hex_shape(text.take(end)) || special_shape(
                text.take(end),
            )
        }),
{
    let end = extended_number(text, 0)->Ok_0.1;
    let negative = byte_at(text, 0) == Some(0x2du8);
    let first = sign_end(text, 0);
    lemma_digits_end(text, first);
    lemma_zeros_within(text, first);
    let int_end = digits_end(text, first);
    let start = zeros_end(text, first);
    lemma_digits_end_from(text, first, start);
    let frac_end = fraction_end(text, int_end);
    if int_end + 1 <= text.len() {
        lemma_digits_end(text, int_end + 1);
    }
    let digits = significant_digits(text, start);
    let has_fraction = byte_at(text, int_end) == Some(0x2eu8);
    assert(digits.len() == int_end - start + if has_fraction {
        frac_end - int_end - 1
    } else {
        0
    });
    match plain_integer(text, first, int_end, negative) {
        Some(_) => {
            lemma_decimal_shape(text, end);
        },
        None => {
            if start == first && digits.len() == 0 {
                lemma_special_shape(text, negative);
            } else if start == first + 1 && digits.len() == 0 && !has_fraction && at_x(
                text,
                int_end,
            ) {
                assert(text[first] == 0x30);
                lemma_hex_shape(text, first, negative);
            } else {
                lemma_decimal_shape(text, end);
            }
        },
    }
}

/// A byte that no value starts with is refused where it stands.
pub proof fn law_no_value_starts_so(text: Seq<u8>, standard: bool)
    requires
        text.len() > 0,
        ({
            let b = text[0];
            !(white(b) || b == 0x5c || b == 0x5b || b == 0x7b || b == 0x22 || b == 0x27 || b == 0x2b
                || b == 0x2d || b == 0x2e || 0x30 <= b <= 0x39 || 0x41 <= b <= 0x5a || 0x61 <= b
                <= 0x7a)
        }),
    ensures
        document(text, standard) matches Err(e) && e.error == ErrorModel::Syntax(
            ParseErrorCode::ExpectedSomeValue,
            1,
        ),
{
    assert(unused_end(text, 0) == 0);
}

/// What stands between two offsets is skipped.
pub open spec fn gap(text: Seq<u8>, a: int, b: int) -> bool {
    0 <= a <= b <= text.len() && exists|parts: Seq<Seq<u8>>|
        all_skipped(parts) && #[trigger] parts.flatten() == text.subrange(a, b)
}

/// Up to the next token there is nothing but what is skipped.
proof fn lemma_gap(text: Seq<u8>, pos: int)
    requires
        0 <= pos <= text.len(),
    ensures
        gap(text, pos, unused_end(text, pos)),
    decreases text.len() - pos,
{
    let end = unused_end(text, pos);
    lemma_unused_end(text, pos);
    let w = unused_width(text, pos);
    if w > 0 {
        lemma_gap(text, pos + w);
        let more = choose|parts: Seq<Seq<u8>>|
            all_skipped(parts) && #[trigger] parts.flatten() == text.subrange(pos + w, end);
        let s = text.subrange(pos, pos + w);
        let parts = seq![s] + more;
        assert(s[0] == text[pos]);
        if w == 2 {
            assert(s =~= seq![0x5cu8, text[pos + 1]]);
        } else if w == 4 {
            assert(s =~= seq![0x5cu8, 0x78, 0x30, 0x43]);
        }
        assert(skipped(s));
        assert(parts.drop_first() =~= more);
        assert(parts[0] == s);
        assert(parts.flatten() =~= s + more.flatten());
        assert(parts.flatten() =~= text.subrange(pos, end));
        assert forall|i: int| 0 <= i < parts.len() implies skipped(#[trigger] parts[i]) by {
            if i > 0 {
                assert(parts[i] == more[i - 1]);
            }
        }
    } else {
        let parts = Seq::<Seq<u8>>::empty();
        assert(parts.flatten() =~= text.subrange(pos, end));
        assert(all_skipped(parts));
    }
}

/// A value stands from one offset up to another, with nothing but what is skipped behind it; in an
/// array of the extended dialect it may be left out.
#[verifier::opaque]
pub open spec fn value_between(
    text: Seq<u8>,
    from: int,
    to: int,
    standard: bool,
    item: JsonValue,
) -> bool {
    ||| exists|end: int|
        from <= end <= to && value(text, from, standard) == Ok::<_, Refusal>((item, end))
            && #[trigger] gap(text, end, to)
    ||| !standard && item == JsonValue::Null && gap(text, from, to)
}

/// The item at a place of an array: it stands behind the comma before it, or behind `from` where it
/// is the first, and a comma stands behind it unless it is the last.
pub open spec fn item_separated(
    text: Seq<u8>,
    from: int,
    cuts: Seq<int>,
    standard: bool,
    items: Seq<JsonValue>,
    i: int,
) -> bool {
    &&& from <= cuts[i] < text.len()
    &&& i + 1 < cuts.len() ==> text[cuts[i]] == 0x2c
    &&& value_between(
        text,
        if i == 0 {
            from
        } else {
            cuts[i - 1] + 1
        },
        cuts[i],
        standard,
        items[i],
    )
}

/// The first of the items of an array that are still to be read, and the place of what follows it.
proof fn lemma_array_item(
    text: Seq<u8>,
    from: int,
    standard: bool,
    items: Seq<JsonValue>,
) -> (r: (JsonValue, int))
    requires
        0 <= from <= text.len() <= usize::MAX,
        array_items(text, unused_end(text, from), standard, items) is Ok,
    ensures
        ({
            let (item, close) = r;
            let found = array_items(text, unused_end(text, from), standard, items);
            &&& from <= close < text.len()
            &&& value_between(text, from, close, standard, item)
            &&& text[close] == 0x2c || text[close] == 0x5d
            &&& text[close] == 0x2c ==> found == array_items(
                text,
                unused_end(text, close + 1),
                standard,
                items.push(item),
            )
            &&& text[close] == 0x5d ==> found == Ok::<_, Refusal>(
                (JsonValue::Array(items.push(item)), close + 1),
            )
        }),
{
    let pos = unused_end(text, from);
    lemma_unused_end(text, from);
    lemma_unused_end_again(text, from);
    let left_out = !standard && (byte_at(text, pos) == Some(0x2cu8) || byte_at(text, pos) == Some(
        0x5du8,
    ));
    law_value_within_text(text, pos, standard);
    let (item, end) = if left_out {
        (JsonValue::Null, pos)
    } else {
        value(text, pos, standard)->Ok_0
    };
    let close = unused_end(text, end);
    lemma_unused_end(text, end);
    lemma_gap(text, end);
    lemma_gap(text, from);
    assert(value(text, from, standard) == value(text, pos, standard));
    assert(value_between(text, from, close, standard, item)) by {
        reveal(value_between);
    }
    (item, close)
}

/// An item in front of separated items is separated from them by a comma.
proof fn lemma_item_in_front(
    text: Seq<u8>,
    from: int,
    close: int,
    more: Seq<int>,
    standard: bool,
    all: Seq<JsonValue>,
    n: int,
)
    requires
        0 <= n < all.len(),
        0 <= from <= close < text.len(),
        text[close] == 0x2c,
        value_between(text, from, close, standard, all[n]),
        n + 1 + more.len() == all.len(),
        forall|i: int|
            0 <= i < more.len() ==> #[trigger] item_separated(
                text,
                close + 1,
                more,
                standard,
                all.skip(n + 1),
                i,
            ),
    ensures
        forall|i: int|
            0 <= i < more.len() + 1 ==> #[trigger] item_separated(
                text,
                from,
                seq![close] + more,
                standard,
                all.skip(n),
                i,
            ),
{
    let cuts = seq![close] + more;
    let rest = all.skip(n);
    let later = all.skip(n + 1);
    assert forall|i: int| 0 <= i < more.len() + 1 implies #[trigger] item_separated(
        text,
        from,
        cuts,
        standard,
        rest,
        i,
    ) by {
        assert(rest[i] == all[n + i]);
        if i > 0 {
            assert(item_separated(text, close + 1, more, standard, later, i - 1));
            assert(later[i - 1] == rest[i]);
            assert(cuts[i] == more[i - 1]);
            assert(cuts[i - 1] == if i == 1 {
                close
            } else {
                more[i - 2]
            });
        }
    }
}

/// The places of the commas behind the items of an array, and of the bracket behind the last.
proof fn lemma_array_cuts(
    text: Seq<u8>,
    from: int,
    standard: bool,
    items: Seq<JsonValue>,
) -> (cuts: Seq<int>)
    requires
        0 <= from <= text.len() <= usize::MAX,
        array_items(text, unused_end(text, from), standard, items) is Ok,
    ensures
        ({
            let (v, end) = array_items(text, unused_end(text, from), standard, items)->Ok_0;
            &&& v matches JsonValue::Array(all) && {
                &&& cuts.len() > 0
                &&& all.len() == items.len() + cuts.len()
                &&& all.take(items.len() as int) == items
                &&& end == cuts.last() + 1
                &&& text[cuts.last()] == 0x5d
                &&& forall|i: int|
                    0 <= i < cuts.len() ==> #[trigger] item_separated(
                        text,
                        from,
                        cuts,
                        standard,
                        all.skip(items.len() as int),
                        i,
                    )
            }
        }),
    decreases text.len() - from,
{
    let pos = unused_end(text, from);
    let (item, close) = lemma_array_item(text, from, standard, items);
    let (v, stop) = array_items(text, pos, standard, items)->Ok_0;
    if text[close] == 0x2c {
        let more = lemma_array_cuts(text, close + 1, standard, items.push(item));
        let cuts = seq![close] + more;
        let all = v->Array_0;
        assert(all.take(items.len() as int) =~= all.take(items.len() as int + 1).take(
            items.len() as int,
        ));
        assert(items.push(item).take(items.len() as int) =~= items);
        assert(all[items.len() as int] == item) by {
            assert(all.take(items.len() as int + 1)[items.len() as int] == items.push(
                item,
            )[items.len() as int]);
        }
        assert(cuts.last() == more.last());
        lemma_item_in_front(text, from, close, more, standard, all, items.len() as int);
        cuts
    } else {
        let cuts = seq![close];
        let all = v->Array_0;
        assert(all == items.push(item));
        assert(all.take(items.len() as int) =~= items);
        let rest = all.skip(items.len() as int);
        assert(rest[0] == item);
        assert forall|i: int| 0 <= i < cuts.len() implies #[trigger] item_separated(
            text,
            from,
            cuts,
            standard,
            rest,
            i,
        ) by {
            assert(i == 0);
        }
        cuts
    }
}

/// An array that is accepted is a bracket, its items, a comma behind each but the last, and a
/// bracket, with nothing else between them but what is skipped.
pub proof fn law_array_is_separated(text: Seq<u8>, standard: bool) -> (r: (int, Seq<int>))
    requires
        text.len() <= usize::MAX,
        document(text, standard) matches Ok(JsonValue::Array(_)),
    ensures
        ({
            let (open, cuts) = r;
            let all = document(text, standard)->Ok_0->Array_0;
            &&& gap(text, 0, open)
            &&& open < text.len() && text[open] == 0x5b
            &&& cuts.len() > 0
            &&& gap(text, cuts.last() + 1, text.len() as int)
            &&& text[cuts.last()] == 0x5d
            &&& all.len() == 0 ==> cuts.len() == 1 && gap(text, open + 1, cuts[0])
            &&& all.len() > 0 ==> cuts.len() == all.len() && forall|i: int|
                0 <= i < cuts.len() ==> #[trigger] item_separated(
                    text,
                    open + 1,
                    cuts,
                    standard,
                    all,
                    i,
                )
        }),
{
    let open = unused_end(text, 0);
    lemma_unused_end(text, 0);
    lemma_gap(text, 0);
    law_value_within_text(text, 0, standard);
    let (root, end) = value(text, 0, standard)->Ok_0;
    lemma_gap(text, end);
    lemma_unused_end(text, end);
    assert(text[open] == 0x5b) by {
        lemma_scalar_is_no_container(text, open, standard);
    }
    let inside = unused_end(text, open + 1);
    lemma_unused_end(text, open + 1);
    lemma_gap(text, open + 1);
    if byte_at(text, inside) == Some(0x5du8) {
        (open, seq![inside])
    } else {
        let cuts = lemma_array_cuts(text, open + 1, standard, seq![]);
        let all = root->Array_0;
        assert(all.skip(0) =~= all);
        (open, cuts)
    }
}

/// No scalar is an array, and no object is one.
proof fn lemma_scalar_is_no_container(text: Seq<u8>, pos: int, standard: bool)
    requires
        0 <= pos < text.len() <= usize::MAX,
    ensures
        scalar(text, pos, text[pos], standard) matches Ok((v, _)) ==> !(v is Array) && !(v is
            Object),
        object_members(text, unused_end(text, pos + 1), standard, seq![], seq![]) matches Ok((v, _))
            ==> v is Object,
{
    lemma_unused_end(text, pos + 1);
    lemma_more_members(text, unused_end(text, pos + 1), standard, seq![], seq![]);
}

/// A member stands from one offset up to another: its key, a colon and its value, with nothing but
/// what is skipped before, between and behind them.
pub open spec fn member_parts(
    text: Seq<u8>,
    from: int,
    to: int,
    standard: bool,
    member: Member,
    start: int,
    key_end: int,
    colon: int,
    end: int,
) -> bool {
    &&& gap(text, from, start)
    &&& object_key(text, start, standard) == Ok::<_, Refusal>((member.key, key_end))
    &&& gap(text, key_end, colon)
    &&& byte_at(text, colon) == Some(0x3au8)
    &&& value(text, colon + 1, standard) == Ok::<_, Refusal>((member.value, end))
    &&& gap(text, end, to)
}

/// A member stands from one offset up to another.
#[verifier::opaque]
pub open spec fn member_between(
    text: Seq<u8>,
    from: int,
    to: int,
    standard: bool,
    member: Member,
) -> bool {
    exists|start: int, key_end: int, colon: int, end: int|
        member_parts(text, from, to, standard, member, start, key_end, colon, end)
}

/// The member at a place of an object, with a comma behind it unless it is the last.
pub open spec fn member_separated(
    text: Seq<u8>,
    from: int,
    cuts: Seq<int>,
    standard: bool,
    members: Seq<Member>,
    i: int,
) -> bool {
    &&& from <= cuts[i] < text.len()
    &&& i + 1 < cuts.len() ==> text[cuts[i]] == 0x2c
    &&& member_between(
        text,
        if i == 0 {
            from
        } else {
            cuts[i - 1] + 1
        },
        cuts[i],
        standard,
        members[i],
    )
}

proof fn lemma_member_parts(text: Seq<u8>, from: int, standard: bool)
    requires
        0 <= from <= text.len() <= usize::MAX,
        member_at(text, unused_end(text, from), standard) is Some,
    ensures
        ({
            let (member, _, close) = member_at(text, unused_end(text, from), standard)->Some_0;
            member_between(text, from, close, standard, member)
        }),
{
    reveal(member_at);
    let pos = unused_end(text, from);
    lemma_unused_end(text, from);
    lemma_gap(text, from);
    let (member, key_end, close) = member_at(text, pos, standard)->Some_0;
    lemma_object_key(text, pos, standard);
    lemma_gap(text, key_end);
    let colon = unused_end(text, key_end);
    law_value_within_text(text, colon + 1, standard);
    let end = value(text, colon + 1, standard)->Ok_0.1;
    lemma_gap(text, end);
    assert(member_parts(text, from, close, standard, member, pos, key_end, colon, end));
    reveal(member_between);
}

/// A member in front of separated members is separated from them by a comma.
proof fn lemma_member_in_front(
    text: Seq<u8>,
    from: int,
    close: int,
    more: Seq<int>,
    standard: bool,
    all: Seq<Member>,
    n: int,
)
    requires
        0 <= n < all.len(),
        0 <= from <= close < text.len(),
        text[close] == 0x2c,
        member_between(text, from, close, standard, all[n]),
        n + 1 + more.len() == all.len(),
        forall|i: int|
            0 <= i < more.len() ==> #[trigger] member_separated(
                text,
                close + 1,
                more,
                standard,
                all.skip(n + 1),
                i,
            ),
    ensures
        forall|i: int|
            0 <= i < more.len() + 1 ==> #[trigger] member_separated(
                text,
                from,
                seq![close] + more,
                standard,
                all.skip(n),
                i,
            ),
{
    let cuts = seq![close] + more;
    let rest = all.skip(n);
    let later = all.skip(n + 1);
    assert forall|i: int| 0 <= i < more.len() + 1 implies #[trigger] member_separated(
        text,
        from,
        cuts,
        standard,
        rest,
        i,
    ) by {
        assert(rest[i] == all[n + i]);
        if i > 0 {
            assert(member_separated(text, close + 1, more, standard, later, i - 1));
            assert(later[i - 1] == rest[i]);
            assert(cuts[i] == more[i - 1]);
            assert(cuts[i - 1] == if i == 1 {
                close
            } else {
                more[i - 2]
            });
        }
    }
}

/// The places of the commas behind the members of an object, and of the brace behind the last.
proof fn lemma_object_cuts(
    text: Seq<u8>,
    from: int,
    standard: bool,
    members: Seq<Member>,
    ends: Seq<int>,
) -> (cuts: Seq<int>)
    requires
        0 <= from <= text.len() <= usize::MAX,
        object_members(text, unused_end(text, from), standard, members, ends) is Ok,
    ensures
        ({
            let (v, end) = object_members(
                text,
                unused_end(text, from),
                standard,
                members,
                ends,
            )->Ok_0;
            &&& v matches JsonValue::Object(all) && {
                &&& cuts.len() > 0
                &&& all.len() == members.len() + cuts.len()
                &&& all.take(members.len() as int) == members
                &&& end == cuts.last() + 1
                &&& text[cuts.last()] == 0x7d
                &&& forall|i: int|
                    0 <= i < cuts.len() ==> #[trigger] member_separated(
                        text,
                        from,
                        cuts,
                        standard,
                        all.skip(members.len() as int),
                        i,
                    )
            }
        }),
    decreases text.len() - from,
{
    let pos = unused_end(text, from);
    lemma_unused_end(text, from);
    lemma_members_step(text, pos, standard, members, ends);
    let (member, key_end, close) = member_at(text, pos, standard)->Some_0;
    lemma_member_parts(text, from, standard);
    let (v, stop) = object_members(text, pos, standard, members, ends)->Ok_0;
    let n = members.len() as int;
    let now = members.push(member);
    if byte_at(text, close) == Some(0x2cu8) {
        let more = lemma_object_cuts(text, close + 1, standard, now, ends.push(key_end));
        let cuts = seq![close] + more;
        let all = v->Object_0;
        assert(all.take(n) =~= all.take(n + 1).take(n));
        assert(now.take(n) =~= members);
        assert(all[n] == member) by {
            assert(all.take(n + 1)[n] == now[n]);
        }
        assert(cuts.last() == more.last());
        lemma_member_in_front(text, from, close, more, standard, all, n);
        cuts
    } else {
        let cuts = seq![close];
        let all = v->Object_0;
        assert(all == now);
        assert(all.take(n) =~= members);
        let rest = all.skip(n);
        assert(rest[0] == member);
        assert forall|i: int| 0 <= i < cuts.len() implies #[trigger] member_separated(
            text,
            from,
            cuts,
            standard,
            rest,
            i,
        ) by {
            assert(i == 0);
        }
        cuts
    }
}

/// An object that is accepted is a brace, its members, a comma behind each but the last, and a
/// brace, with nothing else between them but what is skipped.
pub proof fn law_object_is_separated(text: Seq<u8>, standard: bool) -> (r: (int, Seq<int>))
    requires
        text.len() <= usize::MAX,
        document(text, standard) matches Ok(JsonValue::Object(_)),
    ensures
        ({
            let (open, cuts) = r;
            let all = document(text, standard)->Ok_0->Object_0;
            &&& gap(text, 0, open)
            &&& open < text.len() && text[open] == 0x7b
            &&& cuts.len() > 0
            &&& gap(text, cuts.last() + 1, text.len() as int)
            &&& text[cuts.last()] == 0x7d
            &&& all.len() == 0 ==> cuts.len() == 1 && gap(text, open + 1, cuts[0])
            &&& all.len() > 0 ==> cuts.len() == all.len() && forall|i: int|
                0 <= i < cuts.len() ==> #[trigger] member_separated(
                    text,
                    open + 1,
                    cuts,
                    standard,
                    all,
                    i,
                )
        }),
{
    let open = unused_end(text, 0);
    lemma_unused_end(text, 0);
    lemma_gap(text, 0);
    law_value_within_text(text, 0, standard);
    let (root, end) = value(text, 0, standard)->Ok_0;
    lemma_gap(text, end);
    lemma_unused_end(text, end);
    let inside = unused_end(text, open + 1);
    assert(open < text.len());
    lemma_scalar_is_no_container(text, open, standard);
    lemma_unused_end(text, open + 1);
    lemma_gap(text, open + 1);
    assert(text[open] == 0x7b) by {
        if text[open] == 0x5b && byte_at(text, inside) != Some(0x5du8) {
            let cuts = lemma_array_cuts(text, open + 1, standard, seq![]);
        }
    }
    if byte_at(text, inside) == Some(0x7du8) {
        (open, seq![inside])
    } else {
        let cuts = lemma_object_cuts(text, open + 1, standard, seq![], seq![]);
        let all = root->Object_0;
        assert(all.skip(0) =~= all);
        (open, cuts)
    }
}

/// A key without quotes is made of letters, digits, underscores, dollar signs and bytes outside
/// ASCII.
pub proof fn law_bytes_of_a_key_without_quotes(key: Seq<u8>, i: int)
    requires
        key_meaning(key, false) is Some,
        0 <= i < key.len(),
        key[0] != 0x22,
        key[0] != 0x27,
    ensures
        ({
            let b = key[i];
            0x41 <= b <= 0x5a || 0x61 <= b <= 0x7a || 0x30 <= b <= 0x39 || b == 0x5f || b == 0x24 || b
                >= 0x80
        }),
{
    let text = key.push(0x3a);
    assert(text[0] == key[0]);
    assert(text.subrange(0, key.len() as int) =~= key);
    lemma_bare_bytes(text, 0, key.len() as int);
    assert(text[i] == key[i]);
}

/// In the standard dialect a zero in front of another digit is refused behind that digit.
pub proof fn law_leading_zero_is_refused(sign: Seq<u8>, d: u8, rest: Seq<u8>)
    requires
        sign == Seq::<u8>::empty() || sign == seq![0x2du8],
        0x30 <= d <= 0x39,
    ensures
        document(sign + seq![0x30u8, d] + rest, true) matches Err(e) && e.error
            == ErrorModel::Syntax(ParseErrorCode::InvalidNumberValue, sign.len() as int + 2),
{
    let text = sign + seq![0x30u8, d] + rest;
    let first = sign.len() as int;
    assert(text[first] == 0x30 && text[first + 1] == d);
    assert(text[0] == if first == 1 {
        0x2du8
    } else {
        0x30
    });
    assert(unused_end(text, 0) == 0);
    assert(digits_end(text, first) == digits_end(text, first + 1));
    lemma_digits_end(text, first + 2);
    assert(digits_end(text, first + 1) == digits_end(text, first + 2));
}

/// In the standard dialect a minus without a digit is refused behind the minus.
pub proof fn law_minus_without_digits_is_refused(rest: Seq<u8>)
    requires
        rest.len() == 0 || !(0x30 <= rest[0] <= 0x39),
    ensures
        document(seq![0x2du8] + rest, true) matches Err(e) && e.error == ErrorModel::Syntax(
            ParseErrorCode::InvalidNumberValue,
            1,
        ),
{
    let text = seq![0x2du8] + rest;
    assert(text[0] == 0x2d);
    assert(rest.len() > 0 ==> text[1] == rest[0]);
    assert(unused_end(text, 0) == 0);
    assert(digits_end(text, 1) == 1);
}

/// In the standard dialect a point without a digit behind it is refused one place behind the point
/// and what follows it.
pub proof fn law_point_without_digits_is_refused(sign: Seq<u8>, whole: Seq<u8>, rest: Seq<u8>)
    requires
        sign == Seq::<u8>::empty() || sign == seq![0x2du8],
        decimal_figures(whole),
        whole.len() > 0,
        whole.len() == 1 || whole[0] != 0x30,
        rest.len() == 0 || !(0x30 <= rest[0] <= 0x39),
        (sign + whole + seq![0x2eu8] + rest).len() < usize::MAX,
    ensures
        document(sign + whole + seq![0x2eu8] + rest, true) matches Err(e) && e.error
            == ErrorModel::Syntax(
            ParseErrorCode::InvalidNumberValue,
            sign.len() + whole.len() as int + 2,
        ),
{
    let text = sign + whole + seq![0x2eu8] + rest;
    let first = sign.len() as int;
    let int_end = first + whole.len();
    assert(text[int_end] == 0x2e);
    assert(rest.len() > 0 ==> text[int_end + 1] == rest[0]);
    assert(text[first] == whole[0]);
    assert(first == 1 ==> text[0] == 0x2d);
    assert forall|i: int| first <= i < int_end implies 0x30 <= #[trigger] text[i] <= 0x39 by {
        assert(text[i] == whole[i - first]);
    }
    lemma_digits_end_at(text, first, int_end);
    assert(digits_end(text, int_end + 1) == int_end + 1);
    assert(0x30 <= whole[0] <= 0x39);
    assert(unused_end(text, 0) == 0);
}

/// In the standard dialect an exponent without digits is refused where they should stand.
#[verifier::spinoff_prover]
#[verifier::rlimit(30)]
pub proof fn law_exponent_without_digits_is_refused(
    sign: Seq<u8>,
    whole: Seq<u8>,
    point: bool,
    fraction: Seq<u8>,
    e: u8,
    exponent_sign: Seq<u8>,
    rest: Seq<u8>,
)
    requires
        sign == Seq::<u8>::empty() || sign == seq![0x2du8],
        decimal_figures(whole),
        whole.len() > 0,
        whole.len() == 1 || whole[0] != 0x30,
        decimal_figures(fraction),
        point <==> fraction.len() > 0,
        e == 0x65 || e == 0x45,
        is_sign(exponent_sign),
        rest.len() == 0 || !(0x30 <= rest[0] <= 0x39),
        rest.len() > 0 && exponent_sign.len() == 0 ==> rest[0] != 0x2b && rest[0] != 0x2d,
    ensures
        ({
            let number = decimal_text(sign, whole, point, fraction);
            document(number + (seq![e] + exponent_sign + rest), true) matches Err(refusal)
                && refusal.error == ErrorModel::Syntax(
                ParseErrorCode::InvalidNumberValue,
                number.len() + 1 + exponent_sign.len() as int,
            )
        }),
{
    let number = decimal_text(sign, whole, point, fraction);
    let behind = seq![e] + exponent_sign + rest;
    let text = number + behind;
    lemma_parts(sign, whole, point, fraction, behind);
    lemma_no_exponent_digits(number, e, exponent_sign, rest);
    assert(unused_end(text, 0) == 0);
}

/// In the standard dialect a word is refused behind its first wrong letter, or at the end of the
/// text where that comes too early: `k` letters of the word are right.
#[verifier::spinoff_prover]
#[verifier::rlimit(30)]
pub proof fn law_wrong_word_is_refused(word: Seq<u8>, k: int, rest: Seq<u8>)
    requires
        word == seq![0x6eu8, 0x75, 0x6c, 0x6c] || word == seq![0x74u8, 0x72, 0x75, 0x65] || word
            == seq![0x66u8, 0x61, 0x6c, 0x73, 0x65],
        1 <= k < word.len(),
        rest.len() == 0 || rest[0] != word[k],
    ensures
        document(word.take(k) + rest, true) matches Err(e) && e.error == if rest.len() == 0 {
            ErrorModel::Syntax(ParseErrorCode::InvalidEOF, k)
        } else {
            ErrorModel::Syntax(ParseErrorCode::ExpectedSomeIdent, k + 1)
        },
{
    if word == seq![0x6eu8, 0x75, 0x6c, 0x6c] {
        assert(word =~= word_null());
    } else if word == seq![0x74u8, 0x72, 0x75, 0x65] {
        assert(word =~= word_true());
    } else {
        assert(word =~= word_false());
    }
    let text = word.take(k) + rest;
    let e = lemma_word_breaks_off(word, k, rest);
    lemma_word_document(text, word, e);
}

proof fn lemma_word_breaks_off(word: Seq<u8>, k: int, rest: Seq<u8>) -> (e: Refusal)
    requires
        1 <= k < word.len(),
        rest.len() == 0 || rest[0] != word[k],
    ensures
        (word.take(k) + rest).len() > 0,
        (word.take(k) + rest)[0] == word[0],
        word_end(word.take(k) + rest, 0, word, false) == Err::<int, _>(e),
        e.error == if rest.len() == 0 {
            ErrorModel::Syntax(ParseErrorCode::InvalidEOF, k)
        } else {
            ErrorModel::Syntax(ParseErrorCode::ExpectedSomeIdent, k + 1)
        },
{
    let text = word.take(k) + rest;
    assert forall|i: int| 0 <= i < k implies text[i] == word[i] by {
        assert(text[i] == word.take(k)[i]);
    }
    assert(word.skip(0) =~= word);
    assert(rest.len() > 0 ==> text[k] == rest[0]);
    lemma_wrong_word(text, word, 0, k);
    word_end(text, 0, word, false)->Err_0
}

proof fn lemma_word_document(text: Seq<u8>, word: Seq<u8>, e: Refusal)
    requires
        text.len() > 0,
        word == word_null() && text[0] == 0x6e || word == word_true() && text[0] == 0x74 || word
            == word_false() && text[0] == 0x66,
        word_end(text, 0, word, false) == Err::<int, _>(e),
    ensures
        document(text, true) == Err::<JsonValue, _>(e),
{
    assert(unused_end(text, 0) == 0);
    assert(scalar(text, 0, text[0], true) == Err::<(JsonValue, int), _>(e));
}

proof fn lemma_wrong_word(text: Seq<u8>, word: Seq<u8>, pos: int, k: int)
    requires
        0 <= pos <= k < word.len(),
        k <= text.len(),
        forall|i: int| 0 <= i < k ==> text[i] == word[i],
        k < text.len() ==> text[k] != word[k],
    ensures
        word_end(text, pos, word.skip(pos), false) == if k == text.len() {
            refused::<int>(ParseErrorCode::InvalidEOF, k)
        } else {
            refused::<int>(ParseErrorCode::ExpectedSomeIdent, k + 1)
        },
    decreases k - pos,
{
    let rest = word.skip(pos);
    assert(rest[0] == word[pos]);
    if pos < k {
        assert(rest.drop_first() =~= word.skip(pos + 1));
        lemma_wrong_word(text, word, pos + 1, k);
    }
}

proof fn lemma_wrong_closer(
    texts: Seq<Seq<u8>>,
    t: Seq<u8>,
    off: int,
    standard: bool,
    items: Seq<JsonValue>,
)
    requires
        texts.len() > 0,
        item_texts(texts, standard),
        0 < off <= t.len() <= usize::MAX,
        t.subrange(off, t.len() as int) == joined(texts).push(0x7d),
    ensures
        byte_at(t, unused_end(t, off)) != Some(0x5du8),
        array_items(t, unused_end(t, off), standard, items) matches Err(e) && e.error
            == ErrorModel::Syntax(ParseErrorCode::ExpectedArrayCommaOrEnd, t.len() - 1),
    decreases texts.len(),
{
    let first = texts[0];
    let next = off + first.len();
    assert(meaning(texts[0], standard) is Some);
    lemma_first_text(texts, t, off, 0x7d);
    lemma_value_moves(first, t, off, standard);
    let (item, end) = value(t, off, standard)->Ok_0;
    lemma_unused_end(t, off);
    assert(unused_end(t, off) < t.len()) by {
        if unused_end(t, off) >= t.len() {
            assert(unused_end(t, end) >= t.len());
        }
    }
    lemma_value_start(t, off, standard);
    lemma_items_step(t, unused_end(t, off), standard, items, item, next);
    if texts.len() == 1 {
        law_value_within_text(t, unused_end(t, off), standard);
    } else {
        let others = texts.drop_first();
        assert forall|i: int| 0 <= i < others.len() implies meaning(
            #[trigger] others[i],
            standard,
        ) is Some && unused_end(others[i], 0) < others[i].len() by {
            assert(others[i] == texts[i + 1]);
        }
        lemma_wrong_closer(others, t, next + 1, standard, items.push(item));
    }
}

/// An array that is closed with a brace is refused at the brace.
pub proof fn law_array_closed_with_a_brace(texts: Seq<Seq<u8>>, standard: bool)
    requires
        texts.len() > 0,
        item_texts(texts, standard),
        (seq![0x5bu8] + joined(texts).push(0x7d)).len() <= usize::MAX,
    ensures
        document(seq![0x5bu8] + joined(texts).push(0x7d), standard) matches Err(e) && e.error
            == ErrorModel::Syntax(
            ParseErrorCode::ExpectedArrayCommaOrEnd,
            joined(texts).len() as int + 1,
        ),
{
    let t = seq![0x5bu8] + joined(texts).push(0x7d);
    assert(t[0] == 0x5b);
    assert(unused_end(t, 0) == 0);
    assert(t.subrange(1, t.len() as int) =~= joined(texts).push(0x7d));
    lemma_wrong_closer(texts, t, 1, standard, seq![]);
}

/// Where an object goes on with no key: the standard dialect refuses anything but a double quote
/// behind the byte, the extended one a digit behind it and another byte that starts no key at it,
/// and both the end of the text.
pub proof fn law_no_key(w: Seq<u8>, rest: Seq<u8>, standard: bool)
    requires
        all_white(w),
        rest.len() > 0 ==> !white(rest[0]) && rest[0] != 0x5c && rest[0] != 0x7d && rest[0] != 0x22,
        rest.len() > 0 && !standard ==> {
            let b = rest[0];
            b < 0xc0 && b != 0x27 && b != 0x5f && b != 0x24 && !(0x41 <= b <= 0x5a) && !(0x61 <= b
                <= 0x7a)
        },
    ensures
        ({
            let text = seq![0x7bu8] + w + rest;
            let pos = w.len() as int + 1;
            document(text, standard) matches Err(e) && e.error == if rest.len() == 0 {
                ErrorModel::Syntax(ParseErrorCode::InvalidEOF, pos)
            } else if standard {
                ErrorModel::Syntax(ParseErrorCode::ExpectedSomeIdent, pos + 1)
            } else if 0x30 <= rest[0] <= 0x39 {
                ErrorModel::Syntax(ParseErrorCode::ObjectKeyInvalidNumber, pos + 1)
            } else {
                ErrorModel::Syntax(ParseErrorCode::ObjectKeyInvalidCharacter, pos)
            }
        }),
{
    let text = seq![0x7bu8] + w + rest;
    let pos = w.len() as int + 1;
    assert(text[0] == 0x7b);
    assert(unused_end(text, 0) == 0);
    assert(text.subrange(1, pos) =~= w);
    lemma_white_run(text, 1, w);
    assert(rest.len() > 0 ==> text[pos] == rest[0]);
    assert(unused_end(text, pos) == pos);
    assert(object_key(text, pos, standard) is Err);
}

/// What is read of a string, white space behind it included.
proof fn lemma_string_stands(
    text: Seq<u8>,
    pos: int,
    spellings: Seq<Seq<u8>>,
    chars: Seq<char>,
    w: Seq<u8>,
    standard: bool,
)
    requires
        0 <= pos,
        all_spelled(spellings, chars, 0x22),
        all_white(w),
        pos + spellings.flatten().len() + 2 + w.len() < text.len(),
        text[pos] == 0x22,
        text.subrange(pos + 1, pos + 1 + spellings.flatten().len()) == spellings.flatten(),
        text[pos + 1 + spellings.flatten().len()] == 0x22,
        text.subrange(
            pos + spellings.flatten().len() + 2,
            pos + spellings.flatten().len() + 2 + w.len(),
        ) == w,
        ({
            let b = text[pos + spellings.flatten().len() + 2 + w.len()];
            !white(b) && b != 0x5c
        }),
    ensures
        ({
            let end = pos + spellings.flatten().len() + 2;
            &&& unused_end(text, pos) == pos
            &&& value(text, pos, standard) == Ok::<_, Refusal>(
                (JsonValue::Text(encode_utf8(chars)), end),
            )
            &&& object_key(text, pos, standard) == Ok::<_, Refusal>((encode_utf8(chars), end))
            &&& unused_end(text, end) == end + w.len()
        }),
{
    let end = pos + spellings.flatten().len() + 2;
    lemma_quoted_chars(text, pos + 1, spellings, chars, 0x22);
    assert(unused_end(text, pos) == pos);
    lemma_white_run(text, end, w);
    assert(unused_end(text, end + w.len()) == end + w.len());
}

/// Behind a string in an array, white space aside, anything but a comma or the end of the array is
/// refused where it stands.
pub proof fn law_array_goes_on(
    spellings: Seq<Seq<u8>>,
    chars: Seq<char>,
    w: Seq<u8>,
    b: u8,
    rest: Seq<u8>,
    standard: bool,
)
    requires
        all_spelled(spellings, chars, 0x22),
        all_white(w),
        !white(b) && b != 0x5c && b != 0x2c && b != 0x5d,
    ensures
        document(
            seq![0x5bu8, 0x22] + spellings.flatten() + seq![0x22u8] + w + seq![b] + rest,
            standard,
        ) matches Err(e) && e.error == ErrorModel::Syntax(
            ParseErrorCode::ExpectedArrayCommaOrEnd,
            spellings.flatten().len() + w.len() as int + 3,
        ),
{
    let all = spellings.flatten();
    let text = seq![0x5bu8, 0x22] + all + seq![0x22u8] + w + seq![b] + rest;
    let n = all.len() as int;
    assert(text.subrange(2, 2 + n) =~= all);
    assert(text.subrange(3 + n, 3 + n + w.len()) =~= w);
    assert(text[0] == 0x5b && text[1] == 0x22 && text[2 + n] == 0x22 && text[3 + n + w.len()] == b);
    lemma_string_stands(text, 1, spellings, chars, w, standard);
    assert(unused_end(text, 0) == 0);
}

/// Behind the key of a member, white space aside, anything but a colon is refused behind it.
pub proof fn law_key_needs_colon(
    spellings: Seq<Seq<u8>>,
    chars: Seq<char>,
    w: Seq<u8>,
    b: u8,
    rest: Seq<u8>,
    standard: bool,
)
    requires
        all_spelled(spellings, chars, 0x22),
        all_white(w),
        !white(b) && b != 0x5c && b != 0x3a,
    ensures
        document(
            seq![0x7bu8, 0x22] + spellings.flatten() + seq![0x22u8] + w + seq![b] + rest,
            standard,
        ) matches Err(e) && e.error == ErrorModel::Syntax(
            ParseErrorCode::ExpectedSomeIdent,
            spellings.flatten().len() + w.len() as int + 4,
        ),
{
    let all = spellings.flatten();
    let text = seq![0x7bu8, 0x22] + all + seq![0x22u8] + w + seq![b] + rest;
    let n = all.len() as int;
    assert(text.subrange(2, 2 + n) =~= all);
    assert(text.subrange(3 + n, 3 + n + w.len()) =~= w);
    assert(text[0] == 0x7b && text[1] == 0x22 && text[2 + n] == 0x22 && text[3 + n + w.len()] == b);
    lemma_string_stands(text, 1, spellings, chars, w, standard);
    assert(unused_end(text, 0) == 0);
}

/// Behind the value of a member, white space aside, anything but a comma or the end of the object
/// is refused where it stands; the member here is a key and a string.
#[verifier::spinoff_prover]
#[verifier::rlimit(30)]
pub proof fn law_object_goes_on(
    key: Seq<Seq<u8>>,
    key_chars: Seq<char>,
    spellings: Seq<Seq<u8>>,
    chars: Seq<char>,
    w: Seq<u8>,
    b: u8,
    rest: Seq<u8>,
    standard: bool,
)
    requires
        all_spelled(key, key_chars, 0x22),
        all_spelled(spellings, chars, 0x22),
        all_white(w),
        !white(b) && b != 0x5c && b != 0x2c && b != 0x7d,
    ensures
        document(
            seq![0x7bu8, 0x22] + key.flatten() + seq![0x22u8, 0x3a, 0x22] + spellings.flatten()
                + seq![0x22u8] + w + seq![b] + rest,
            standard,
        ) matches Err(e) && e.error == ErrorModel::Syntax(
            ParseErrorCode::ExpectedObjectCommaOrEnd,
            key.flatten().len() + spellings.flatten().len() + w.len() as int + 6,
        ),
{
    let text = seq![0x7bu8, 0x22] + key.flatten() + seq![0x22u8, 0x3a, 0x22] + spellings.flatten()
        + seq![0x22u8] + w + seq![b] + rest;
    let m = key.flatten().len() as int;
    lemma_member_laid_out(key.flatten(), spellings.flatten(), w, b, rest);
    lemma_string_stands(text, 1, key, key_chars, Seq::empty(), standard);
    lemma_string_stands(text, 4 + m, spellings, chars, w, standard);
    assert(unused_end(text, 0) == 0);
    assert(object_members(text, 1, standard, seq![], seq![]) is Err);
}

proof fn lemma_member_laid_out(name: Seq<u8>, all: Seq<u8>, w: Seq<u8>, b: u8, rest: Seq<u8>)
    ensures
        ({
            let text = seq![0x7bu8, 0x22] + name + seq![0x22u8, 0x3a, 0x22] + all + seq![0x22u8] + w
                + seq![b] + rest;
            let m = name.len() as int;
            let n = all.len() as int;
            &&& text.len() == 7 + m + n + w.len() + rest.len()
            &&& text[0] == 0x7b && text[1] == 0x22
            &&& text.subrange(2, 2 + m) == name
            &&& text[2 + m] == 0x22 && text[3 + m] == 0x3a && text[4 + m] == 0x22
            &&& text.subrange(3 + m, 3 + m) == Seq::<u8>::empty()
            &&& text.subrange(5 + m, 5 + m + n) == all
            &&& text[5 + m + n] == 0x22
            &&& text.subrange(6 + m + n, 6 + m + n + w.len()) == w
            &&& text[6 + m + n + w.len()] == b
        }),
{
    let text = seq![0x7bu8, 0x22] + name + seq![0x22u8, 0x3a, 0x22] + all + seq![0x22u8] + w + seq![
        b,
    ] + rest;
    let m = name.len() as int;
    let n = all.len() as int;
    assert(text.subrange(2, 2 + m) =~= name);
    assert(text.subrange(5 + m, 5 + m + n) =~= all);
    assert(text.subrange(6 + m + n, 6 + m + n + w.len()) =~= w);
}

} // verus!
