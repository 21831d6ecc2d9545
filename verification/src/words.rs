//! Words that stand for values.

use vstd::prelude::*;

use crate::error::{ErrorModel, ParseErrorCode, Refusal};
use crate::grammar::{
    document, extended_number, lower, significant_digits, special_number, unused_end, unused_width,
    word_end, word_false, word_infinity, word_nan, word_null, word_true, zeros_end,
};
use crate::numerals::lemma_scalar_document;
use crate::number::Number;
use crate::scan::digits_end;
use crate::value::{JsonValue, NumberToken};

verus! {

/// A text is a word of small letters, in capitals or small letters, letter by letter.
pub open spec fn any_case(text: Seq<u8>, word: Seq<u8>) -> bool {
    &&& text.len() == word.len()
    &&& forall|i: int|
        0 <= i < word.len() ==> #[trigger] text[i] == word[i] || text[i] == word[i] - 0x20
}

/// A word is found where it stands.
proof fn lemma_word_found(text: Seq<u8>, pos: int, word: Seq<u8>, fold: bool)
    requires
        0 <= pos,
        pos + word.len() <= text.len(),
        forall|i: int| 0 <= i < word.len() ==> 0x61 <= #[trigger] word[i] <= 0x7a,
        forall|i: int|
            0 <= i < word.len() ==> text[pos + i] == #[trigger] word[i] || fold && text[pos + i]
                == word[i] - 0x20,
    ensures
        word_end(text, pos, word, fold) == Ok::<int, Refusal>(pos + word.len()),
    decreases word.len(),
{
    if word.len() > 0 {
        let rest = word.drop_first();
        assert(text[pos + 0] == word[0] || fold && text[pos + 0] == word[0] - 0x20);
        assert(0x61 <= word[0] <= 0x7a);
        assert forall|i: int| 0 <= i < rest.len() implies 0x61 <= #[trigger] rest[i] <= 0x7a by {
            assert(rest[i] == word[i + 1]);
        }
        assert forall|i: int| 0 <= i < rest.len() implies text[pos + 1 + i] == #[trigger] rest[i]
            || fold && text[pos + 1 + i] == rest[i] - 0x20 by {
            assert(rest[i] == word[i + 1]);
            assert(text[pos + (i + 1)] == word[i + 1] || fold && text[pos + (i + 1)] == word[i + 1]
                - 0x20);
        }
        lemma_word_found(text, pos + 1, rest, fold);
    }
}

/// A word that is found stands there.
pub proof fn lemma_word_stands(text: Seq<u8>, pos: int, word: Seq<u8>, fold: bool)
    requires
        0 <= pos,
        word_end(text, pos, word, fold) is Ok,
        forall|i: int| 0 <= i < word.len() ==> 0x61 <= #[trigger] word[i] <= 0x7a,
    ensures
        word_end(text, pos, word, fold) == Ok::<int, Refusal>(pos + word.len()),
        word.len() > 0 ==> pos + word.len() <= text.len(),
        forall|i: int|
            0 <= i < word.len() ==> text[pos + i] == #[trigger] word[i] || fold && text[pos + i]
                == word[i] - 0x20,
    decreases word.len(),
{
    if word.len() > 0 {
        let rest = word.drop_first();
        assert(0x61 <= word[0] <= 0x7a);
        assert forall|i: int| 0 <= i < rest.len() implies 0x61 <= #[trigger] rest[i] <= 0x7a by {
            assert(rest[i] == word[i + 1]);
        }
        lemma_word_stands(text, pos + 1, rest, fold);
        assert forall|i: int| 0 <= i < word.len() implies text[pos + i] == #[trigger] word[i] || fold
            && text[pos + i] == word[i] - 0x20 by {
            if i > 0 {
                assert(rest[i - 1] == word[i]);
                assert(text[pos + 1 + (i - 1)] == rest[i - 1] || fold && text[pos + 1 + (i - 1)]
                    == rest[i - 1] - 0x20);
            }
        }
    }
}

proof fn lemma_any_case(text: Seq<u8>, word: Seq<u8>)
    requires
        any_case(text, word),
        word.len() > 0,
        forall|i: int| 0 <= i < word.len() ==> 0x61 <= #[trigger] word[i] <= 0x7a,
    ensures
        word_end(text, 0, word, true) == Ok::<int, Refusal>(text.len() as int),
        text[0] == word[0] || text[0] == word[0] - 0x20,
        0x61 <= word[0] <= 0x7a,
        lower(text[0]) == word[0],
        unused_width(text, 0) == 0,
{
    assert forall|i: int| 0 <= i < word.len() implies text[0 + i] == #[trigger] word[i] || true
        && text[0 + i] == word[i] - 0x20 by {
        assert(text[i] == word[i] || text[i] == word[i] - 0x20);
    }
    lemma_word_found(text, 0, word, true);
    assert(text[0] == word[0] || text[0] == word[0] - 0x20);
    assert(0x61 <= word[0] <= 0x7a);
}

/// In the extended dialect the word null stands for null, in any case of its letters.
pub proof fn law_null_in_any_case(text: Seq<u8>)
    requires
        any_case(text, seq![0x6eu8, 0x75, 0x6c, 0x6c]),
    ensures
        document(text, false) == Ok::<_, Refusal>(JsonValue::Null),
{
    let word = seq![0x6eu8, 0x75, 0x6c, 0x6c];
    assert(word =~= word_null());
    lemma_any_case(text, word);
    lemma_scalar_document(text, false, JsonValue::Null);
}

/// In the extended dialect the word true stands for true, in any case of its letters.
pub proof fn law_true_in_any_case(text: Seq<u8>)
    requires
        any_case(text, seq![0x74u8, 0x72, 0x75, 0x65]),
    ensures
        document(text, false) == Ok::<_, Refusal>(JsonValue::Bool(true)),
{
    let word = seq![0x74u8, 0x72, 0x75, 0x65];
    assert(word =~= word_true());
    lemma_any_case(text, word);
    lemma_scalar_document(text, false, JsonValue::Bool(true));
}

/// In the extended dialect the word false stands for false, in any case of its letters.
pub proof fn law_false_in_any_case(text: Seq<u8>)
    requires
        any_case(text, seq![0x66u8, 0x61, 0x6c, 0x73, 0x65]),
    ensures
        document(text, false) == Ok::<_, Refusal>(JsonValue::Bool(false)),
{
    let word = seq![0x66u8, 0x61, 0x6c, 0x73, 0x65];
    assert(word =~= word_false());
    lemma_any_case(text, word);
    lemma_scalar_document(text, false, JsonValue::Bool(false));
}

/// In the extended dialect the word nan stands for the quiet not-a-number, in any case of its letters.
pub proof fn law_nan_in_any_case(text: Seq<u8>)
    requires
        any_case(text, seq![0x6eu8, 0x61, 0x6e]),
    ensures
        document(text, false) == Ok::<_, Refusal>(
            JsonValue::Number(NumberToken::Number(Number::Float64(0x7ff8_0000_0000_0000))),
        ),
{
    let word = seq![0x6eu8, 0x61, 0x6e];
    assert(word =~= word_nan());
    lemma_any_case(text, word);
    if word_end(text, 0, word_null(), true) is Ok {
        lemma_word_stands(text, 0, word_null(), true);
    }
    lemma_scalar_document(
        text,
        false,
        JsonValue::Number(NumberToken::Number(Number::Float64(0x7ff8_0000_0000_0000))),
    );
}

/// In the extended dialect the word infinity stands for infinity, in any case of its letters.
pub proof fn law_infinity_in_any_case(text: Seq<u8>)
    requires
        any_case(text, seq![0x69u8, 0x6e, 0x66, 0x69, 0x6e, 0x69, 0x74, 0x79]),
    ensures
        document(text, false) == Ok::<_, Refusal>(
            JsonValue::Number(NumberToken::Number(Number::Float64(0x7ff0_0000_0000_0000))),
        ),
{
    let word = seq![0x69u8, 0x6e, 0x66, 0x69, 0x6e, 0x69, 0x74, 0x79];
    assert(word =~= word_infinity());
    lemma_any_case(text, word);
    lemma_scalar_document(
        text,
        false,
        JsonValue::Number(NumberToken::Number(Number::Float64(0x7ff0_0000_0000_0000))),
    );
}

/// A sign before infinity or nan, in the extended dialect: minus makes infinity negative, and is
/// refused before nan; plus changes nothing.
pub proof fn law_signed_words(sign: u8, text: Seq<u8>)
    requires
        sign == 0x2b || sign == 0x2d,
    ensures
        any_case(text, seq![0x69u8, 0x6e, 0x66, 0x69, 0x6e, 0x69, 0x74, 0x79]) ==> document(
            seq![sign] + text,
            false,
        ) == Ok::<_, Refusal>(
            JsonValue::Number(
                NumberToken::Number(
                    Number::Float64(
                        if sign == 0x2d {
                            0xfff0_0000_0000_0000
                        } else {
                            0x7ff0_0000_0000_0000
                        },
                    ),
                ),
            ),
        ),
        any_case(text, seq![0x6eu8, 0x61, 0x6e]) && sign == 0x2b ==> document(
            seq![sign] + text,
            false,
        ) == Ok::<_, Refusal>(
            JsonValue::Number(NumberToken::Number(Number::Float64(0x7ff8_0000_0000_0000))),
        ),
        any_case(text, seq![0x6eu8, 0x61, 0x6e]) && sign == 0x2d ==> (document(
            seq![sign] + text,
            false,
        ) matches Err(e) && e.error == ErrorModel::Syntax(
            ParseErrorCode::InvalidNumberValue,
            text.len() as int + 1,
        )),
{
    let infinity = seq![0x69u8, 0x6e, 0x66, 0x69, 0x6e, 0x69, 0x74, 0x79];
    let nan = seq![0x6eu8, 0x61, 0x6e];
    if any_case(text, infinity) {
        assert(infinity =~= word_infinity());
        lemma_signed_word(sign, text, infinity);
    }
    if any_case(text, nan) {
        assert(nan =~= word_nan());
        lemma_signed_word(sign, text, nan);
    }
}

proof fn lemma_signed_word(sign: u8, text: Seq<u8>, word: Seq<u8>)
    requires
        sign == 0x2b || sign == 0x2d,
        any_case(text, word),
        word == word_infinity() || word == word_nan(),
    ensures
        ({
            let whole = seq![sign] + text;
            let found = special_number(whole, 1, sign == 0x2d);
            &&& found matches Ok((token, end)) ==> end == whole.len() && document(whole, false)
                == Ok::<_, Refusal>(JsonValue::Number(token))
            &&& found matches Err(e) ==> document(whole, false) == Err::<JsonValue, _>(e)
            &&& word_end(whole, 1, word, true) == Ok::<int, Refusal>(whole.len() as int)
            &&& whole[1] == word[0] || whole[1] == word[0] - 0x20
        }),
{
    let whole = seq![sign] + text;
    assert(word.len() > 0);
    assert forall|i: int| 0 <= i < word.len() implies whole[1 + i] == #[trigger] word[i] || true
        && whole[1 + i] == word[i] - 0x20 by {
        assert(whole[1 + i] == text[i]);
        assert(text[i] == word[i] || text[i] == word[i] - 0x20);
    }
    assert forall|i: int| 0 <= i < word.len() implies 0x61 <= #[trigger] word[i] <= 0x7a by {
        if word == word_infinity() {
            assert(word_infinity()[i] >= 0x61);
        } else {
            assert(word_nan()[i] >= 0x61);
        }
    }
    lemma_word_found(whole, 1, word, true);
    assert(whole[1 + 0int] == word[0] || whole[1 + 0int] == word[0] - 0x20);
    assert(word[0] == 0x69 || word[0] == 0x6e);
    assert(whole[0] == sign);
    assert(digits_end(whole, 1) == 1);
    assert(zeros_end(whole, 1) == 1);
    assert(whole.subrange(1, 1) =~= Seq::<u8>::empty());
    assert(significant_digits(whole, 1) =~= Seq::<u8>::empty());
    assert(extended_number(whole, 0) == special_number(whole, 1, sign == 0x2d));
    assert(unused_end(whole, 0) == 0);
    if let Ok((token, end)) = special_number(whole, 1, sign == 0x2d) {
        lemma_word_stands_for_special(whole, word);
        lemma_scalar_document(whole, false, JsonValue::Number(token));
    }
}

proof fn lemma_word_stands_for_special(whole: Seq<u8>, word: Seq<u8>)
    requires
        word == word_infinity() || word == word_nan(),
        whole.len() > 1,
        whole[1] == word[0] || whole[1] == word[0] - 0x20,
        word_end(whole, 1, word, true) == Ok::<int, Refusal>(whole.len() as int),
    ensures
        forall|negative: bool|
            #[trigger] special_number(whole, 1, negative) matches Ok((_, end)) ==> end
                == whole.len(),
{
    assert(word[0] == if word == word_infinity() {
        0x69u8
    } else {
        0x6e
    });
}

/// The standard dialect has the words null, true and false in small letters, and no others: where
/// a text that starts with a letter is accepted, it starts with one of them and denotes what that
/// one stands for.
pub proof fn law_standard_words(text: Seq<u8>)
    requires
        text.len() > 0,
        0x41 <= text[0] <= 0x5a || 0x61 <= text[0] <= 0x7a,
        document(text, true) is Ok,
    ensures
        ({
            let root = document(text, true)->Ok_0;
            ||| text.len() >= 4 && text.take(4) == seq![0x6eu8, 0x75, 0x6c, 0x6c] && root
                == JsonValue::Null
            ||| text.len() >= 4 && text.take(4) == seq![0x74u8, 0x72, 0x75, 0x65] && root
                == JsonValue::Bool(true)
            ||| text.len() >= 5 && text.take(5) == seq![0x66u8, 0x61, 0x6c, 0x73, 0x65] && root
                == JsonValue::Bool(false)
        }),
{
    assert(unused_end(text, 0) == 0);
    if text[0] == 0x6e {
        lemma_word_stands(text, 0, word_null(), false);
        lemma_taken(text, word_null());
    } else if text[0] == 0x74 {
        lemma_word_stands(text, 0, word_true(), false);
        lemma_taken(text, word_true());
    } else if text[0] == 0x66 {
        lemma_word_stands(text, 0, word_false(), false);
        lemma_taken(text, word_false());
    }
}

proof fn lemma_taken(text: Seq<u8>, word: Seq<u8>)
    requires
        word.len() <= text.len(),
        forall|i: int| 0 <= i < word.len() ==> text[0 + i] == #[trigger] word[i],
    ensures
        text.take(word.len() as int) == word,
{
    assert forall|i: int| 0 <= i < word.len() implies text.take(word.len() as int)[i] == word[i] by {
        assert(text[0 + i] == word[i]);
    }
    assert(text.take(word.len() as int) =~= word);
}

} // verus!
