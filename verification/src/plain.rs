//! Values without their place in a text: a floating-point literal is held by what it spells
//! instead of by its offsets, so that values of different texts can be compared.

use vstd::prelude::*;

use crate::error::Error;
use crate::grammar::document;
use crate::laws::law_nothing_missing_iff_all_known;
use crate::number::Number;
use crate::parser_direct::{parses, Parsed};
use crate::value::{
    array_bytes, document_bytes, encoded, encoded_container, encoded_empty, encoded_items,
    encoded_members, encoded_number, encoded_object, encoded_text, float_sources, item_sources,
    member_keys, member_sources, Encoded, FloatSource, JsonValue, Member, NumberToken, FALSE_TAG,
    NULL_TAG, TRUE_TAG,
};

verus! {

/// What a number literal spells.
pub enum Literal {
    Number(Number),
    Decimal(Seq<u8>),
    Hexadecimal { negative: bool, integer: u128, fraction: u128, fraction_digits: usize },
}

/// A value without its place in a text.
pub enum PlainValue {
    Null,
    Bool(bool),
    Number(Literal),
    Text(Seq<u8>),
    Array(Seq<PlainValue>),
    Object(Seq<PlainMember>),
}

/// A member of such an object.
pub struct PlainMember {
    pub key: Seq<u8>,
    pub value: PlainValue,
}

/// What a number literal of a text spells.
pub open spec fn literal(text: Seq<u8>, token: NumberToken) -> Literal {
    match token {
        NumberToken::Number(number) => Literal::Number(number),
        NumberToken::Float(FloatSource::Decimal { start, end }) => Literal::Decimal(
            text.subrange(start as int, end as int),
        ),
        NumberToken::Float(
            FloatSource::Hexadecimal { start, negative, integer, fraction, fraction_digits },
        ) => Literal::Hexadecimal { negative, integer, fraction, fraction_digits },
    }
}

/// A value of a text without its place in the text.
pub open spec fn plain(text: Seq<u8>, value: JsonValue) -> PlainValue
    decreases value,
{
    match value {
        JsonValue::Null => PlainValue::Null,
        JsonValue::Bool(b) => PlainValue::Bool(b),
        JsonValue::Number(token) => PlainValue::Number(literal(text, token)),
        JsonValue::Text(string) => PlainValue::Text(string),
        JsonValue::Array(items) => PlainValue::Array(plain_items(text, items)),
        JsonValue::Object(members) => PlainValue::Object(plain_members(text, members)),
    }
}

/// The items of an array without their place in the text.
pub open spec fn plain_items(text: Seq<u8>, items: Seq<JsonValue>) -> Seq<PlainValue>
    decreases items,
{
    if items.len() == 0 {
        seq![]
    } else {
        plain_items(text, items.drop_last()).push(plain(text, items.last()))
    }
}

/// The members of an object without their place in the text.
pub open spec fn plain_members(text: Seq<u8>, members: Seq<Member>) -> Seq<PlainMember>
    decreases members,
{
    if members.len() == 0 {
        seq![]
    } else {
        plain_members(text, members.drop_last()).push(
            PlainMember { key: members.last().key, value: plain(text, members.last().value) },
        )
    }
}

/// What a whole text denotes, without places.
pub open spec fn meaning(text: Seq<u8>, standard: bool) -> Option<PlainValue> {
    match document(text, standard) {
        Ok(root) => Some(plain(text, root)),
        Err(_) => None,
    }
}

pub proof fn lemma_plain_items_push(text: Seq<u8>, items: Seq<JsonValue>, item: JsonValue)
    ensures
        plain_items(text, items.push(item)) == plain_items(text, items).push(plain(text, item)),
{
    assert(items.push(item).drop_last() =~= items);
}

pub proof fn lemma_plain_members_push(text: Seq<u8>, members: Seq<Member>, member: Member)
    ensures
        plain_members(text, members.push(member)) == plain_members(text, members).push(
            PlainMember { key: member.key, value: plain(text, member.value) },
        ),
{
    assert(members.push(member).drop_last() =~= members);
}

/// The keys of members without places.
pub open spec fn plain_keys(members: Seq<PlainMember>) -> Seq<Seq<u8>> {
    members.map_values(|m: PlainMember| m.key)
}

pub proof fn lemma_plain_keys(text: Seq<u8>, members: Seq<Member>)
    ensures
        plain_keys(plain_members(text, members)) == member_keys(members),
        plain_members(text, members).len() == members.len(),
    decreases members.len(),
{
    if members.len() > 0 {
        let front = members.drop_last();
        lemma_plain_keys(text, front);
        assert(member_keys(members) =~= member_keys(front).push(members.last().key));
        assert(plain_keys(plain_members(text, members)) =~= plain_keys(
            plain_members(text, front),
        ).push(members.last().key));
    } else {
        assert(plain_keys(plain_members(text, members)) =~= member_keys(members));
    }
}

/// The number of a literal, with a conversion to the bits of floating-point numbers.
pub open spec fn plain_number(literal: Literal, bits: spec_fn(Literal) -> u64) -> Number {
    match literal {
        Literal::Number(number) => number,
        _ => Number::Float64(bits(literal)),
    }
}

/// The encoding of a value without places.
pub open spec fn plain_encoded(value: PlainValue, bits: spec_fn(Literal) -> u64) -> Encoded
    decreases value,
{
    match value {
        PlainValue::Null => encoded_empty(NULL_TAG),
        PlainValue::Bool(b) => encoded_empty(
            if b {
                TRUE_TAG
            } else {
                FALSE_TAG
            },
        ),
        PlainValue::Number(literal) => encoded_number(plain_number(literal, bits)),
        PlainValue::Text(text) => encoded_text(text),
        PlainValue::Array(items) => encoded_container(
            array_bytes(plain_encoded_items(items, bits)),
        ),
        PlainValue::Object(members) => encoded_object(
            plain_keys(members),
            plain_encoded_members(members, bits),
        ),
    }
}

/// The encodings of the items of an array.
pub open spec fn plain_encoded_items(
    items: Seq<PlainValue>,
    bits: spec_fn(Literal) -> u64,
) -> Seq<Encoded>
    decreases items,
{
    if items.len() == 0 {
        seq![]
    } else {
        plain_encoded_items(items.drop_last(), bits).push(plain_encoded(items.last(), bits))
    }
}

/// The encodings of the values of the members of an object.
pub open spec fn plain_encoded_members(
    members: Seq<PlainMember>,
    bits: spec_fn(Literal) -> u64,
) -> Seq<Encoded>
    decreases members,
{
    if members.len() == 0 {
        seq![]
    } else {
        plain_encoded_members(members.drop_last(), bits).push(
            plain_encoded(members.last().value, bits),
        )
    }
}

/// The bits of all the given literals are known, and are those of the conversion.
pub open spec fn converted(
    text: Seq<u8>,
    sources: Seq<FloatSource>,
    floats: Map<usize, u64>,
    bits: spec_fn(Literal) -> u64,
) -> bool {
    forall|i: int|
        0 <= i < sources.len() ==> floats.dom().contains((#[trigger] sources[i]).spec_start())
            && floats[sources[i].spec_start()] == bits(
            literal(text, NumberToken::Float(sources[i])),
        )
}

/// The bits of all floating-point literals of a text are known, and are those of the conversion.
pub open spec fn answers(
    text: Seq<u8>,
    standard: bool,
    floats: Map<usize, u64>,
    bits: spec_fn(Literal) -> u64,
) -> bool {
    document(text, standard) matches Ok(root) ==> converted(
        text,
        float_sources(root),
        floats,
        bits,
    )
}

proof fn lemma_converted_parts(
    text: Seq<u8>,
    a: Seq<FloatSource>,
    b: Seq<FloatSource>,
    floats: Map<usize, u64>,
    bits: spec_fn(Literal) -> u64,
)
    requires
        converted(text, a + b, floats, bits),
    ensures
        converted(text, a, floats, bits),
        converted(text, b, floats, bits),
{
    assert forall|i: int| 0 <= i < a.len() implies floats.dom().contains(
        (#[trigger] a[i]).spec_start(),
    ) && floats[a[i].spec_start()] == bits(literal(text, NumberToken::Float(a[i]))) by {
        assert((a + b)[i] == a[i]);
    }
    assert forall|i: int| 0 <= i < b.len() implies floats.dom().contains(
        (#[trigger] b[i]).spec_start(),
    ) && floats[b[i].spec_start()] == bits(literal(text, NumberToken::Float(b[i]))) by {
        assert((a + b)[i + a.len()] == b[i]);
    }
}

/// The encoding of a value does not depend on its place in the text.
pub proof fn lemma_plain_encoded(
    text: Seq<u8>,
    value: JsonValue,
    floats: Map<usize, u64>,
    bits: spec_fn(Literal) -> u64,
)
    requires
        converted(text, float_sources(value), floats, bits),
    ensures
        encoded(value, floats) == plain_encoded(plain(text, value), bits),
    decreases value,
{
    match value {
        JsonValue::Number(NumberToken::Float(source)) => {
            assert(float_sources(value)[0] == source);
        },
        JsonValue::Array(items) => {
            lemma_plain_encoded_items(text, items, floats, bits);
        },
        JsonValue::Object(members) => {
            lemma_plain_encoded_members(text, members, floats, bits);
            lemma_plain_keys(text, members);
        },
        _ => {},
    }
}

proof fn lemma_plain_encoded_items(
    text: Seq<u8>,
    items: Seq<JsonValue>,
    floats: Map<usize, u64>,
    bits: spec_fn(Literal) -> u64,
)
    requires
        converted(text, item_sources(items), floats, bits),
    ensures
        encoded_items(items, floats) == plain_encoded_items(plain_items(text, items), bits),
    decreases items,
{
    if items.len() > 0 {
        let front = items.drop_last();
        lemma_converted_parts(text, item_sources(front), float_sources(items.last()), floats, bits);
        lemma_plain_encoded_items(text, front, floats, bits);
        lemma_plain_encoded(text, items.last(), floats, bits);
        assert(plain_items(text, items).drop_last() =~= plain_items(text, front));
    }
}

proof fn lemma_plain_encoded_members(
    text: Seq<u8>,
    members: Seq<Member>,
    floats: Map<usize, u64>,
    bits: spec_fn(Literal) -> u64,
)
    requires
        converted(text, member_sources(members), floats, bits),
    ensures
        encoded_members(members, floats) == plain_encoded_members(
            plain_members(text, members),
            bits,
        ),
    decreases members,
{
    if members.len() > 0 {
        let front = members.drop_last();
        lemma_converted_parts(
            text,
            member_sources(front),
            float_sources(members.last().value),
            floats,
            bits,
        );
        lemma_plain_encoded_members(text, front, floats, bits);
        lemma_plain_encoded(text, members.last().value, floats, bits);
        assert(plain_members(text, members).drop_last() =~= plain_members(text, front));
    }
}

/// The encoding of what a whole text denotes, with a conversion to the bits of floating-point
/// numbers.
pub open spec fn denoted(
    text: Seq<u8>,
    standard: bool,
    bits: spec_fn(Literal) -> u64,
) -> Option<Encoded> {
    match meaning(text, standard) {
        Some(value) => Some(plain_encoded(value, bits)),
        None => None,
    }
}

/// What a parse gives depends only on what the text denotes, and not on where it stands in the
/// text.
pub proof fn law_parse_gives_what_is_denoted(
    text: Seq<u8>,
    standard: bool,
    floats: Map<usize, u64>,
    bits: spec_fn(Literal) -> u64,
    r: Result<Parsed, Error>,
)
    requires
        answers(text, standard, floats, bits),
        parses(text, standard, floats, r),
    ensures
        denoted(text, standard, bits) matches Some(root) ==> (r matches Ok(Parsed::Jsonb(doc))
            && doc@ == document_bytes(root)),
        denoted(text, standard, bits) is None ==> r is Err,
{
    if let Ok(root) = document(text, standard) {
        law_nothing_missing_iff_all_known(float_sources(root), floats);
        lemma_plain_encoded(text, root, floats, bits);
    }
}

} // verus!
