//! What a JSON text denotes, and the encoding of it.

use vstd::prelude::*;

use crate::bytes::be_bytes;
use crate::number::{compact, Number};
use crate::order::{key_order, reordered};

verus! {

pub const ARRAY_CONTAINER_TAG: u32 = 0x8000_0000;

pub const OBJECT_CONTAINER_TAG: u32 = 0x4000_0000;

pub const SCALAR_CONTAINER_TAG: u32 = 0x2000_0000;

pub const NULL_TAG: u32 = 0x0000_0000;

pub const STRING_TAG: u32 = 0x1000_0000;

pub const NUMBER_TAG: u32 = 0x2000_0000;

pub const FALSE_TAG: u32 = 0x3000_0000;

pub const TRUE_TAG: u32 = 0x4000_0000;

pub const CONTAINER_TAG: u32 = 0x5000_0000;

/// A number literal whose value is a floating-point number: what there is to convert.
#[derive(Debug, Clone, Copy, PartialEq, Eq)]
pub enum FloatSource {
    /// The bytes of the text from `start` up to `end`, a decimal literal.
    Decimal { start: usize, end: usize },
    /// A hexadecimal literal that starts at `start`: `integer` plus `fraction` divided by sixteen
    /// to the power `fraction_digits`, negated where `negative` is set.
    Hexadecimal {
        start: usize,
        negative: bool,
        integer: u128,
        fraction: u128,
        fraction_digits: usize,
    },
}

impl FloatSource {
    /// Where the literal starts.
    pub open spec fn spec_start(self) -> usize {
        match self {
            FloatSource::Decimal { start, .. } => start,
            FloatSource::Hexadecimal { start, .. } => start,
        }
    }

    /// Where the literal starts.
    pub fn start(&self) -> (r: usize)
        ensures
            r == self.spec_start(),
    {
        match *self {
            FloatSource::Decimal { start, .. } => start,
            FloatSource::Hexadecimal { start, .. } => start,
        }
    }
}

/// What a number literal denotes: a number, or a floating-point number still to be converted.
#[derive(Debug, Clone, Copy, PartialEq, Eq)]
pub enum NumberToken {
    Number(Number),
    Float(FloatSource),
}

/// A JSON value. Strings are in UTF-8; the members of an object are in the order of the text.
pub enum JsonValue {
    Null,
    Bool(bool),
    Number(NumberToken),
    Text(Seq<u8>),
    Array(Seq<JsonValue>),
    Object(Seq<Member>),
}

/// A member of an object.
pub struct Member {
    pub key: Seq<u8>,
    pub value: JsonValue,
}

/// The encoding of a value inside a container: the entry that tells its kind and length, and its
/// bytes.
pub struct Encoded {
    pub jentry: u32,
    pub bytes: Seq<u8>,
}

/// The number that a literal denotes, with the bits of converted floating-point numbers by the
/// offsets at which their literals start; zero where there are none.
pub open spec fn resolved(token: NumberToken, floats: Map<usize, u64>) -> Number {
    match token {
        NumberToken::Number(number) => number,
        NumberToken::Float(source) => Number::Float64(
            if floats.dom().contains(source.spec_start()) {
                floats[source.spec_start()]
            } else {
                0
            },
        ),
    }
}

/// The encoding of a value that has no bytes.
pub open spec fn encoded_empty(tag: u32) -> Encoded {
    Encoded { jentry: tag, bytes: seq![] }
}

/// The encoding of a string.
pub open spec fn encoded_text(text: Seq<u8>) -> Encoded {
    Encoded { jentry: STRING_TAG | (text.len() as u32), bytes: text }
}

/// The encoding of a number.
pub open spec fn encoded_number(number: Number) -> Encoded {
    Encoded { jentry: NUMBER_TAG | (compact(number).len() as u32), bytes: compact(number) }
}

/// A list of entries, one after the other.
pub open spec fn entry_bytes(entries: Seq<u32>) -> Seq<u8>
    decreases entries.len(),
{
    if entries.len() == 0 {
        seq![]
    } else {
        entry_bytes(entries.drop_last()) + be_bytes(entries.last() as nat, 4)
    }
}

/// The entries of a list of values, one after the other.
pub open spec fn jentries(items: Seq<Encoded>) -> Seq<u8> {
    entry_bytes(items.map_values(|e: Encoded| e.jentry))
}

/// The bytes of a list of values, one after the other.
pub open spec fn payload(items: Seq<Encoded>) -> Seq<u8>
    decreases items.len(),
{
    if items.len() == 0 {
        seq![]
    } else {
        payload(items.drop_last()) + items.last().bytes
    }
}

/// The encoding of a container with the given bytes.
pub open spec fn encoded_container(bytes: Seq<u8>) -> Encoded {
    Encoded { jentry: CONTAINER_TAG | (bytes.len() as u32), bytes }
}

/// The bytes of an array: its length, the entries of its items and their bytes.
pub open spec fn array_bytes(items: Seq<Encoded>) -> Seq<u8> {
    be_bytes((ARRAY_CONTAINER_TAG | (items.len() as u32)) as nat, 4) + jentries(items) + payload(
        items,
    )
}

/// The bytes of an object: its length, the entries of its keys and of its values, then the bytes
/// of its keys and of its values.
pub open spec fn object_bytes(keys: Seq<Encoded>, values: Seq<Encoded>) -> Seq<u8> {
    be_bytes((OBJECT_CONTAINER_TAG | (keys.len() as u32)) as nat, 4) + jentries(keys) + jentries(
        values,
    ) + payload(keys) + payload(values)
}

/// The keys of the members of an object.
pub open spec fn member_keys(members: Seq<Member>) -> Seq<Seq<u8>> {
    members.map_values(|m: Member| m.key)
}

/// The encodings of a list of strings.
pub open spec fn encoded_texts(texts: Seq<Seq<u8>>) -> Seq<Encoded> {
    texts.map_values(|t: Seq<u8>| encoded_text(t))
}

/// The encoding of an object whose members have the given keys and encoded values: the members
/// are stored in the order of their keys.
pub open spec fn encoded_object(keys: Seq<Seq<u8>>, values: Seq<Encoded>) -> Encoded {
    encoded_container(
        object_bytes(
            reordered(encoded_texts(keys), key_order(keys)),
            reordered(values, key_order(keys)),
        ),
    )
}

/// The encoding of a value.
pub open spec fn encoded(value: JsonValue, floats: Map<usize, u64>) -> Encoded
    decreases value,
{
    match value {
        JsonValue::Null => encoded_empty(NULL_TAG),
        JsonValue::Bool(b) => encoded_empty(
            if b {
                TRUE_TAG
            } else {
                FALSE_TAG
            },
        ),
        JsonValue::Number(token) => encoded_number(resolved(token, floats)),
        JsonValue::Text(text) => encoded_text(text),
        JsonValue::Array(items) => encoded_container(array_bytes(encoded_items(items, floats))),
        JsonValue::Object(members) => encoded_object(
            member_keys(members),
            encoded_members(members, floats),
        ),
    }
}

/// The encodings of a list of values.
pub open spec fn encoded_items(items: Seq<JsonValue>, floats: Map<usize, u64>) -> Seq<Encoded>
    decreases items,
{
    if items.len() == 0 {
        seq![]
    } else {
        encoded_items(items.drop_last(), floats).push(encoded(items.last(), floats))
    }
}

/// The encodings of the values of a list of members.
pub open spec fn encoded_members(members: Seq<Member>, floats: Map<usize, u64>) -> Seq<Encoded>
    decreases members,
{
    if members.len() == 0 {
        seq![]
    } else {
        encoded_members(members.drop_last(), floats).push(encoded(members.last().value, floats))
    }
}

/// The encoding of a whole document: a container stands by itself, any other value behind a
/// header that says so, with its entry.
pub open spec fn document_bytes(root: Encoded) -> Seq<u8> {
    if root.jentry & CONTAINER_TAG == CONTAINER_TAG {
        root.bytes
    } else {
        be_bytes(SCALAR_CONTAINER_TAG as nat, 4) + be_bytes(root.jentry as nat, 4) + root.bytes
    }
}

/// The floating-point literals of a value, in the order of the text.
pub open spec fn float_sources(value: JsonValue) -> Seq<FloatSource>
    decreases value,
{
    match value {
        JsonValue::Number(NumberToken::Float(source)) => seq![source],
        JsonValue::Array(items) => item_sources(items),
        JsonValue::Object(members) => member_sources(members),
        _ => seq![],
    }
}

/// The floating-point literals of a list of values.
pub open spec fn item_sources(items: Seq<JsonValue>) -> Seq<FloatSource>
    decreases items,
{
    if items.len() == 0 {
        seq![]
    } else {
        item_sources(items.drop_last()) + float_sources(items.last())
    }
}

/// The floating-point literals of the values of a list of members.
pub open spec fn member_sources(members: Seq<Member>) -> Seq<FloatSource>
    decreases members,
{
    if members.len() == 0 {
        seq![]
    } else {
        member_sources(members.drop_last()) + float_sources(members.last().value)
    }
}

/// Those literals that are still to be converted.
pub open spec fn missing(sources: Seq<FloatSource>, floats: Map<usize, u64>) -> Seq<FloatSource>
    decreases sources.len(),
{
    if sources.len() == 0 {
        seq![]
    } else if floats.dom().contains(sources.last().spec_start()) {
        missing(sources.drop_last(), floats)
    } else {
        missing(sources.drop_last(), floats).push(sources.last())
    }
}

pub proof fn lemma_missing_concat(
    a: Seq<FloatSource>,
    b: Seq<FloatSource>,
    floats: Map<usize, u64>,
)
    ensures
        missing(a + b, floats) == missing(a, floats) + missing(b, floats),
    decreases b.len(),
{
    if b.len() == 0 {
        assert(a + b =~= a);
        assert(missing(a, floats) + missing(b, floats) =~= missing(a, floats));
    } else {
        lemma_missing_concat(a, b.drop_last(), floats);
        assert((a + b).drop_last() =~= a + b.drop_last());
        assert((a + b).last() == b.last());
        assert(missing(a + b, floats) =~= missing(a, floats) + missing(b, floats));
    }
}

pub proof fn lemma_payload_push(items: Seq<Encoded>, item: Encoded)
    ensures
        payload(items.push(item)) == payload(items) + item.bytes,
{
    assert(items.push(item).drop_last() =~= items);
}

pub proof fn lemma_encoded_items_push(
    items: Seq<JsonValue>,
    item: JsonValue,
    floats: Map<usize, u64>,
)
    ensures
        encoded_items(items.push(item), floats) == encoded_items(items, floats).push(
            encoded(item, floats),
        ),
        item_sources(items.push(item)) == item_sources(items) + float_sources(item),
{
    assert(items.push(item).drop_last() =~= items);
}

pub proof fn lemma_encoded_members_push(
    members: Seq<Member>,
    member: Member,
    floats: Map<usize, u64>,
)
    ensures
        encoded_members(members.push(member), floats) == encoded_members(members, floats).push(
            encoded(member.value, floats),
        ),
        member_sources(members.push(member)) == member_sources(members) + float_sources(
            member.value,
        ),
{
    assert(members.push(member).drop_last() =~= members);
}

} // verus!
