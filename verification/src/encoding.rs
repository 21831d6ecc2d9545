//! The encoding as a reader sees it: which byte stands where, and what it says.

use vstd::arithmetic::power::pow;
use vstd::prelude::*;

use crate::bytes::{
    be_bytes, be_bytes_signed, byte_range, law_first_difference_decides, lemma_be_bytes_len,
    lemma_first_difference, twos_complement,
};
use crate::laws::{law_repeated_key_iff_two_equal, law_stored_keys_ascend, lemma_encoded_members_at};
use crate::number::{compact, signed_width, unsigned_width, Number};
use crate::order::{key_order, lemma_key_order, reordered, repeated_key};
use crate::value::{
    array_bytes, document_bytes, encoded, encoded_container, encoded_items, encoded_object,
    encoded_text, encoded_texts, entry_bytes, jentries, object_bytes, payload, Encoded, JsonValue,
    Member, NumberToken,
};

verus! {

/// The number that bytes spell, most significant first.
pub open spec fn big_endian(bytes: Seq<u8>) -> int {
    bytes.fold_left(0int, |n: int, b: u8| 256 * n + b)
}

/// The number that bytes spell in two's complement, most significant first.
pub open spec fn big_endian_signed(bytes: Seq<u8>) -> int {
    if bytes.len() > 0 && bytes[0] >= 0x80 {
        big_endian(bytes) - pow(256, bytes.len())
    } else {
        big_endian(bytes)
    }
}

proof fn lemma_byte_range(len: nat)
    ensures
        byte_range(len) == pow(256, len),
        byte_range(len) > 0,
    decreases len,
{
    reveal(pow);
    if len > 0 {
        lemma_byte_range((len - 1) as nat);
    }
}

/// A number is read back from its bytes, where these are enough for it.
pub proof fn law_number_from_bytes(n: nat, len: nat)
    requires
        n < pow(256, len),
    ensures
        be_bytes(n, len).len() == len,
        big_endian(be_bytes(n, len)) == n,
    decreases len,
{
    lemma_byte_range(len);
    lemma_be_bytes_len(n, len);
    if len > 0 {
        let less = (len - 1) as nat;
        lemma_byte_range(less);
        assert(n / 256 < byte_range(less));
        law_number_from_bytes(n / 256, less);
        assert(be_bytes(n, len).drop_last() =~= be_bytes(n / 256, less));
    }
}

/// The first byte tells whether the number is in the upper half.
proof fn lemma_first_byte(n: nat, len: nat)
    requires
        len > 0,
        n < byte_range(len),
    ensures
        be_bytes(n, len).len() == len,
        be_bytes(n, len)[0] >= 0x80 <==> 2 * n >= byte_range(len),
    decreases len,
{
    lemma_be_bytes_len(n, len);
    if len == 1 {
        assert(be_bytes(n / 256, 0) =~= Seq::<u8>::empty());
        assert(byte_range(1) == 256 * byte_range(0));
        assert(be_bytes(n, 1)[0] == n);
    } else {
        let less = (len - 1) as nat;
        lemma_be_bytes_len(n / 256, less);
        lemma_byte_range(less);
        lemma_first_byte(n / 256, less);
        assert(be_bytes(n, len)[0] == be_bytes(n / 256, less)[0]);
        assert(byte_range(less) % 2 == 0) by {
            assert(byte_range(less) == 256 * byte_range((less - 1) as nat));
        }
    }
}

/// A signed number is read back from its bytes in two's complement, where these are enough for it.
pub proof fn law_signed_number_from_bytes(v: int, len: nat)
    requires
        len > 0,
        -pow(256, len) <= 2 * v < pow(256, len),
    ensures
        be_bytes_signed(v, len).len() == len,
        big_endian_signed(be_bytes_signed(v, len)) == v,
{
    lemma_byte_range(len);
    let n = twos_complement(v, len);
    law_number_from_bytes(n, len);
    lemma_first_byte(n, len);
}

/// A number fits the width it is stored on, and no smaller one of one, two, four and eight bytes.
pub open spec fn fits_best(n: int, len: int) -> bool {
    ||| len == 1 && 0 <= n < 0x100
    ||| len == 2 && 0x100 <= n < 0x1_0000
    ||| len == 4 && 0x1_0000 <= n < 0x1_0000_0000
    ||| len == 8 && 0x1_0000_0000 <= n < 0x1_0000_0000_0000_0000
}

/// A signed number fits the width it is stored on, and no smaller one.
pub open spec fn fits_best_signed(v: int, len: int) -> bool {
    ||| len == 1 && -0x80 <= v < 0x80
    ||| len == 2 && -0x8000 <= v < 0x8000 && !(-0x80 <= v < 0x80)
    ||| len == 4 && -0x8000_0000 <= v < 0x8000_0000 && !(-0x8000 <= v < 0x8000)
    ||| len == 8 && !(-0x8000_0000 <= v < 0x8000_0000)
}

/// A number is read back from its bytes: the first tells its kind, those behind it its value, on as
/// few bytes as will do for an integer; the last byte of a decimal is its scale.
pub proof fn law_number_read_back(number: Number)
    ensures
        ({
            let bytes = compact(number);
            let rest = bytes.skip(1);
            match number {
                Number::UInt64(v) => if v == 0 {
                    bytes == seq![0x00u8]
                } else {
                    bytes[0] == 0x50 && big_endian(rest) == v && fits_best(
                        v as int,
                        rest.len() as int,
                    )
                },
                Number::Int64(v) => if v == 0 {
                    bytes == seq![0x00u8]
                } else {
                    bytes[0] == 0x40 && big_endian_signed(rest) == v && fits_best_signed(
                        v as int,
                        rest.len() as int,
                    )
                },
                Number::Float64(bits) => if bits / 0x10_0000_0000_0000 % 0x800 != 0x7ff {
                    bytes[0] == 0x60 && rest.len() == 8 && big_endian(rest) == bits
                } else if bits == 0x7ff0_0000_0000_0000 {
                    bytes == seq![0x20u8]
                } else if bits == 0xfff0_0000_0000_0000 {
                    bytes == seq![0x30u8]
                } else {
                    bytes == seq![0x10u8]
                },
                Number::Decimal64(d) => bytes[0] == 0x70 && bytes.len() == 10 && big_endian_signed(
                    bytes.subrange(1, 9),
                ) == d.value && bytes[9] == d.scale,
                Number::Decimal128(d) => bytes[0] == 0x70 && bytes.len() == 18 && big_endian_signed(
                    bytes.subrange(1, 17),
                ) == d.value && bytes[17] == d.scale,
                Number::Decimal256(d) => bytes[0] == 0x70 && bytes.len() == 34 && big_endian_signed(
                    bytes.subrange(1, 33),
                ) == d.value@ && bytes[33] == d.scale,
            }
        }),
{
    reveal_with_fuel(byte_range, 33);
    lemma_byte_range(1);
    lemma_byte_range(2);
    lemma_byte_range(4);
    lemma_byte_range(8);
    lemma_byte_range(16);
    lemma_byte_range(32);
    let bytes = compact(number);
    match number {
        Number::UInt64(v) => {
            if v != 0 {
                let len = unsigned_width(v);
                law_number_from_bytes(v as nat, len);
                assert(bytes.skip(1) =~= be_bytes(v as nat, len));
            }
        },
        Number::Int64(v) => {
            if v != 0 {
                let len = signed_width(v);
                law_signed_number_from_bytes(v as int, len);
                assert(bytes.skip(1) =~= be_bytes_signed(v as int, len));
            }
        },
        Number::Float64(bits) => {
            law_number_from_bytes(bits as nat, 8);
            if bits / 0x10_0000_0000_0000 % 0x800 != 0x7ff {
                assert(bytes.skip(1) =~= be_bytes(bits as nat, 8));
            }
        },
        Number::Decimal64(d) => {
            law_signed_number_from_bytes(d.value as int, 8);
            assert(bytes.subrange(1, 9) =~= be_bytes_signed(d.value as int, 8));
        },
        Number::Decimal128(d) => {
            law_signed_number_from_bytes(d.value as int, 16);
            assert(bytes.subrange(1, 17) =~= be_bytes_signed(d.value as int, 16));
        },
        Number::Decimal256(d) => {
            law_signed_number_from_bytes(d.value@, 32);
            assert(bytes.subrange(1, 33) =~= be_bytes_signed(d.value@, 32));
        },
    }
}

proof fn lemma_tag(len: u32)
    requires
        len < 0x1000_0000,
    ensures
        0x1000_0000u32 | len == 0x1000_0000 + len,
        0x2000_0000u32 | len == 0x2000_0000 + len,
        0x5000_0000u32 | len == 0x5000_0000 + len,
        0x8000_0000u32 | len == 0x8000_0000 + len,
        0x4000_0000u32 | len == 0x4000_0000 + len,
{
    assert(0x1000_0000u32 | len == 0x1000_0000 + len && 0x2000_0000u32 | len == 0x2000_0000 + len
        && 0x5000_0000u32 | len == 0x5000_0000 + len && 0x8000_0000u32 | len == 0x8000_0000 + len
        && 0x4000_0000u32 | len == 0x4000_0000 + len) by (bit_vector)
        requires
            len < 0x1000_0000,
    ;
}

/// The entry of a value is the number of its kind in the upper four bits and the length of its bytes
/// in the others. Null, false and true have no bytes, a string has those of its characters.
pub proof fn law_entry_of_a_value(value: JsonValue, floats: Map<usize, u64>)
    requires
        encoded(value, floats).bytes.len() < 0x1000_0000,
    ensures
        ({
            let e = encoded(value, floats);
            match value {
                JsonValue::Null => e.jentry == 0 && e.bytes.len() == 0,
                JsonValue::Bool(false) => e.jentry == 0x3000_0000 && e.bytes.len() == 0,
                JsonValue::Bool(true) => e.jentry == 0x4000_0000 && e.bytes.len() == 0,
                JsonValue::Text(text) => e.jentry == 0x1000_0000 + text.len() && e.bytes == text,
                JsonValue::Number(NumberToken::Number(number)) => e.jentry == 0x2000_0000
                    + e.bytes.len() && e.bytes == compact(number),
                JsonValue::Number(NumberToken::Float(source)) => e.jentry == 0x2000_0000
                    + e.bytes.len() && (floats.dom().contains(source.spec_start()) ==> e.bytes
                    == compact(Number::Float64(floats[source.spec_start()]))),
                _ => e.jentry == 0x5000_0000 + e.bytes.len(),
            }
        }),
{
    lemma_tag(encoded(value, floats).bytes.len() as u32);
}

/// The four bytes at an offset, as a number.
pub open spec fn word_at(bytes: Seq<u8>, pos: int) -> int {
    big_endian(bytes.subrange(pos, pos + 4))
}

/// How many bytes the values before a place in a list take.
pub open spec fn bytes_before(items: Seq<Encoded>, i: int) -> int {
    items.take(i).fold_left(0int, |n: int, e: Encoded| n + e.bytes.len())
}

proof fn lemma_word(n: u32)
    ensures
        be_bytes(n as nat, 4).len() == 4,
        big_endian(be_bytes(n as nat, 4)) == n,
{
    reveal_with_fuel(byte_range, 5);
    lemma_byte_range(4);
    law_number_from_bytes(n as nat, 4);
}

proof fn lemma_entry_at(entries: Seq<u32>, i: int)
    requires
        0 <= i < entries.len(),
    ensures
        entry_bytes(entries).len() == 4 * entries.len(),
        entry_bytes(entries).subrange(4 * i, 4 * i + 4) == be_bytes(entries[i] as nat, 4),
    decreases entries.len(),
{
    let front = entries.drop_last();
    let n = front.len() as int;
    lemma_word(entries.last());
    lemma_entry_len(front);
    lemma_entry_len(entries);
    if i < n {
        lemma_entry_at(front, i);
        assert(entry_bytes(entries).subrange(4 * i, 4 * i + 4) =~= entry_bytes(front).subrange(
            4 * i,
            4 * i + 4,
        ));
    } else {
        assert(entry_bytes(entries).subrange(4 * i, 4 * i + 4) =~= be_bytes(
            entries.last() as nat,
            4,
        ));
    }
}

proof fn lemma_entry_len(entries: Seq<u32>)
    ensures
        entry_bytes(entries).len() == 4 * entries.len(),
    decreases entries.len(),
{
    if entries.len() > 0 {
        lemma_entry_len(entries.drop_last());
        lemma_word(entries.last());
    }
}

proof fn lemma_payload_at(items: Seq<Encoded>, i: int)
    requires
        0 <= i <= items.len(),
    ensures
        payload(items).len() == bytes_before(items, items.len() as int),
        0 <= bytes_before(items, i) <= payload(items).len(),
        i < items.len() ==> bytes_before(items, i) + items[i].bytes.len() <= payload(items).len()
            && payload(items).subrange(
            bytes_before(items, i),
            bytes_before(items, i) + items[i].bytes.len(),
        ) == items[i].bytes,
    decreases items.len(),
{
    let n = items.len() as int;
    assert(items.take(n) =~= items);
    if n > 0 {
        let front = items.drop_last();
        lemma_payload_at(front, if i < n {
            i
        } else {
            n - 1
        });
        assert(items.take(n).drop_last() =~= front);
        assert(front.take(n - 1) =~= front);
        assert(items.take(n - 1) =~= front);
        assert(bytes_before(items, n) == bytes_before(items, n - 1) + items.last().bytes.len());
        if i < n - 1 {
            assert(items.take(i) =~= front.take(i));
            let from = bytes_before(items, i);
            assert(payload(items).subrange(from, from + items[i].bytes.len()) =~= payload(
                front,
            ).subrange(from, from + items[i].bytes.len()));
        } else if i == n - 1 {
            let from = bytes_before(items, i);
            assert(payload(items).subrange(from, from + items[i].bytes.len()) =~= items[i].bytes);
        }
    }
}

/// An array is a word with its number of items, the entries of the items and then their bytes, all
/// in the order of the items.
pub proof fn law_array_layout(items: Seq<Encoded>, i: int)
    requires
        items.len() < 0x1000_0000,
        0 <= i < items.len(),
    ensures
        ({
            let bytes = array_bytes(items);
            let n = items.len() as int;
            let from = 4 + 4 * n + bytes_before(items, i);
            &&& bytes.len() == 4 + 4 * n + bytes_before(items, n)
            &&& word_at(bytes, 0) == 0x8000_0000 + n
            &&& word_at(bytes, 4 + 4 * i) == items[i].jentry
            &&& 0 <= bytes_before(items, i) && from + items[i].bytes.len() <= bytes.len()
            &&& bytes.subrange(from, from + items[i].bytes.len()) == items[i].bytes
        }),
{
    let bytes = array_bytes(items);
    let n = items.len() as int;
    let entries = items.map_values(|e: Encoded| e.jentry);
    lemma_tag(items.len() as u32);
    lemma_word((0x8000_0000 + n) as u32);
    lemma_entry_at(entries, i);
    lemma_word(items[i].jentry);
    lemma_payload_at(items, i);
    assert(bytes.subrange(0, 4) =~= be_bytes((0x8000_0000 + n) as nat, 4));
    assert(bytes.subrange(4 + 4 * i, 4 + 4 * i + 4) =~= jentries(items).subrange(4 * i, 4 * i + 4));
    let from = 4 + 4 * n + bytes_before(items, i);
    assert(bytes.subrange(from, from + items[i].bytes.len()) =~= payload(items).subrange(
        bytes_before(items, i),
        bytes_before(items, i) + items[i].bytes.len(),
    ));
}

/// An object is a word with its number of members, the entries of the keys, those of the values, the
/// bytes of the keys and then those of the values, all in the same order.
pub proof fn law_object_layout(keys: Seq<Encoded>, values: Seq<Encoded>, i: int)
    requires
        keys.len() == values.len(),
        keys.len() < 0x1000_0000,
        0 <= i < keys.len(),
    ensures
        ({
            let bytes = object_bytes(keys, values);
            let n = keys.len() as int;
            let from = 4 + 8 * n + bytes_before(keys, i);
            let value_from = 4 + 8 * n + bytes_before(keys, n) + bytes_before(values, i);
            &&& bytes.len() == 4 + 8 * n + bytes_before(keys, n) + bytes_before(values, n)
            &&& word_at(bytes, 0) == 0x4000_0000 + n
            &&& word_at(bytes, 4 + 4 * i) == keys[i].jentry
            &&& word_at(bytes, 4 + 4 * n + 4 * i) == values[i].jentry
            &&& 0 <= bytes_before(keys, i) && from + keys[i].bytes.len() <= bytes.len()
            &&& bytes.subrange(from, from + keys[i].bytes.len()) == keys[i].bytes
            &&& 0 <= bytes_before(values, i) && value_from + values[i].bytes.len() <= bytes.len()
            &&& bytes.subrange(value_from, value_from + values[i].bytes.len()) == values[i].bytes
        }),
{
    let bytes = object_bytes(keys, values);
    let n = keys.len() as int;
    lemma_tag(keys.len() as u32);
    lemma_word((0x4000_0000 + n) as u32);
    lemma_entry_at(keys.map_values(|e: Encoded| e.jentry), i);
    lemma_entry_at(values.map_values(|e: Encoded| e.jentry), i);
    lemma_word(keys[i].jentry);
    lemma_word(values[i].jentry);
    lemma_payload_at(keys, i);
    lemma_payload_at(values, i);
    assert(bytes.subrange(0, 4) =~= be_bytes((0x4000_0000 + n) as nat, 4));
    assert(bytes.subrange(4 + 4 * i, 4 + 4 * i + 4) =~= jentries(keys).subrange(4 * i, 4 * i + 4));
    assert(bytes.subrange(4 + 4 * n + 4 * i, 4 + 4 * n + 4 * i + 4) =~= jentries(values).subrange(
        4 * i,
        4 * i + 4,
    ));
    let from = 4 + 8 * n + bytes_before(keys, i);
    assert(bytes.subrange(from, from + keys[i].bytes.len()) =~= payload(keys).subrange(
        bytes_before(keys, i),
        bytes_before(keys, i) + keys[i].bytes.len(),
    ));
    let value_from = 4 + 8 * n + bytes_before(keys, n) + bytes_before(values, i);
    assert(bytes.subrange(value_from, value_from + values[i].bytes.len()) =~= payload(
        values,
    ).subrange(bytes_before(values, i), bytes_before(values, i) + values[i].bytes.len()));
}

/// Containers without items are their word alone.
pub proof fn law_empty_containers()
    ensures
        array_bytes(seq![]).len() == 4,
        word_at(array_bytes(seq![]), 0) == 0x8000_0000,
        object_bytes(seq![], seq![]).len() == 4,
        word_at(object_bytes(seq![], seq![]), 0) == 0x4000_0000,
{
    let none = Seq::<Encoded>::empty();
    lemma_tag(0);
    lemma_word(0x8000_0000);
    lemma_word(0x4000_0000);
    lemma_entry_len(none.map_values(|e: Encoded| e.jentry));
    assert(array_bytes(none).subrange(0, 4) =~= be_bytes(0x8000_0000, 4));
    assert(object_bytes(none, none).subrange(0, 4) =~= be_bytes(0x4000_0000, 4));
}

/// One key stands before another: they have the same first `k` bytes, and there the one ends or has
/// the lower byte.
pub open spec fn lower_at(a: Seq<u8>, b: Seq<u8>, k: int) -> bool {
    &&& 0 <= k <= a.len()
    &&& k < b.len()
    &&& a.take(k) == b.take(k)
    &&& k == a.len() || a[k] < b[k]
}

/// One key stands before another, with whatever first bytes in common.
pub open spec fn stands_before(a: Seq<u8>, b: Seq<u8>) -> bool {
    exists|k: int| lower_at(a, b, k)
}

/// An object holds all its members, each with its own value, in the ascending order of the bytes of
/// their keys.
pub proof fn law_object_in_key_order(keys: Seq<Seq<u8>>, values: Seq<Encoded>) -> (order: Seq<int>)
    requires
        keys.len() == values.len(),
        keys.no_duplicates(),
    ensures
        order.len() == keys.len(),
        order.no_duplicates(),
        forall|i: int| 0 <= i < order.len() ==> 0 <= #[trigger] order[i] < keys.len(),
        forall|i: int, j: int|
            0 <= i < j < order.len() ==> stands_before(
                keys[#[trigger] order[i]],
                keys[#[trigger] order[j]],
            ),
        encoded_object(keys, values) == encoded_container(
            object_bytes(
                order.map_values(|i: int| encoded_text(keys[i])),
                order.map_values(|i: int| values[i]),
            ),
        ),
{
    let order = key_order(keys);
    lemma_key_order(keys);
    law_repeated_key_iff_two_equal(keys);
    assert(repeated_key(keys) is None);
    assert forall|i: int, j: int| 0 <= i < j < order.len() implies stands_before(
        keys[#[trigger] order[i]],
        keys[#[trigger] order[j]],
    ) by {
        law_stored_keys_ascend(keys, i, j);
        let a = keys[order[i]];
        let b = keys[order[j]];
        let k = lemma_first_difference(a, b);
        law_first_difference_decides(a, b, k);
        assert(lower_at(a, b, k));
    }
    assert(order.map_values(|i: int| encoded_text(keys[i])) =~= reordered(
        encoded_texts(keys),
        order,
    ));
    assert(order.map_values(|i: int| values[i]) =~= reordered(values, order));
    order
}

/// The encoding of an array is made of those of its items.
pub proof fn law_array_of_items(items: Seq<JsonValue>, floats: Map<usize, u64>)
    ensures
        encoded(JsonValue::Array(items), floats).bytes == array_bytes(
            items.map_values(|item: JsonValue| encoded(item, floats)),
        ),
{
    lemma_items_each(items, floats);
}

proof fn lemma_items_each(items: Seq<JsonValue>, floats: Map<usize, u64>)
    ensures
        encoded_items(items, floats) == items.map_values(
            |item: JsonValue| encoded(item, floats),
        ),
    decreases items.len(),
{
    let each = items.map_values(|item: JsonValue| encoded(item, floats));
    if items.len() > 0 {
        lemma_items_each(items.drop_last(), floats);
        assert(each =~= encoded_items(items.drop_last(), floats).push(
            encoded(items.last(), floats),
        ));
    } else {
        assert(each =~= encoded_items(items, floats));
    }
}

/// The encoding of an object is made of its keys and the encodings of its values.
pub proof fn law_object_of_members(members: Seq<Member>, floats: Map<usize, u64>)
    ensures
        encoded(JsonValue::Object(members), floats) == encoded_object(
            members.map_values(|m: Member| m.key),
            members.map_values(|m: Member| encoded(m.value, floats)),
        ),
{
    lemma_encoded_members_at(members, floats);
}

/// A document is an array or an object by itself; any other value stands behind the word of a
/// scalar and its entry.
pub proof fn law_document_layout(value: JsonValue, floats: Map<usize, u64>)
    requires
        encoded(value, floats).bytes.len() < 0x1000_0000,
    ensures
        ({
            let e = encoded(value, floats);
            let bytes = document_bytes(e);
            if value is Array || value is Object {
                bytes == e.bytes
            } else {
                &&& bytes.len() == 8 + e.bytes.len()
                &&& word_at(bytes, 0) == 0x2000_0000
                &&& word_at(bytes, 4) == e.jentry
                &&& bytes.subrange(8, bytes.len() as int) == e.bytes
            }
        }),
{
    let e = encoded(value, floats);
    let len = e.bytes.len() as u32;
    lemma_tag(len);
    assert((0x5000_0000u32 | len) & 0x5000_0000 == 0x5000_0000 && (0x1000_0000u32 | len)
        & 0x5000_0000 != 0x5000_0000 && (0x2000_0000u32 | len) & 0x5000_0000 != 0x5000_0000
        && 0x3000_0000u32 & 0x5000_0000 != 0x5000_0000 && 0x4000_0000u32 & 0x5000_0000
        != 0x5000_0000 && 0u32 & 0x5000_0000 != 0x5000_0000) by (bit_vector)
        requires
            len < 0x1000_0000,
    ;
    lemma_word(0x2000_0000);
    lemma_word(e.jentry);
    let bytes = document_bytes(e);
    if !(value is Array || value is Object) {
        assert(bytes.subrange(0, 4) =~= be_bytes(0x2000_0000, 4));
        assert(bytes.subrange(4, 8) =~= be_bytes(e.jentry as nat, 4));
        assert(bytes.subrange(8, bytes.len() as int) =~= e.bytes);
    }
}

} // verus!
