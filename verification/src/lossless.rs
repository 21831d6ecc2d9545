//! What can be told from an encoding: the numbers, strings and items that went into it.

use vstd::prelude::*;

use crate::bytes::{be_bytes, be_bytes_signed, byte_range, lemma_be_bytes_len, twos_complement};
use crate::number::{compact, float_is_special, signed_width, unsigned_width, Number};
use crate::order::{key_order, lemma_key_order, reordered};
use crate::value::{
    array_bytes, document_bytes, encoded, encoded_items, encoded_members, encoded_texts,
    entry_bytes, jentries, member_keys, object_bytes, payload, resolved, Encoded,
    JsonValue, Member, ARRAY_CONTAINER_TAG, CONTAINER_TAG, NUMBER_TAG, OBJECT_CONTAINER_TAG,
    SCALAR_CONTAINER_TAG, STRING_TAG,
};
use crate::int256::lemma_int256;
use crate::laws::{law_container_is_a_document, law_scalar_has_a_header, lemma_encoded_members_at};

verus! {

/// Numbers of the same bytes are the same, if the bytes hold them.
pub proof fn lemma_be_bytes_injective(a: nat, b: nat, len: nat)
    requires
        a < byte_range(len),
        b < byte_range(len),
        be_bytes(a, len) == be_bytes(b, len),
    ensures
        a == b,
    decreases len,
{
    if len > 0 {
        let n = (len - 1) as nat;
        let x = be_bytes(a, len);
        let y = be_bytes(b, len);
        lemma_be_bytes_len(a / 256, n);
        lemma_be_bytes_len(b / 256, n);
        assert(x[n as int] == y[n as int]);
        assert(be_bytes(a / 256, n) =~= x.take(n as int));
        assert(be_bytes(b / 256, n) =~= y.take(n as int));
        lemma_be_bytes_injective(a / 256, b / 256, n);
    }
}

/// Signed numbers of the same bytes are the same, if the bytes hold them.
pub proof fn lemma_be_bytes_signed_injective(a: int, b: int, len: nat)
    requires
        -byte_range(len) <= 2 * a < byte_range(len),
        -byte_range(len) <= 2 * b < byte_range(len),
        be_bytes_signed(a, len) == be_bytes_signed(b, len),
    ensures
        a == b,
{
    lemma_be_bytes_injective(twos_complement(a, len), twos_complement(b, len), len);
}

/// The number is zero.
pub open spec fn is_zero(number: Number) -> bool {
    number == Number::Int64(0) || number == Number::UInt64(0)
}

/// The number is a floating-point value that is not a number.
pub open spec fn is_nan(number: Number) -> bool {
    number matches Number::Float64(bits) && float_is_special(bits) && bits % 0x10_0000_0000_0000
        != 0
}

proof fn lemma_ranges()
    ensures
        byte_range(1) == 0x100,
        byte_range(2) == 0x1_0000,
        byte_range(4) == 0x1_0000_0000,
        byte_range(8) == 0x1_0000_0000_0000_0000,
        byte_range(16) == 0x1_0000_0000_0000_0000_0000_0000_0000_0000,
        byte_range(32)
            == 0x1_0000_0000_0000_0000_0000_0000_0000_0000_0000_0000_0000_0000_0000_0000_0000_0000int,
{
    reveal_with_fuel(byte_range, 33);
}

/// What stands behind the first byte of a compact number, and its last byte if that is a scale.
proof fn lemma_compact_shape(number: Number)
    ensures
        match number {
            Number::Int64(v) => if v == 0 {
                compact(number)[0] == 0x00
            } else {
                compact(number).len() == 1 + signed_width(v) && compact(number)[0] == 0x40
                    && compact(number).skip(1) == be_bytes_signed(v as int, signed_width(v))
            },
            Number::UInt64(v) => if v == 0 {
                compact(number)[0] == 0x00
            } else {
                compact(number).len() == 1 + unsigned_width(v) && compact(number)[0] == 0x50
                    && compact(number).skip(1) == be_bytes(v as nat, unsigned_width(v))
            },
            Number::Float64(bits) => if !float_is_special(bits) {
                compact(number).len() == 9 && compact(number)[0] == 0x60 && compact(number).skip(1)
                    == be_bytes(bits as nat, 8)
            } else if is_nan(number) {
                compact(number)[0] == 0x10
            } else if bits >= 0x8000_0000_0000_0000 {
                compact(number)[0] == 0x30
            } else {
                compact(number)[0] == 0x20
            },
            Number::Decimal64(d) => compact(number).len() == 10 && compact(number)[0] == 0x70
                && compact(number).subrange(1, 9) == be_bytes_signed(d.value as int, 8)
                && compact(number)[9] == d.scale,
            Number::Decimal128(d) => compact(number).len() == 18 && compact(number)[0] == 0x70
                && compact(number).subrange(1, 17) == be_bytes_signed(d.value as int, 16)
                && compact(number)[17] == d.scale,
            Number::Decimal256(d) => compact(number).len() == 34 && compact(number)[0] == 0x70
                && compact(number).subrange(1, 33) == be_bytes_signed(d.value@, 32)
                && compact(number)[33] == d.scale,
        },
{
    let bytes = compact(number);
    match number {
        Number::Int64(v) => {
            lemma_be_bytes_len(twos_complement(v as int, signed_width(v)), signed_width(v));
            if v != 0 {
                assert(bytes.skip(1) =~= be_bytes_signed(v as int, signed_width(v)));
            }
        },
        Number::UInt64(v) => {
            lemma_be_bytes_len(v as nat, unsigned_width(v));
            if v != 0 {
                assert(bytes.skip(1) =~= be_bytes(v as nat, unsigned_width(v)));
            }
        },
        Number::Float64(bits) => {
            lemma_be_bytes_len(bits as nat, 8);
            if !float_is_special(bits) {
                assert(bytes.skip(1) =~= be_bytes(bits as nat, 8));
            }
        },
        Number::Decimal64(d) => {
            lemma_be_bytes_len(twos_complement(d.value as int, 8), 8);
            assert(bytes.subrange(1, 9) =~= be_bytes_signed(d.value as int, 8));
        },
        Number::Decimal128(d) => {
            lemma_be_bytes_len(twos_complement(d.value as int, 16), 16);
            assert(bytes.subrange(1, 17) =~= be_bytes_signed(d.value as int, 16));
        },
        Number::Decimal256(d) => {
            lemma_be_bytes_len(twos_complement(d.value@, 32), 32);
            assert(bytes.subrange(1, 33) =~= be_bytes_signed(d.value@, 32));
        },
    }
}

/// There are two infinite values.
proof fn lemma_infinity(bits: u64)
    requires
        float_is_special(bits),
        bits % 0x10_0000_0000_0000 == 0,
    ensures
        bits == if bits >= 0x8000_0000_0000_0000 {
            0xfff0_0000_0000_0000u64
        } else {
            0x7ff0_0000_0000_0000u64
        },
{
    assert(bits == if bits >= 0x8000_0000_0000_0000 {
        0xfff0_0000_0000_0000u64
    } else {
        0x7ff0_0000_0000_0000u64
    }) by (bit_vector)
        requires
            bits / 0x10_0000_0000_0000 % 0x800 == 0x7ff,
            bits % 0x10_0000_0000_0000 == 0,
    ;
}

/// The compact form of a number tells which number it is, but for the kind of a zero and the bits
/// of what is not a number.
pub proof fn law_compact_form_tells_the_number(a: Number, b: Number)
    requires
        compact(a) == compact(b),
    ensures
        a == b || (is_zero(a) && is_zero(b)) || (is_nan(a) && is_nan(b)),
{
    lemma_ranges();
    lemma_compact_shape(a);
    lemma_compact_shape(b);
    assert(compact(a)[0] == compact(b)[0]);
    assert(compact(a).len() == compact(b).len());
    match (a, b) {
        (Number::Int64(x), Number::Int64(y)) => {
            if x != 0 && y != 0 {
                lemma_be_bytes_signed_injective(x as int, y as int, signed_width(x));
            }
        },
        (Number::UInt64(x), Number::UInt64(y)) => {
            if x != 0 && y != 0 {
                lemma_be_bytes_injective(x as nat, y as nat, unsigned_width(x));
            }
        },
        (Number::Float64(x), Number::Float64(y)) => {
            if !float_is_special(x) && !float_is_special(y) {
                lemma_be_bytes_injective(x as nat, y as nat, 8);
            } else if float_is_special(x) && float_is_special(y) && !is_nan(a) {
                lemma_infinity(x);
                lemma_infinity(y);
            }
        },
        (Number::Decimal64(x), Number::Decimal64(y)) => {
            lemma_be_bytes_signed_injective(x.value as int, y.value as int, 8);
        },
        (Number::Decimal128(x), Number::Decimal128(y)) => {
            lemma_be_bytes_signed_injective(x.value as int, y.value as int, 16);
        },
        (Number::Decimal256(x), Number::Decimal256(y)) => {
            lemma_be_bytes_signed_injective(x.value@, y.value@, 32);
            lemma_int256(x.value);
            lemma_int256(y.value);
        },
        _ => {},
    }
}

/// A length below this one leaves the tag of an entry alone.
pub open spec fn entry_limit() -> nat {
    0x1000_0000
}

/// The entry of an encoding tells its length.
pub open spec fn length_told(e: Encoded) -> bool {
    e.jentry % 0x1000_0000 == e.bytes.len()
}

/// The entry of each encoding tells its length.
spec fn lengths_told(items: Seq<Encoded>) -> bool {
    forall|i: int| 0 <= i < items.len() ==> length_told(#[trigger] items[i])
}

proof fn lemma_tags(len: u32)
    requires
        len < 0x1000_0000,
    ensures
        STRING_TAG | len == 0x1000_0000 + len,
        NUMBER_TAG | len == 0x2000_0000 + len,
        CONTAINER_TAG | len == 0x5000_0000 + len,
        ARRAY_CONTAINER_TAG | len == 0x8000_0000 + len,
        OBJECT_CONTAINER_TAG | len == 0x4000_0000 + len,
{
    assert(STRING_TAG | len == 0x1000_0000 + len && NUMBER_TAG | len == 0x2000_0000 + len
        && CONTAINER_TAG | len == 0x5000_0000 + len && ARRAY_CONTAINER_TAG | len == 0x8000_0000
        + len && OBJECT_CONTAINER_TAG | len == 0x4000_0000 + len) by (bit_vector)
        requires
            len < 0x1000_0000,
    ;
}

/// The entry of a value tells its kind and its length.
proof fn lemma_entry_tells(v: JsonValue, floats: Map<usize, u64>)
    requires
        encoded(v, floats).bytes.len() < entry_limit(),
    ensures
        length_told(encoded(v, floats)),
        encoded(v, floats).jentry / 0x1000_0000 == match v {
            JsonValue::Null => 0u32,
            JsonValue::Text(_) => 1u32,
            JsonValue::Number(_) => 2u32,
            JsonValue::Bool(b) => if b {
                4u32
            } else {
                3u32
            },
            JsonValue::Array(_) => 5u32,
            JsonValue::Object(_) => 5u32,
        },
{
    lemma_tags(encoded(v, floats).bytes.len() as u32);
}

proof fn lemma_entry_bytes_len(entries: Seq<u32>)
    ensures
        entry_bytes(entries).len() == 4 * entries.len(),
    decreases entries.len(),
{
    if entries.len() > 0 {
        lemma_entry_bytes_len(entries.drop_last());
        lemma_be_bytes_len(entries.last() as nat, 4);
    }
}

proof fn lemma_entry_bytes_injective(a: Seq<u32>, b: Seq<u32>)
    requires
        a.len() == b.len(),
        entry_bytes(a) == entry_bytes(b),
    ensures
        a == b,
    decreases a.len(),
{
    if a.len() == 0 {
        assert(a =~= b);
    } else {
        let x = entry_bytes(a);
        let y = entry_bytes(b);
        let n = 4 * (a.len() - 1);
        lemma_entry_bytes_len(a.drop_last());
        lemma_entry_bytes_len(b.drop_last());
        lemma_be_bytes_len(a.last() as nat, 4);
        lemma_be_bytes_len(b.last() as nat, 4);
        assert(entry_bytes(a.drop_last()) =~= x.take(n));
        assert(entry_bytes(b.drop_last()) =~= y.take(n));
        assert(be_bytes(a.last() as nat, 4) =~= x.skip(n));
        assert(be_bytes(b.last() as nat, 4) =~= y.skip(n));
        lemma_ranges();
        lemma_be_bytes_injective(a.last() as nat, b.last() as nat, 4);
        lemma_entry_bytes_injective(a.drop_last(), b.drop_last());
        assert(a =~= a.drop_last().push(a.last()));
        assert(b =~= b.drop_last().push(b.last()));
    }
}

proof fn lemma_payload_len(items: Seq<Encoded>, i: int)
    requires
        0 <= i < items.len(),
    ensures
        items[i].bytes.len() <= payload(items).len(),
    decreases items.len(),
{
    if i < items.len() - 1 {
        lemma_payload_len(items.drop_last(), i);
    }
}

/// Encodings with the same entries have payloads of the same length.
proof fn lemma_payload_same_len(a: Seq<Encoded>, b: Seq<Encoded>)
    requires
        a.len() == b.len(),
        lengths_told(a),
        lengths_told(b),
        forall|i: int| 0 <= i < a.len() ==> (#[trigger] a[i]).jentry == b[i].jentry,
    ensures
        payload(a).len() == payload(b).len(),
    decreases a.len(),
{
    if a.len() > 0 {
        let n = a.len() - 1;
        assert(length_told(a[n]) && length_told(b[n]));
        lemma_told_front(a);
        lemma_told_front(b);
        assert forall|i: int| 0 <= i < n implies (#[trigger] a.drop_last()[i]).jentry
            == b.drop_last()[i].jentry by {
            assert(a[i].jentry == b[i].jentry);
        }
        lemma_payload_same_len(a.drop_last(), b.drop_last());
    }
}

proof fn lemma_told_front(items: Seq<Encoded>)
    requires
        lengths_told(items),
        items.len() > 0,
    ensures
        lengths_told(items.drop_last()),
{
    let front = items.drop_last();
    assert forall|i: int| 0 <= i < front.len() implies length_told(#[trigger] front[i]) by {
        assert(length_told(items[i]));
    }
}

/// Encodings with the same entries and the same payload are the same.
proof fn lemma_payload_tells(a: Seq<Encoded>, b: Seq<Encoded>)
    requires
        a.len() == b.len(),
        lengths_told(a),
        lengths_told(b),
        forall|i: int| 0 <= i < a.len() ==> (#[trigger] a[i]).jentry == b[i].jentry,
        payload(a) == payload(b),
    ensures
        a == b,
    decreases a.len(),
{
    if a.len() == 0 {
        assert(a =~= b);
    } else {
        let n = a.len() - 1;
        let front_a = a.drop_last();
        let front_b = b.drop_last();
        lemma_told_front(a);
        lemma_told_front(b);
        assert forall|i: int| 0 <= i < n implies (#[trigger] front_a[i]).jentry
            == front_b[i].jentry by {
            assert(a[i].jentry == b[i].jentry);
        }
        lemma_payload_same_len(front_a, front_b);
        let len = payload(front_a).len() as int;
        assert(payload(front_a) =~= payload(a).take(len));
        assert(payload(front_b) =~= payload(b).take(len));
        assert(a[n].bytes =~= payload(a).skip(len));
        assert(b[n].bytes =~= payload(b).skip(len));
        assert(a[n].jentry == b[n].jentry);
        lemma_payload_tells(front_a, front_b);
        assert(a =~= front_a.push(a[n]));
        assert(b =~= front_b.push(b[n]));
    }
}

/// Encodings with the same entries, one after the other, and the same payload are the same.
proof fn lemma_items_told(a: Seq<Encoded>, b: Seq<Encoded>)
    requires
        a.len() == b.len(),
        lengths_told(a),
        lengths_told(b),
        jentries(a) == jentries(b),
        payload(a) == payload(b),
    ensures
        a == b,
{
    lemma_entries_told(a, b);
    lemma_payload_tells(a, b);
}

proof fn lemma_entries_told(a: Seq<Encoded>, b: Seq<Encoded>)
    requires
        a.len() == b.len(),
        jentries(a) == jentries(b),
    ensures
        forall|i: int| 0 <= i < a.len() ==> (#[trigger] a[i]).jentry == b[i].jentry,
{
    let x = a.map_values(|e: Encoded| e.jentry);
    let y = b.map_values(|e: Encoded| e.jentry);
    lemma_entry_bytes_injective(x, y);
    assert forall|i: int| 0 <= i < a.len() implies (#[trigger] a[i]).jentry == b[i].jentry by {
        assert(x[i] == y[i]);
    }
}

/// The bytes of an array tell the encodings of its items.
proof fn lemma_array_told(a: Seq<Encoded>, b: Seq<Encoded>)
    requires
        array_bytes(a) == array_bytes(b),
        array_bytes(a).len() < entry_limit(),
        lengths_told(a),
        lengths_told(b),
    ensures
        a == b,
{
    let x = array_bytes(a);
    let y = array_bytes(b);
    lemma_entry_bytes_len(a.map_values(|e: Encoded| e.jentry));
    lemma_entry_bytes_len(b.map_values(|e: Encoded| e.jentry));
    lemma_be_bytes_len((ARRAY_CONTAINER_TAG | (a.len() as u32)) as nat, 4);
    lemma_be_bytes_len((ARRAY_CONTAINER_TAG | (b.len() as u32)) as nat, 4);
    lemma_tags(a.len() as u32);
    lemma_tags(b.len() as u32);
    assert(be_bytes((ARRAY_CONTAINER_TAG | (a.len() as u32)) as nat, 4) =~= x.take(4));
    assert(be_bytes((ARRAY_CONTAINER_TAG | (b.len() as u32)) as nat, 4) =~= y.take(4));
    lemma_ranges();
    lemma_be_bytes_injective(
        (ARRAY_CONTAINER_TAG | (a.len() as u32)) as nat,
        (ARRAY_CONTAINER_TAG | (b.len() as u32)) as nat,
        4,
    );
    let n = 4 + 4 * a.len();
    assert(jentries(a) =~= x.subrange(4, n as int));
    assert(jentries(b) =~= y.subrange(4, n as int));
    assert(payload(a) =~= x.skip(n as int));
    assert(payload(b) =~= y.skip(n as int));
    lemma_items_told(a, b);
}

/// The bytes of an object tell the encodings of its keys and of its values.
proof fn lemma_object_told(
    ka: Seq<Encoded>,
    va: Seq<Encoded>,
    kb: Seq<Encoded>,
    vb: Seq<Encoded>,
)
    requires
        object_bytes(ka, va) == object_bytes(kb, vb),
        object_bytes(ka, va).len() < entry_limit(),
        ka.len() == va.len(),
        kb.len() == vb.len(),
        lengths_told(ka),
        lengths_told(va),
        lengths_told(kb),
        lengths_told(vb),
    ensures
        ka == kb,
        va == vb,
{
    let x = object_bytes(ka, va);
    let y = object_bytes(kb, vb);
    lemma_entry_bytes_len(ka.map_values(|e: Encoded| e.jentry));
    lemma_entry_bytes_len(va.map_values(|e: Encoded| e.jentry));
    lemma_entry_bytes_len(kb.map_values(|e: Encoded| e.jentry));
    lemma_entry_bytes_len(vb.map_values(|e: Encoded| e.jentry));
    let head_a = (OBJECT_CONTAINER_TAG | (ka.len() as u32)) as nat;
    let head_b = (OBJECT_CONTAINER_TAG | (kb.len() as u32)) as nat;
    lemma_be_bytes_len(head_a, 4);
    lemma_be_bytes_len(head_b, 4);
    lemma_tags(ka.len() as u32);
    lemma_tags(kb.len() as u32);
    assert(be_bytes(head_a, 4) =~= x.take(4));
    assert(be_bytes(head_b, 4) =~= y.take(4));
    lemma_ranges();
    lemma_be_bytes_injective(head_a, head_b, 4);
    let n = 4 + 4 * ka.len() as int;
    let m = n + 4 * ka.len() as int;
    assert(jentries(ka) =~= x.subrange(4, n));
    assert(jentries(kb) =~= y.subrange(4, n));
    assert(jentries(va) =~= x.subrange(n, m));
    assert(jentries(vb) =~= y.subrange(n, m));
    lemma_entries_told(ka, kb);
    lemma_payload_same_len(ka, kb);
    let p = m + payload(ka).len();
    assert(payload(ka) =~= x.subrange(m, p));
    assert(payload(kb) =~= y.subrange(m, p));
    assert(payload(va) =~= x.skip(p));
    assert(payload(vb) =~= y.skip(p));
    lemma_items_told(ka, kb);
    lemma_items_told(va, vb);
}

/// The items of an array are encoded one by one.
proof fn lemma_encoded_items_at(items: Seq<JsonValue>, floats: Map<usize, u64>)
    ensures
        encoded_items(items, floats) == items.map_values(|v: JsonValue| encoded(v, floats)),
    decreases items.len(),
{
    let each = items.map_values(|v: JsonValue| encoded(v, floats));
    if items.len() > 0 {
        let front = items.drop_last();
        lemma_encoded_items_at(front, floats);
        assert(each =~= front.map_values(|v: JsonValue| encoded(v, floats)).push(
            encoded(items.last(), floats),
        ));
    } else {
        assert(each =~= encoded_items(items, floats));
    }
}

proof fn lemma_array_lengths_told(items: Seq<JsonValue>, floats: Map<usize, u64>)
    requires
        array_bytes(encoded_items(items, floats)).len() < entry_limit(),
    ensures
        lengths_told(encoded_items(items, floats)),
{
    let all = encoded_items(items, floats);
    lemma_encoded_items_at(items, floats);
    assert forall|i: int| 0 <= i < all.len() implies length_told(#[trigger] all[i]) by {
        lemma_payload_len(all, i);
        lemma_entry_tells(items[i], floats);
    }
}

/// The keys and the values of an object as they are stored.
pub open spec fn stored_keys(members: Seq<Member>) -> Seq<Encoded> {
    reordered(encoded_texts(member_keys(members)), key_order(member_keys(members)))
}

/// The values of an object as they are stored.
pub open spec fn stored_values(members: Seq<Member>, floats: Map<usize, u64>) -> Seq<Encoded> {
    reordered(encoded_members(members, floats), key_order(member_keys(members)))
}

proof fn lemma_object_lengths_told(members: Seq<Member>, floats: Map<usize, u64>)
    requires
        object_bytes(stored_keys(members), stored_values(members, floats)).len() < entry_limit(),
    ensures
        lengths_told(stored_keys(members)),
        lengths_told(stored_values(members, floats)),
        stored_keys(members).len() == members.len(),
        stored_values(members, floats).len() == members.len(),
{
    let keys = stored_keys(members);
    let values = stored_values(members, floats);
    let order = key_order(member_keys(members));
    lemma_key_order(member_keys(members));
    lemma_encoded_members_at(members, floats);
    assert forall|i: int| 0 <= i < keys.len() implies length_told(#[trigger] keys[i]) by {
        lemma_payload_len(keys, i);
        lemma_tags(keys[i].bytes.len() as u32);
    }
    assert forall|i: int| 0 <= i < values.len() implies length_told(#[trigger] values[i]) by {
        lemma_payload_len(values, i);
        assert(values[i] == encoded(members[order[i]].value, floats));
        lemma_entry_tells(members[order[i]].value, floats);
    }
}

/// An encoding of less than 2^28 bytes tells what it is the encoding of: its kind; the number in
/// compact form, or the string; or the encodings of the items, or of the keys and the values, that
/// are inside.
pub proof fn law_encoding_tells_the_value(v: JsonValue, w: JsonValue, floats: Map<usize, u64>)
    requires
        encoded(v, floats) == encoded(w, floats),
        encoded(v, floats).bytes.len() < entry_limit(),
    ensures
        match (v, w) {
            (JsonValue::Null, JsonValue::Null) => true,
            (JsonValue::Bool(a), JsonValue::Bool(b)) => a == b,
            (JsonValue::Number(a), JsonValue::Number(b)) => compact(resolved(a, floats)) == compact(
                resolved(b, floats),
            ),
            (JsonValue::Text(a), JsonValue::Text(b)) => a == b,
            (JsonValue::Array(a), JsonValue::Array(b)) => encoded_items(a, floats)
                == encoded_items(b, floats),
            (JsonValue::Object(a), JsonValue::Object(b)) => stored_keys(a) == stored_keys(b)
                && stored_values(a, floats) == stored_values(b, floats),
            _ => false,
        },
{
    lemma_entry_tells(v, floats);
    lemma_entry_tells(w, floats);
    match (v, w) {
        (JsonValue::Array(a), JsonValue::Array(b)) => {
            lemma_array_lengths_told(a, floats);
            lemma_array_lengths_told(b, floats);
            lemma_array_told(encoded_items(a, floats), encoded_items(b, floats));
        },
        (JsonValue::Object(a), JsonValue::Object(b)) => {
            lemma_object_lengths_told(a, floats);
            lemma_object_lengths_told(b, floats);
            lemma_object_told(
                stored_keys(a),
                stored_values(a, floats),
                stored_keys(b),
                stored_values(b, floats),
            );
        },
        (JsonValue::Array(a), JsonValue::Object(b)) => {
            lemma_array_is_no_object(a, b, floats);
        },
        (JsonValue::Object(a), JsonValue::Array(b)) => {
            lemma_array_is_no_object(b, a, floats);
        },
        _ => {},
    }
}

/// The header of an array or an object, as a number.
proof fn lemma_headers(v: JsonValue, floats: Map<usize, u64>)
    requires
        encoded(v, floats).bytes.len() < entry_limit(),
        v is Array || v is Object,
    ensures
        encoded(v, floats).bytes.len() >= 4,
        v is Array ==> exists|n: nat|
            0x8000_0000 <= n < 0x9000_0000 && encoded(v, floats).bytes.take(4) == #[trigger] be_bytes(
                n,
                4,
            ),
        v is Object ==> exists|n: nat|
            0x4000_0000 <= n < 0x5000_0000 && encoded(v, floats).bytes.take(4) == #[trigger] be_bytes(
                n,
                4,
            ),
{
    match v {
        JsonValue::Array(items) => {
            let all = encoded_items(items, floats);
            lemma_entry_bytes_len(all.map_values(|e: Encoded| e.jentry));
            lemma_tags(all.len() as u32);
            let n = (ARRAY_CONTAINER_TAG | (all.len() as u32)) as nat;
            lemma_be_bytes_len(n, 4);
            assert(encoded(v, floats).bytes.take(4) =~= be_bytes(n, 4));
        },
        JsonValue::Object(members) => {
            let keys = stored_keys(members);
            lemma_entry_bytes_len(keys.map_values(|e: Encoded| e.jentry));
            lemma_tags(keys.len() as u32);
            let n = (OBJECT_CONTAINER_TAG | (keys.len() as u32)) as nat;
            lemma_be_bytes_len(n, 4);
            assert(encoded(v, floats).bytes.take(4) =~= be_bytes(n, 4));
        },
        _ => {},
    }
}

proof fn lemma_array_is_no_object(
    items: Seq<JsonValue>,
    members: Seq<Member>,
    floats: Map<usize, u64>,
)
    requires
        encoded(JsonValue::Array(items), floats).bytes.len() < entry_limit(),
    ensures
        encoded(JsonValue::Array(items), floats).bytes != encoded(
            JsonValue::Object(members),
            floats,
        ).bytes,
{
    let v = JsonValue::Array(items);
    let w = JsonValue::Object(members);
    if encoded(v, floats).bytes == encoded(w, floats).bytes {
        lemma_headers(v, floats);
        lemma_headers(w, floats);
        let a = choose|n: nat|
            0x8000_0000 <= n < 0x9000_0000 && encoded(v, floats).bytes.take(4) == #[trigger] be_bytes(
                n,
                4,
            );
        let b = choose|n: nat|
            0x4000_0000 <= n < 0x5000_0000 && encoded(w, floats).bytes.take(4) == #[trigger] be_bytes(
                n,
                4,
            );
        lemma_ranges();
        lemma_be_bytes_injective(a, b, 4);
    }
}

/// A document tells the encoding of its root, if that has less than 2^28 bytes.
pub proof fn law_document_tells_its_root(v: JsonValue, w: JsonValue, floats: Map<usize, u64>)
    requires
        document_bytes(encoded(v, floats)) == document_bytes(encoded(w, floats)),
        encoded(v, floats).bytes.len() < entry_limit(),
        encoded(w, floats).bytes.len() < entry_limit(),
    ensures
        encoded(v, floats) == encoded(w, floats),
{
    lemma_document_shape(v, floats);
    lemma_document_shape(w, floats);
    let x = document_bytes(encoded(v, floats));
    let y = document_bytes(encoded(w, floats));
    lemma_ranges();
    if v is Array || v is Object {
        if w is Array || w is Object {
            let len = x.len() as u32;
            assert(encoded(v, floats).jentry == CONTAINER_TAG | len);
            assert(encoded(w, floats).jentry == CONTAINER_TAG | len);
        } else {
            lemma_scalar_is_no_container(v, w, floats);
        }
    } else if w is Array || w is Object {
        lemma_scalar_is_no_container(w, v, floats);
    } else {
        let a = encoded(v, floats).jentry as nat;
        let b = encoded(w, floats).jentry as nat;
        lemma_be_bytes_len(a, 4);
        lemma_be_bytes_len(b, 4);
        lemma_be_bytes_len(SCALAR_CONTAINER_TAG as nat, 4);
        assert(be_bytes(a, 4) =~= x.subrange(4, 8));
        assert(be_bytes(b, 4) =~= y.subrange(4, 8));
        lemma_be_bytes_injective(a, b, 4);
        assert(encoded(v, floats).bytes =~= x.skip(8));
        assert(encoded(w, floats).bytes =~= y.skip(8));
    }
}

proof fn lemma_document_shape(v: JsonValue, floats: Map<usize, u64>)
    requires
        encoded(v, floats).bytes.len() < entry_limit(),
    ensures
        v is Array || v is Object ==> document_bytes(encoded(v, floats)) == encoded(
            v,
            floats,
        ).bytes,
        !(v is Array || v is Object) ==> document_bytes(encoded(v, floats)) == be_bytes(
            SCALAR_CONTAINER_TAG as nat,
            4,
        ) + be_bytes(encoded(v, floats).jentry as nat, 4) + encoded(v, floats).bytes,
{
    if v is Array || v is Object {
        law_container_is_a_document(encoded(v, floats).bytes);
    } else {
        law_scalar_has_a_header(v, floats);
    }
}

proof fn lemma_scalar_is_no_container(v: JsonValue, w: JsonValue, floats: Map<usize, u64>)
    requires
        v is Array || v is Object,
        !(w is Array || w is Object),
        encoded(v, floats).bytes.len() < entry_limit(),
        encoded(w, floats).bytes.len() < entry_limit(),
    ensures
        document_bytes(encoded(v, floats)) != document_bytes(encoded(w, floats)),
{
    lemma_document_shape(v, floats);
    lemma_document_shape(w, floats);
    lemma_headers(v, floats);
    lemma_ranges();
    let x = document_bytes(encoded(v, floats));
    let y = document_bytes(encoded(w, floats));
    let tag = SCALAR_CONTAINER_TAG as nat;
    lemma_be_bytes_len(tag, 4);
    assert(y.take(4) =~= be_bytes(tag, 4));
    if x == y {
        let n = choose|n: nat|
            0x4000_0000 <= n < 0x9000_0000 && x.take(4) == #[trigger] be_bytes(n, 4);
        lemma_be_bytes_injective(n, tag, 4);
    }
}

} // verus!
