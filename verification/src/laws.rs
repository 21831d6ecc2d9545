//! What holds of the library as a whole.

use vstd::prelude::*;
use vstd::utf8::decode_utf8;

use crate::bytes::{
    be_bytes, bytes_less, lemma_bytes_less_irreflexive, lemma_bytes_less_total,
    lemma_bytes_less_transitive,
};
use crate::canonical::{canonical, decoded, lemma_canonical_round_trip};
use crate::error::{ErrorModel, ParseErrorCode, Refusal};
use crate::grammar::{
    decimal_number, document, hex_integer, lemma_unused_end_again, object_value, unused_end, value,
};
use crate::keypath::{
    all_owned, all_unquoted, joined_text, key_paths_text, owned, KeyPathModel, OwnedKeyPathModel,
};
use crate::number::Number;
use crate::order::{
    first_repeat, indices, key_order, key_relation, lemma_key_order, lemma_map_multiset,
    lemma_reordered_multiset, reordered, repeated_key,
};
use crate::scan::{lemma_pow10_monotonic, pow10};
use crate::text::int_text;
use crate::value::{
    document_bytes, encoded, encoded_container, encoded_members, encoded_object, encoded_text,
    encoded_texts, member_keys, missing, Encoded, FloatSource, JsonValue, Member, CONTAINER_TAG,
    NUMBER_TAG, SCALAR_CONTAINER_TAG, STRING_TAG,
};

verus! {

/// Every path but the empty one is read back from its canonical form.
pub proof fn law_canonical_path_round_trip(path: Seq<OwnedKeyPathModel>)
    requires
        path.len() > 0,
    ensures
        decoded(canonical(path)) == Some(path),
{
    lemma_canonical_round_trip(path);
}

/// Two paths with the same canonical form are the same.
pub proof fn law_canonical_path_is_unique(
    a: Seq<OwnedKeyPathModel>,
    b: Seq<OwnedKeyPathModel>,
)
    requires
        canonical(a) == canonical(b),
    ensures
        a == b,
{
    lemma_canonical_round_trip(a);
    lemma_canonical_round_trip(b);
    if a.len() == 0 {
        assert(a =~= b);
    }
}

/// Quotes do not matter once a key path is owned.
pub proof fn law_quotes_do_not_matter(name: Seq<char>)
    ensures
        owned(KeyPathModel::QuotedName(name)) == owned(KeyPathModel::Name(name)),
{
}

/// An owned path that is borrowed and owned again is the same.
pub proof fn law_owned_path_survives_borrowing(path: Seq<OwnedKeyPathModel>)
    ensures
        all_owned(all_unquoted(path)) == path,
{
    assert(all_owned(all_unquoted(path)) =~= path);
}

/// Without two equal neighbours, sorted keys are strictly ascending.
proof fn lemma_no_repeat(keys: Seq<Seq<u8>>, order: Seq<int>, from: int, i: int)
    requires
        0 <= from <= i,
        i + 1 < order.len(),
        first_repeat(keys, order, from) is None,
    ensures
        keys[order[i]] != keys[order[i + 1]],
    decreases i - from,
{
    if from < i {
        lemma_no_repeat(keys, order, from + 1, i);
    }
}

/// A key that is found to be repeated is the second of two equal neighbours.
proof fn lemma_repeat(keys: Seq<Seq<u8>>, order: Seq<int>, from: int) -> (i: int)
    requires
        0 <= from,
        first_repeat(keys, order, from) is Some,
    ensures
        from <= i,
        i + 1 < order.len(),
        first_repeat(keys, order, from) == Some(order[i + 1]),
        keys[order[i]] == keys[order[i + 1]],
    decreases order.len() - from,
{
    if keys[order[from]] == keys[order[from + 1]] {
        from
    } else {
        lemma_repeat(keys, order, from + 1)
    }
}

/// An object is stored with its keys in strictly ascending order of their bytes.
pub proof fn law_stored_keys_ascend(keys: Seq<Seq<u8>>, i: int, j: int)
    requires
        repeated_key(keys) is None,
        0 <= i < j < keys.len(),
    ensures
        bytes_less(reordered(keys, key_order(keys))[i], reordered(keys, key_order(keys))[j]),
    decreases j - i,
{
    let order = key_order(keys);
    lemma_key_order(keys);
    let leq = key_relation(keys);
    assert(leq(order[j - 1], order[j]));
    lemma_no_repeat(keys, order, 0, j - 1);
    if i < j - 1 {
        law_stored_keys_ascend(keys, i, j - 1);
        lemma_bytes_less_transitive(keys[order[i]], keys[order[j - 1]], keys[order[j]]);
    }
}

/// Sorting by key is stable: equal keys keep the order they came in.
pub proof fn law_equal_keys_keep_their_order(keys: Seq<Seq<u8>>, i: int, j: int)
    requires
        0 <= i < j < keys.len(),
        keys[key_order(keys)[i]] == keys[key_order(keys)[j]],
    ensures
        key_order(keys)[i] < key_order(keys)[j],
{
    let order = key_order(keys);
    lemma_key_order(keys);
    let leq = key_relation(keys);
    assert(leq(order[i], order[j]));
    lemma_bytes_less_irreflexive(keys[order[i]]);
    assert(order[i] != order[j]);
}

/// A key is found to be repeated exactly where two keys are equal, and then it occurs before the
/// place where it is found.
pub proof fn law_repeated_key_iff_two_equal(keys: Seq<Seq<u8>>)
    ensures
        repeated_key(keys) is Some <==> exists|i: int, j: int|
            0 <= i < j < keys.len() && #[trigger] keys[i] == #[trigger] keys[j],
        repeated_key(keys) matches Some(j) ==> 0 <= j < keys.len() && exists|i: int|
            0 <= i < j && #[trigger] keys[i] == keys[j],
{
    let order = key_order(keys);
    lemma_key_order(keys);
    if repeated_key(keys) is Some {
        let place = lemma_repeat(keys, order, 0);
        let i = order[place];
        let j = order[place + 1];
        let leq = key_relation(keys);
        assert(leq(i, j));
        lemma_bytes_less_irreflexive(keys[i]);
        assert(i != j);
        assert(0 <= i < j < keys.len() && keys[i] == keys[j]);
    } else {
        assert forall|i: int, j: int| 0 <= i < j < keys.len() implies #[trigger] keys[i]
            != #[trigger] keys[j] by {
            lemma_key_order_covers(keys, i);
            lemma_key_order_covers(keys, j);
            let a = choose|a: int| 0 <= a < order.len() && #[trigger] order[a] == i;
            let b = choose|b: int| 0 <= b < order.len() && #[trigger] order[b] == j;
            if a < b {
                law_stored_keys_ascend(keys, a, b);
            } else {
                law_stored_keys_ascend(keys, b, a);
            }
            lemma_bytes_less_irreflexive(keys[i]);
        }
    }
}

/// Every index stands somewhere in the order of the keys.
proof fn lemma_key_order_covers(keys: Seq<Seq<u8>>, i: int)
    requires
        0 <= i < keys.len(),
    ensures
        exists|a: int| 0 <= a < key_order(keys).len() && #[trigger] key_order(keys)[a] == i,
{
    broadcast use vstd::seq_lib::group_to_multiset_ensures;

    lemma_key_order(keys);
    let all = indices(keys.len());
    assert(all[i] == i);
    assert(all.contains(i));
    assert(all.to_multiset().count(i) > 0);
    assert(key_order(keys).contains(i));
}

/// An object with two equal keys is refused, with the key and the offset behind it; any other
/// object is taken as it is.
pub proof fn law_equal_keys_are_refused(members: Seq<Member>, ends: Seq<int>, end: int)
    ensures
        object_value(members, ends, end) is Err <==> exists|i: int, j: int|
            0 <= i < j < members.len() && #[trigger] members[i].key == #[trigger] members[j].key,
        object_value(members, ends, end) matches Ok(found) ==> found == (
            JsonValue::Object(members),
            end,
        ),
        object_value(members, ends, end) matches Err(e) ==> (repeated_key(
            member_keys(members),
        ) matches Some(j) && e.error == ErrorModel::DuplicateKey(
            decode_utf8(members[j].key),
            ends[j],
        )),
{
    let keys = member_keys(members);
    law_repeated_key_iff_two_equal(keys);
    if object_value(members, ends, end) is Err {
        let (i, j) = choose|i: int, j: int|
            0 <= i < j < keys.len() && #[trigger] keys[i] == #[trigger] keys[j];
        assert(members[i].key == members[j].key);
    }
    if exists|i: int, j: int|
        0 <= i < j < members.len() && #[trigger] members[i].key == #[trigger] members[j].key {
        let (i, j) = choose|i: int, j: int|
            0 <= i < j < members.len() && #[trigger] members[i].key == #[trigger] members[j].key;
        assert(keys[i] == keys[j]);
    }
}

/// A key of an object, and the encoding of its value.
pub type Record = (Seq<u8>, Encoded);

/// The keys of a list of records.
pub open spec fn record_keys(records: Seq<Record>) -> Seq<Seq<u8>> {
    records.map_values(|r: Record| r.0)
}

/// The encoded values of a list of records.
pub open spec fn record_values(records: Seq<Record>) -> Seq<Encoded> {
    records.map_values(|r: Record| r.1)
}

/// The records of an object in the order in which they are stored.
spec fn stored(records: Seq<Record>) -> Seq<Record> {
    reordered(records, key_order(record_keys(records)))
}

/// The keys of a list of records are strictly ascending.
spec fn keys_ascend(records: Seq<Record>) -> bool {
    forall|i: int, j: int|
        0 <= i < j < records.len() ==> bytes_less(
            (#[trigger] records[i]).0,
            (#[trigger] records[j]).0,
        )
}

/// Two lists with the same records and strictly ascending keys are the same.
proof fn lemma_ascending_unique(a: Seq<Record>, b: Seq<Record>)
    requires
        keys_ascend(a),
        keys_ascend(b),
        a.to_multiset() == b.to_multiset(),
    ensures
        a == b,
    decreases a.len(),
{
    broadcast use vstd::seq_lib::group_to_multiset_ensures;

    assert(a.len() == a.to_multiset().len());
    assert(b.len() == b.to_multiset().len());
    if a.len() == 0 {
        assert(a =~= b);
    } else {
        let n = a.len() - 1;
        assert(a.contains(a[n]));
        assert(b.to_multiset().count(a[n]) > 0);
        assert(b.contains(a[n]));
        assert(b.contains(b[n]));
        assert(a.to_multiset().count(b[n]) > 0);
        assert(a.contains(b[n]));
        let i = choose|i: int| 0 <= i < b.len() && b[i] == a[n];
        let j = choose|j: int| 0 <= j < a.len() && a[j] == b[n];
        if i < n {
            assert(bytes_less(b[i].0, b[n].0));
            if j < n {
                assert(bytes_less(a[j].0, a[n].0));
            }
            lemma_bytes_less_total(a[n].0, b[n].0);
            lemma_bytes_less_irreflexive(a[n].0);
        }
        assert(a[n] == b[n]);
        let front_a = a.drop_last();
        let front_b = b.drop_last();
        assert(a =~= front_a.push(a[n]));
        assert(b =~= front_b.push(b[n]));
        assert(front_a.to_multiset() =~= a.to_multiset().remove(a[n]));
        assert(front_b.to_multiset() =~= b.to_multiset().remove(b[n]));
        assert forall|i: int, j: int| 0 <= i < j < front_a.len() implies bytes_less(
            (#[trigger] front_a[i]).0,
            (#[trigger] front_a[j]).0,
        ) by {
            assert(bytes_less(a[i].0, a[j].0));
        }
        assert forall|i: int, j: int| 0 <= i < j < front_b.len() implies bytes_less(
            (#[trigger] front_b[i]).0,
            (#[trigger] front_b[j]).0,
        ) by {
            assert(bytes_less(b[i].0, b[j].0));
        }
        lemma_ascending_unique(front_a, front_b);
    }
}

/// The values of members are encoded one by one.
pub proof fn lemma_encoded_members_at(members: Seq<Member>, floats: Map<usize, u64>)
    ensures
        encoded_members(members, floats) == members.map_values(
            |m: Member| encoded(m.value, floats),
        ),
    decreases members.len(),
{
    let each = members.map_values(|m: Member| encoded(m.value, floats));
    if members.len() > 0 {
        let front = members.drop_last();
        lemma_encoded_members_at(front, floats);
        assert(each =~= front.map_values(|m: Member| encoded(m.value, floats)).push(
            encoded(members.last().value, floats),
        ));
    } else {
        assert(each =~= encoded_members(members, floats));
    }
}

/// The encoding of an object is that of its records as they are stored.
proof fn lemma_encoded_stored(records: Seq<Record>)
    ensures
        reordered(encoded_texts(record_keys(records)), key_order(record_keys(records)))
            == stored(records).map_values(|r: Record| encoded_text(r.0)),
        reordered(record_values(records), key_order(record_keys(records))) == stored(
            records,
        ).map_values(|r: Record| r.1),
{
    let order = key_order(record_keys(records));
    lemma_key_order(record_keys(records));
    assert(reordered(encoded_texts(record_keys(records)), order) =~= stored(records).map_values(
        |r: Record| encoded_text(r.0),
    ));
    assert(reordered(record_values(records), order) =~= stored(records).map_values(
        |r: Record| r.1,
    ));
}

proof fn lemma_stored(records: Seq<Record>)
    requires
        repeated_key(record_keys(records)) is None,
    ensures
        keys_ascend(stored(records)),
        stored(records).to_multiset() == records.to_multiset(),
{
    let keys = record_keys(records);
    let order = key_order(keys);
    lemma_key_order(keys);
    lemma_reordered_multiset(records, order);
    let s = stored(records);
    assert forall|i: int, j: int| 0 <= i < j < s.len() implies bytes_less(
        (#[trigger] s[i]).0,
        (#[trigger] s[j]).0,
    ) by {
        law_stored_keys_ascend(keys, i, j);
        assert(s[i].0 == keys[order[i]]);
        assert(s[j].0 == keys[order[j]]);
    }
}

/// Whether a key is repeated does not depend on the order of the keys.
pub proof fn law_key_repeated_in_any_order(a: Seq<Seq<u8>>, b: Seq<Seq<u8>>)
    requires
        a.to_multiset() == b.to_multiset(),
    ensures
        repeated_key(a) is Some <==> repeated_key(b) is Some,
{
    law_repeated_key_iff_two_equal(a);
    law_repeated_key_iff_two_equal(b);
    if repeated_key(a) is None {
        a.lemma_multiset_has_no_duplicates();
        b.lemma_multiset_has_no_duplicates_conv();
    }
    if repeated_key(b) is None {
        b.lemma_multiset_has_no_duplicates();
        a.lemma_multiset_has_no_duplicates_conv();
    }
}

/// Objects with the same records have the same encoding, in whatever order the records come.
pub proof fn law_record_order_does_not_matter(a: Seq<Record>, b: Seq<Record>)
    requires
        repeated_key(record_keys(a)) is None,
        a.to_multiset() == b.to_multiset(),
    ensures
        encoded_object(record_keys(a), record_values(a)) == encoded_object(
            record_keys(b),
            record_values(b),
        ),
{
    lemma_map_multiset(a, b, |r: Record| r.0);
    law_key_repeated_in_any_order(record_keys(a), record_keys(b));
    lemma_stored(a);
    lemma_stored(b);
    lemma_ascending_unique(stored(a), stored(b));
    lemma_encoded_stored(a);
    lemma_encoded_stored(b);
}

/// The order in which the text lists the members of an object does not show in the encoding.
pub proof fn law_member_order_does_not_matter(
    a: Seq<Member>,
    b: Seq<Member>,
    floats: Map<usize, u64>,
)
    requires
        repeated_key(member_keys(a)) is None,
        a.to_multiset() == b.to_multiset(),
    ensures
        encoded(JsonValue::Object(a), floats) == encoded(JsonValue::Object(b), floats),
{
    let record = |m: Member| (m.key, encoded(m.value, floats));
    lemma_encoded_members_at(a, floats);
    lemma_encoded_members_at(b, floats);
    assert(record_keys(a.map_values(record)) =~= member_keys(a));
    assert(record_keys(b.map_values(record)) =~= member_keys(b));
    assert(record_values(a.map_values(record)) =~= encoded_members(a, floats));
    assert(record_values(b.map_values(record)) =~= encoded_members(b, floats));
    lemma_map_multiset(a, b, record);
    law_record_order_does_not_matter(a.map_values(record), b.map_values(record));
}

/// An array or an object is a document by itself.
pub proof fn law_container_is_a_document(bytes: Seq<u8>)
    ensures
        document_bytes(encoded_container(bytes)) == bytes,
{
    let len = bytes.len() as u32;
    assert((CONTAINER_TAG | len) & CONTAINER_TAG == CONTAINER_TAG) by (bit_vector);
}

/// Any other value of less than 2^28 bytes stands behind the header for such values and its entry.
pub proof fn law_scalar_has_a_header(value: JsonValue, floats: Map<usize, u64>)
    requires
        !(value is Array),
        !(value is Object),
        encoded(value, floats).bytes.len() < 0x1000_0000,
    ensures
        document_bytes(encoded(value, floats)) == be_bytes(SCALAR_CONTAINER_TAG as nat, 4)
            + be_bytes(encoded(value, floats).jentry as nat, 4) + encoded(value, floats).bytes,
{
    let len = encoded(value, floats).bytes.len() as u32;
    assert((STRING_TAG | len) & CONTAINER_TAG != CONTAINER_TAG) by (bit_vector)
        requires
            len < 0x1000_0000,
    ;
    assert((NUMBER_TAG | len) & CONTAINER_TAG != CONTAINER_TAG) by (bit_vector)
        requires
            len < 0x1000_0000,
    ;
    assert(0x0000_0000u32 & CONTAINER_TAG != CONTAINER_TAG && 0x3000_0000u32 & CONTAINER_TAG
        != CONTAINER_TAG && 0x4000_0000u32 & CONTAINER_TAG != CONTAINER_TAG) by (bit_vector);
}

/// A text with nothing but what is skipped between tokens is null in the extended dialect and
/// ends too early in the standard one.
pub proof fn law_empty_text(text: Seq<u8>)
    requires
        unused_end(text, 0) == text.len(),
    ensures
        document(text, false) == Ok::<JsonValue, Refusal>(JsonValue::Null),
        document(text, true) matches Err(e) && e.error == ErrorModel::Syntax(
            ParseErrorCode::InvalidEOF,
            text.len() as int,
        ),
{
    lemma_unused_end_again(text, 0);
}

/// No literal is missing exactly where the bits of all literals are known.
pub proof fn law_nothing_missing_iff_all_known(
    sources: Seq<FloatSource>,
    floats: Map<usize, u64>,
)
    ensures
        missing(sources, floats).len() == 0 <==> forall|i: int|
            0 <= i < sources.len() ==> floats.dom().contains(
                (#[trigger] sources[i]).spec_start(),
            ),
    decreases sources.len(),
{
    if sources.len() > 0 {
        let front = sources.drop_last();
        law_nothing_missing_iff_all_known(front, floats);
        let known = forall|i: int|
            0 <= i < sources.len() ==> floats.dom().contains((#[trigger] sources[i]).spec_start());
        if known {
            assert forall|i: int| 0 <= i < front.len() implies floats.dom().contains(
                (#[trigger] front[i]).spec_start(),
            ) by {
                assert(front[i] == sources[i]);
            }
            assert(sources[sources.len() - 1] == sources.last());
        }
        if missing(sources, floats).len() == 0 {
            assert forall|i: int| 0 <= i < sources.len() implies floats.dom().contains(
                (#[trigger] sources[i]).spec_start(),
            ) by {
                if i < front.len() {
                    assert(front[i] == sources[i]);
                }
            }
        }
    }
}

/// Once the literals that were asked for are known as well, none is missing.
pub proof fn law_answering_completes(
    sources: Seq<FloatSource>,
    floats: Map<usize, u64>,
    more: Map<usize, u64>,
)
    requires
        floats.dom().subset_of(more.dom()),
        forall|i: int|
            0 <= i < missing(sources, floats).len() ==> more.dom().contains(
                (#[trigger] missing(sources, floats)[i]).spec_start(),
            ),
    ensures
        missing(sources, more).len() == 0,
    decreases sources.len(),
{
    if sources.len() > 0 {
        let front = sources.drop_last();
        let asked = missing(sources, floats);
        let asked_front = missing(front, floats);
        assert forall|i: int| 0 <= i < asked_front.len() implies more.dom().contains(
            (#[trigger] asked_front[i]).spec_start(),
        ) by {
            assert(asked[i] == asked_front[i]);
        }
        law_answering_completes(front, floats, more);
        if !floats.dom().contains(sources.last().spec_start()) {
            assert(asked[asked.len() - 1] == sources.last());
        }
    }
}

/// The numerator of a number that is no floating-point number, and the power of ten that it is
/// divided by.
pub open spec fn exact(number: Number) -> Option<(int, int)> {
    match number {
        Number::Int64(v) => Some((v as int, 0)),
        Number::UInt64(v) => Some((v as int, 0)),
        Number::Float64(_) => None,
        Number::Decimal64(d) => Some((d.value as int, d.scale as int)),
        Number::Decimal128(d) => Some((d.value as int, d.scale as int)),
        Number::Decimal256(d) => Some((d.value@, d.scale as int)),
    }
}

/// A decimal keeps every digit, whichever kind of number holds it.
pub proof fn law_decimals_keep_every_digit(negative: bool, magnitude: nat, digits: int, scale: int)
    requires
        0 <= scale <= digits <= 76,
        magnitude < pow10(digits as nat),
    ensures
        exact(decimal_number(negative, magnitude, digits, scale)) == Some(
            (
                if negative {
                    -magnitude
                } else {
                    magnitude as int
                },
                scale,
            ),
        ),
{
    lemma_pow10_bounds(digits as nat);
}

proof fn lemma_pow10_bounds(n: nat)
    requires
        n <= 76,
    ensures
        n <= 38 ==> pow10(n) <= 100_000_000_000_000_000_000_000_000_000_000_000_000,
        pow10(n)
            <= 10_000_000_000_000_000_000_000_000_000_000_000_000_000_000_000_000_000_000_000_000_000_000_000_000_000int,
{
    lemma_pow10_values();
    lemma_pow10_monotonic(n, 76);
    if n <= 38 {
        lemma_pow10_monotonic(n, 38);
    }
}

proof fn lemma_pow10_values()
    ensures
        pow10(38) == 100_000_000_000_000_000_000_000_000_000_000_000_000int,
        pow10(76)
            == 10_000_000_000_000_000_000_000_000_000_000_000_000_000_000_000_000_000_000_000_000_000_000_000_000_000int,
{
    reveal_with_fuel(pow10, 20);
    assert(pow10(19) == 10_000_000_000_000_000_000int);
    assert(pow10(38) == 100_000_000_000_000_000_000_000_000_000_000_000_000int);
    assert(pow10(57)
        == 1_000_000_000_000_000_000_000_000_000_000_000_000_000_000_000_000_000_000_000int);
    assert(pow10(76)
        == 10_000_000_000_000_000_000_000_000_000_000_000_000_000_000_000_000_000_000_000_000_000_000_000_000_000int);
}

/// A hexadecimal integer keeps its value, whichever kind of number holds it.
pub proof fn law_hex_integers_keep_their_value(negative: bool, magnitude: nat)
    requires
        magnitude <= u128::MAX,
    ensures
        exact(hex_integer(negative, magnitude)) == Some(
            (
                if negative {
                    -magnitude
                } else {
                    magnitude as int
                },
                0int,
            ),
        ),
{
}

/// Between two equal keys in the order of the keys there is no other key.
proof fn lemma_equal_run(keys: Seq<Seq<u8>>, q: int, r: int)
    requires
        0 <= q < r < keys.len(),
        keys[key_order(keys)[q]] == keys[key_order(keys)[r]],
    ensures
        keys[key_order(keys)[q]] == keys[key_order(keys)[q + 1]],
{
    let order = key_order(keys);
    lemma_key_order(keys);
    let leq = key_relation(keys);
    let a = keys[order[q]];
    let b = keys[order[q + 1]];
    assert(leq(order[q], order[q + 1]));
    if q + 1 < r {
        assert(leq(order[q + 1], order[r]));
    }
    lemma_bytes_less_irreflexive(a);
    lemma_bytes_less_total(a, b);
}

proof fn lemma_first_repeat_first(keys: Seq<Seq<u8>>, order: Seq<int>, from: int) -> (i: int)
    requires
        0 <= from,
        first_repeat(keys, order, from) is Some,
    ensures
        from <= i,
        i + 1 < order.len(),
        first_repeat(keys, order, from) == Some(order[i + 1]),
        keys[order[i]] == keys[order[i + 1]],
        forall|k: int| from <= k < i ==> keys[#[trigger] order[k]] != keys[order[k + 1]],
    decreases order.len() - from,
{
    if keys[order[from]] == keys[order[from + 1]] {
        from
    } else {
        lemma_first_repeat_first(keys, order, from + 1)
    }
}

/// Of all keys that occur more than once, the one that is reported is the lowest, and it is reported
/// where it occurs for the second time.
pub proof fn law_lowest_repeat_is_reported(keys: Seq<Seq<u8>>, a: int, b: int)
    requires
        repeated_key(keys) is Some,
        0 <= a < b < keys.len(),
        keys[a] == keys[b],
    ensures
        ({
            let j = repeated_key(keys)->Some_0;
            &&& 0 <= j < keys.len()
            &&& bytes_less(keys[j], keys[a]) || keys[a] == keys[j] && j <= b
            &&& forall|i: int, k: int|
                0 <= i < k < j && #[trigger] keys[i] == keys[j] ==> #[trigger] keys[k] != keys[j]
            &&& exists|i: int| 0 <= i < j && #[trigger] keys[i] == keys[j]
        }),
{
    let order = key_order(keys);
    let j = repeated_key(keys)->Some_0;
    lemma_key_order(keys);
    law_repeated_key_iff_two_equal(keys);
    let leq = key_relation(keys);
    let p = lemma_first_repeat_first(keys, order, 0);
    lemma_key_order_covers(keys, a);
    lemma_key_order_covers(keys, b);
    let qa = choose|q: int| 0 <= q < order.len() && #[trigger] order[q] == a;
    let qb = choose|q: int| 0 <= q < order.len() && #[trigger] order[q] == b;
    lemma_bytes_less_irreflexive(keys[a]);
    if qb < qa {
        assert(leq(order[qb], order[qa]));
    }
    assert(qa < qb);
    lemma_equal_run(keys, qa, qb);
    if qa < p {
        assert(keys[order[qa]] != keys[order[qa + 1]]);
    }
    if p < qa {
        assert(leq(order[p], order[qa]));
    }
    assert(bytes_less(keys[j], keys[a]) || keys[a] == keys[j]);
    assert forall|i: int, k: int|
        0 <= i < k < j && #[trigger] keys[i] == keys[j] implies #[trigger] keys[k] != keys[j] by {
        if keys[k] == keys[j] {
            lemma_one_before(keys, order, p, i);
            lemma_one_before(keys, order, p, k);
        }
    }
    if keys[a] == keys[j] && b < j {
        lemma_one_before(keys, order, p, a);
        lemma_one_before(keys, order, p, b);
    }
}

/// Before the second of two equal neighbours, the first is the only place of the key.
proof fn lemma_one_before(keys: Seq<Seq<u8>>, order: Seq<int>, p: int, i: int)
    requires
        order == key_order(keys),
        0 <= p,
        p + 1 < order.len(),
        keys[order[p]] == keys[order[p + 1]],
        forall|k: int| 0 <= k < p ==> keys[#[trigger] order[k]] != keys[order[k + 1]],
        0 <= i < order[p + 1],
        keys[i] == keys[order[p + 1]],
    ensures
        i == order[p],
{
    lemma_key_order(keys);
    let leq = key_relation(keys);
    lemma_key_order_covers(keys, i);
    let q = choose|q: int| 0 <= q < order.len() && #[trigger] order[q] == i;
    lemma_bytes_less_irreflexive(keys[i]);
    if q > p + 1 {
        assert(leq(order[p + 1], order[q]));
    }
    if q < p {
        lemma_equal_run(keys, q, p);
        assert(keys[order[q]] != keys[order[q + 1]]);
    }
}

/// Owning and borrowing key paths keeps each step: an index is the same index, a name the same name.
pub proof fn law_steps_are_kept(paths: Seq<KeyPathModel>, steps: Seq<OwnedKeyPathModel>, i: int)
    requires
        0 <= i < paths.len(),
        0 <= i < steps.len(),
    ensures
        all_owned(paths).len() == paths.len(),
        paths[i] matches KeyPathModel::Index(n) ==> all_owned(paths)[i]
            == OwnedKeyPathModel::Index(n),
        paths[i] matches KeyPathModel::Name(name) ==> all_owned(paths)[i]
            == OwnedKeyPathModel::Name(name),
        paths[i] matches KeyPathModel::QuotedName(name) ==> all_owned(paths)[i]
            == OwnedKeyPathModel::Name(name),
        all_unquoted(steps).len() == steps.len(),
        steps[i] matches OwnedKeyPathModel::Index(n) ==> all_unquoted(steps)[i]
            == KeyPathModel::Index(n),
        steps[i] matches OwnedKeyPathModel::Name(name) ==> all_unquoted(steps)[i]
            == KeyPathModel::Name(name),
{
}

/// Key paths are shown in braces with commas between them: an index in decimal, a name as it is, and
/// one that was read in quotes in double quotes.
pub proof fn law_shown_list(paths: Seq<KeyPathModel>)
    ensures
        key_paths_text(paths) == seq!['{'] + Seq::new(
            paths.len(),
            |i: int|
                if i == 0 {
                    shown_path(paths[i])
                } else {
                    seq![','] + shown_path(paths[i])
                },
        ).flatten() + seq!['}'],
{
    lemma_shown_joined(paths);
}

/// A key path as it is shown.
pub open spec fn shown_path(path: KeyPathModel) -> Seq<char> {
    match path {
        KeyPathModel::Index(index) => int_text(index as int),
        KeyPathModel::QuotedName(name) => seq!['"'] + name + seq!['"'],
        KeyPathModel::Name(name) => name,
    }
}

proof fn lemma_shown_joined(paths: Seq<KeyPathModel>)
    ensures
        joined_text(paths) == Seq::new(
            paths.len(),
            |i: int|
                if i == 0 {
                    shown_path(paths[i])
                } else {
                    seq![','] + shown_path(paths[i])
                },
        ).flatten(),
    decreases paths.len(),
{
    let pieces = Seq::new(
        paths.len(),
        |i: int|
            if i == 0 {
                shown_path(paths[i])
            } else {
                seq![','] + shown_path(paths[i])
            },
    );
    if paths.len() == 0 {
        assert(pieces.flatten() =~= joined_text(paths));
    } else {
        let front = paths.drop_last();
        lemma_shown_joined(front);
        assert(pieces.drop_last() =~= Seq::new(
            front.len(),
            |i: int|
                if i == 0 {
                    shown_path(front[i])
                } else {
                    seq![','] + shown_path(front[i])
                },
        ));
        pieces.lemma_flatten_and_flatten_alt_are_equivalent();
        pieces.drop_last().lemma_flatten_and_flatten_alt_are_equivalent();
        assert(pieces.flatten() =~= pieces.drop_last().flatten() + pieces.last());
        if paths.len() == 1 {
            assert(pieces.drop_last().flatten() =~= Seq::<char>::empty());
        }
        assert(pieces.flatten() =~= joined_text(paths));
    }
}

/// The literals that are asked for are exactly those whose bits are not known, in their order.
pub proof fn law_missing_are_the_unknown(sources: Seq<FloatSource>, floats: Map<usize, u64>)
    ensures
        missing(sources, floats) == sources.filter(
            |s: FloatSource| !floats.dom().contains(s.spec_start()),
        ),
    decreases sources.len(),
{
    reveal(Seq::filter);
    if sources.len() > 0 {
        law_missing_are_the_unknown(sources.drop_last(), floats);
    }
}

} // verus!
