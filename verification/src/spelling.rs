//! What the text of an object denotes follows from the texts of its members, and what the text of
//! a member denotes from its key and its value: neither the order of the members nor the way in
//! which keys and strings are quoted leaves a trace.

use vstd::prelude::*;
use vstd::utf8::{length_of_first_scalar, pop_first_scalar, valid_utf8};

use crate::ascii::{
    APOSTROPHE, BACKSLASH, CLOSE_BRACE, CLOSE_BRACKET, COLON, COMMA, OPEN_BRACE, OPEN_BRACKET,
    QUOTE,
};
use crate::error::{Error, Refusal};
use crate::extent::{law_value_within_text, lemma_quoted_string, lemma_unquoted_end};
use crate::grammar::{
    array_items, document, is_key_byte, lemma_unused_end, lemma_unused_end_again, object_key,
    object_members, object_value, quoted_string, remaining, unquoted_end, unused_end, unused_width,
    value,
};
use crate::laws::{
    law_key_repeated_in_any_order, law_record_order_does_not_matter, law_repeated_key_iff_two_equal,
    record_keys, record_values, Record,
};
use crate::layout::{
    between, char_width, embeds, lemma_member_embedded, lemma_members_step, lemma_skipped,
    lemma_stops_before, lemma_value_embedded, member_at, tail,
};
use crate::moved::{lemma_object_key_moved, lemma_quoted_string_moved, moved_token};
use crate::order::{lemma_map_multiset, repeated_key};
use crate::parser_direct::{parses, Parsed};
use crate::plain::{
    answers, denoted, law_parse_gives_what_is_denoted, lemma_plain_items_push, lemma_plain_keys,
    lemma_plain_members_push, meaning, plain, plain_encoded, plain_encoded_items,
    plain_encoded_members, plain_items, plain_keys, plain_members, Literal, PlainMember, PlainValue,
};
use crate::scan::{byte_at, string_scan, StringScanError};
use crate::value::{array_bytes, encoded_container, encoded_object, member_keys, JsonValue, Member};

verus! {

/// Texts with a comma between each and the next.
pub open spec fn joined(texts: Seq<Seq<u8>>) -> Seq<u8>
    decreases texts.len(),
{
    if texts.len() == 0 {
        seq![]
    } else if texts.len() == 1 {
        texts[0]
    } else {
        texts[0].push(COMMA) + joined(texts.drop_first())
    }
}

/// The text of an object with the given texts of its members.
pub open spec fn object_text(members: Seq<Seq<u8>>) -> Seq<u8> {
    seq![OPEN_BRACE] + joined(members).push(CLOSE_BRACE)
}

/// What the text of one member denotes.
#[verifier::opaque]
pub open spec fn member_meaning(member: Seq<u8>, standard: bool) -> Option<PlainMember> {
    match meaning(object_text(seq![member]), standard) {
        Some(PlainValue::Object(members)) => if members.len() == 1 {
            Some(members[0])
        } else {
            None
        },
        _ => None,
    }
}

/// All of the given texts are texts of one member.
pub open spec fn member_texts(members: Seq<Seq<u8>>, standard: bool) -> bool {
    forall|i: int|
        0 <= i < members.len() ==> member_meaning(#[trigger] members[i], standard) is Some
}

/// What texts of members denote.
pub open spec fn member_meanings(members: Seq<Seq<u8>>, standard: bool) -> Seq<PlainMember> {
    members.map_values(|m: Seq<u8>| member_meaning(m, standard)->Some_0)
}

/// A byte that can stand at an end of a string or an object is not skipped.
pub proof fn lemma_not_skipped(text: Seq<u8>, i: int, q: int)
    requires
        0 <= i <= q < text.len(),
        text[q] == CLOSE_BRACE || text[q] == QUOTE || text[q] == APOSTROPHE,
    ensures
        unused_end(text, i) <= q,
    decreases q - i,
{
    if unused_width(text, i) > 0 {
        assert(i + unused_width(text, i) <= q);
        lemma_not_skipped(text, i + unused_width(text, i), q);
    }
}

/// A member is added for each that is read.
pub proof fn lemma_more_members(
    text: Seq<u8>,
    pos: int,
    standard: bool,
    members: Seq<Member>,
    ends: Seq<int>,
)
    requires
        0 <= pos <= text.len() <= usize::MAX,
    ensures
        object_members(text, pos, standard, members, ends) matches Ok((v, _)) ==> (v matches
            JsonValue::Object(all) && all.len() > members.len()),
    decreases remaining(text, pos),
{
    lemma_members_step(text, pos, standard, members, ends);
    if let Some((member, key_end, close)) = member_at(text, pos, standard) {
        if byte_at(text, close) == Some(COMMA) {
            lemma_unused_end(text, close + 1);
            lemma_more_members(
                text,
                unused_end(text, close + 1),
                standard,
                members.push(member),
                ends.push(key_end),
            );
        }
    }
}

/// The text of one member is read as that member.
proof fn lemma_single_member(member: Seq<u8>, standard: bool)
    requires
        member_meaning(member, standard) is Some,
        object_text(seq![member]).len() <= usize::MAX,
    ensures
        ({
            let s = object_text(seq![member]);
            let p = member_meaning(member, standard)->Some_0;
            &&& s.len() == member.len() + 2
            &&& s[0] == OPEN_BRACE
            &&& s[s.len() - 1] == CLOSE_BRACE
            &&& s.subrange(1, s.len() - 1) == member
            &&& member_at(s, unused_end(s, 1), standard) matches Some((m, _, close)) && close
                == s.len() - 1 && m.key == p.key && plain(s, m.value) == p.value
        }),
{
    reveal(member_meaning);
    let s = object_text(seq![member]);
    assert(joined(seq![member]) == member);
    assert(s.subrange(1, s.len() - 1) =~= member);
    let inside = unused_end(s, 1);
    lemma_unused_end(s, 1);
    let root = document(s, standard)->Ok_0;
    let members = root->Object_0;
    assert(root is Object);
    assert(unused_end(s, 0) == 0);
    lemma_plain_keys(s, members);
    lemma_members_step(s, inside, standard, seq![], seq![]);
    let (m, key_end, close) = member_at(s, inside, standard)->Some_0;
    let no_members = Seq::<Member>::empty();
    if byte_at(s, close) == Some(COMMA) {
        lemma_unused_end(s, close + 1);
        lemma_more_members(
            s,
            unused_end(s, close + 1),
            standard,
            no_members.push(m),
            Seq::<int>::empty().push(key_end),
        );
    }
    assert(members == no_members.push(m));
    if close < s.len() - 1 {
        lemma_not_skipped(s, close + 1, s.len() - 1);
    }
    lemma_plain_members_push(s, no_members, m);
    assert(plain_members(s, members)[0] == member_meaning(member, standard)->Some_0);
}

/// No member starts with the end of an object.
proof fn lemma_no_member_at_brace(text: Seq<u8>, pos: int, standard: bool)
    requires
        member_at(text, pos, standard) is Some,
    ensures
        byte_at(text, pos) != Some(CLOSE_BRACE),
{
    reveal(member_at);
}

/// A piece of a text stands in another text, `d` further on: the places of its bytes there.
proof fn lemma_piece_moves(s: Seq<u8>, low: int, high: int, t: Seq<u8>, d: int) -> (places: (
    Seq<int>,
    Seq<int>,
))
    requires
        0 <= low <= high <= s.len() <= usize::MAX,
        0 <= low + d,
        high + d <= t.len() <= usize::MAX,
        s.subrange(low, high) == t.subrange(low + d, high + d),
        tail(s, high),
        tail(t, high + d),
    ensures
        embeds(s, low, high, t, places.0, places.1),
        forall|i: int| low <= i <= high ==> #[trigger] places.0[i] == i + d,
        forall|i: int| low <= i <= high ==> #[trigger] places.1[i] == i + d,
{
    let gap = Seq::new(s.len() + 1, |i: int| i + d);
    let at = Seq::new(s.len() + 1, |i: int| i + d);
    assert forall|i: int| low <= i < high implies #[trigger] at[i] < t.len() && t[at[i]] == s[i]
        && gap[i + 1] == at[i] + 1 by {
        assert(s.subrange(low, high)[i - low] == s[i]);
        assert(t.subrange(low + d, high + d)[i - low] == t[i + d]);
    }
    (gap, at)
}

/// The text of a member is read as the same member wherever it stands in the text of an object.
pub proof fn lemma_member_moves(member: Seq<u8>, t: Seq<u8>, off: int, standard: bool)
    requires
        member_meaning(member, standard) is Some,
        0 < off,
        off + member.len() < t.len() <= usize::MAX,
        t.subrange(off, off + member.len()) == member,
        t[off + member.len()] == COMMA || t[off + member.len()] == CLOSE_BRACE,
    ensures
        byte_at(t, unused_end(t, off)) != Some(CLOSE_BRACE),
        off <= unused_end(t, off) <= t.len(),
        member_at(t, unused_end(t, off), standard) matches Some((m, _, close)) && close == off
            + member.len() && m.key == (member_meaning(member, standard)->Some_0).key && plain(
            t,
            m.value,
        ) == (member_meaning(member, standard)->Some_0).value,
{
    let s = object_text(seq![member]);
    assert(joined(seq![member]) == member);
    lemma_single_member(member, standard);
    let high = s.len() - 1;
    let d = off - 1;
    let (gap, at) = lemma_piece_moves(s, 1, high, t, d);
    assert(between(s, 1, 1));
    lemma_skipped(s, 1, high, t, gap, at, 1, off);
    lemma_unused_end_again(s, 1);
    lemma_unused_end(t, off);
    let p = unused_end(s, 1);
    lemma_member_embedded(s, 1, high, t, gap, at, standard, p);
    lemma_no_member_at_brace(t, at[p], standard);
}

/// The first of the texts that stand from `off` on, and what follows it.
pub proof fn lemma_first_text(texts: Seq<Seq<u8>>, t: Seq<u8>, off: int, last: u8)
    requires
        texts.len() > 0,
        0 <= off <= t.len(),
        t.subrange(off, t.len() as int) == joined(texts).push(last),
    ensures
        ({
            let next = off + texts[0].len();
            &&& next < t.len()
            &&& t.subrange(off, next) == texts[0]
            &&& texts.len() == 1 ==> t[next] == last && next + 1 == t.len()
            &&& texts.len() > 1 ==> t[next] == COMMA && t.subrange(next + 1, t.len() as int)
                == joined(texts.drop_first()).push(last)
        }),
{
    let len = texts[0].len() as int;
    let rest = t.subrange(off, t.len() as int);
    assert(rest.len() == t.len() - off);
    assert(t.subrange(off, off + len) =~= rest.subrange(0, len));
    assert(rest.subrange(0, len) =~= texts[0]);
    assert(rest[len] == t[off + len]);
    if texts.len() > 1 {
        assert(t.subrange(off + len + 1, t.len() as int) =~= rest.subrange(
            len + 1,
            rest.len() as int,
        ));
        assert(rest.subrange(len + 1, rest.len() as int) =~= joined(texts.drop_first()).push(last));
    }
}

/// The texts of members from `off` on are read as the members that they denote.
proof fn lemma_members_read(
    texts: Seq<Seq<u8>>,
    t: Seq<u8>,
    off: int,
    standard: bool,
    members: Seq<Member>,
    ends: Seq<int>,
) -> (read: (Seq<Member>, Seq<int>))
    requires
        texts.len() > 0,
        member_texts(texts, standard),
        0 < off <= t.len() <= usize::MAX,
        t.subrange(off, t.len() as int) == joined(texts).push(CLOSE_BRACE),
    ensures
        byte_at(t, unused_end(t, off)) != Some(CLOSE_BRACE),
        object_members(t, unused_end(t, off), standard, members, ends) == object_value(
            read.0,
            read.1,
            t.len() as int,
        ),
        plain_members(t, read.0) == plain_members(t, members) + member_meanings(texts, standard),
    decreases texts.len(),
{
    let first = texts[0];
    let len = first.len() as int;
    assert(member_meaning(texts[0], standard) is Some);
    lemma_first_text(texts, t, off, CLOSE_BRACE);
    lemma_member_moves(first, t, off, standard);
    let pos = unused_end(t, off);
    lemma_members_step(t, pos, standard, members, ends);
    let (member, key_end, close) = member_at(t, pos, standard)->Some_0;
    let all = members.push(member);
    let all_ends = ends.push(key_end);
    lemma_plain_members_push(t, members, member);
    assert(plain_members(t, all) == plain_members(t, members).push(
        member_meaning(first, standard)->Some_0,
    ));
    let read = if texts.len() == 1 {
        (all, all_ends)
    } else {
        let others = texts.drop_first();
        assert forall|i: int| 0 <= i < others.len() implies member_meaning(
            #[trigger] others[i],
            standard,
        ) is Some by {
            assert(others[i] == texts[i + 1]);
        }
        lemma_members_read(others, t, off + len + 1, standard, all, all_ends)
    };
    assert(plain_members(t, read.0) =~= plain_members(t, members) + member_meanings(
        texts,
        standard,
    ));
    read
}

/// The text of an object denotes the members that the texts of its members denote; it is refused
/// where two of these have the same key, and only there.
pub proof fn law_object_text(members: Seq<Seq<u8>>, standard: bool)
    requires
        member_texts(members, standard),
        object_text(members).len() <= usize::MAX,
    ensures
        repeated_key(plain_keys(member_meanings(members, standard))) is None ==> meaning(
            object_text(members),
            standard,
        ) == Some(PlainValue::Object(member_meanings(members, standard))),
        repeated_key(plain_keys(member_meanings(members, standard))) is Some ==> meaning(
            object_text(members),
            standard,
        ) is None,
{
    let t = object_text(members);
    let n = t.len() as int;
    assert(unused_end(t, 0) == 0);
    assert(t[0] == OPEN_BRACE);
    assert(unused_end(t, n) == n);
    if members.len() == 0 {
        law_repeated_key_iff_two_equal(plain_keys(member_meanings(members, standard)));
        assert(t[1] == CLOSE_BRACE);
        assert(unused_end(t, 1) == 1);
        assert(plain_members(t, seq![]) =~= member_meanings(members, standard));
    } else {
        assert(t.subrange(1, n) =~= joined(members).push(CLOSE_BRACE));
        let (all, _) = lemma_members_read(members, t, 1, standard, seq![], seq![]);
        assert(plain_members(t, all) =~= member_meanings(members, standard));
        lemma_plain_keys(t, all);
    }
}

/// What the text of a key denotes.
pub open spec fn key_meaning(key: Seq<u8>, standard: bool) -> Option<Seq<u8>> {
    match object_key(key.push(COLON), 0, standard) {
        Ok((name, end)) => if end == key.len() {
            Some(name)
        } else {
            None
        },
        Err(_) => None,
    }
}

/// The text of a member with the given texts of its key and its value.
pub open spec fn member_text(key: Seq<u8>, item: Seq<u8>) -> Seq<u8> {
    key.push(COLON) + item
}

/// A key is read as the same key at the start of an object.
proof fn lemma_key_moves(key: Seq<u8>, t: Seq<u8>, standard: bool)
    requires
        key_meaning(key, standard) is Some,
        key.len() + 2 <= t.len(),
        t.subrange(1, key.len() as int + 2) == key.push(COLON),
    ensures
        key.len() > 0,
        unused_end(t, 1) == 1,
        object_key(t, 1, standard) == Ok::<_, Refusal>(
            (key_meaning(key, standard)->Some_0, key.len() as int + 1),
        ),
        byte_at(t, 1) != Some(CLOSE_BRACE),
        byte_at(t, key.len() as int + 1) == Some(COLON),
{
    let s = key.push(COLON);
    let n = key.len() as int;
    let piece = t.subrange(1, n + 2);
    assert forall|k: int| 0 <= k < n + 1 implies #[trigger] s[k] == t[k + 1] by {
        assert(piece[k] == t[k + 1]);
    }
    assert(s[n] == COLON);
    assert(moved_token(s, t, 1, 0, n));
    lemma_object_key_moved(s, t, 1, 0, n, standard);
    assert(s[0] == t[1]);
}

/// A whole text is read as the same value where it stands as the value of the last member.
pub proof fn lemma_value_moves(item: Seq<u8>, t: Seq<u8>, d: int, standard: bool)
    requires
        meaning(item, standard) is Some,
        unused_end(item, 0) < item.len(),
        0 <= d,
        d + item.len() <= t.len() <= usize::MAX,
        t.subrange(d, d + item.len()) == item,
        tail(t, d + item.len()),
    ensures
        value(t, d, standard) matches Ok((v, end)) && unused_end(t, end) == d + item.len() && plain(
            t,
            v,
        ) == meaning(item, standard)->Some_0,
{
    let len = item.len() as int;
    assert(item.subrange(0, len) =~= item);
    let (gap, at) = lemma_piece_moves(item, 0, len, t, d);
    law_value_within_text(item, 0, standard);
    let end = value(item, 0, standard)->Ok_0.1;
    lemma_unused_end(item, end);
    lemma_stops_before(item, end);
    assert(gap[0] == d && at[0] == d);
    assert(between(item, 0, 0));
    lemma_value_embedded(item, 0, len, t, gap, at, standard, 0, d);
    lemma_skipped(item, 0, len, t, gap, at, end, value(t, d, standard)->Ok_0.1);
}

/// An object of one member denotes that member.
proof fn lemma_one_member(t: Seq<u8>, standard: bool)
    requires
        2 <= t.len() <= usize::MAX,
        t[0] == OPEN_BRACE,
        t[t.len() - 1] == CLOSE_BRACE,
        unused_end(t, 1) == 1,
        member_at(t, 1, standard) matches Some((_, _, close)) && close == t.len() - 1,
    ensures
        ({
            let m = (member_at(t, 1, standard)->Some_0).0;
            meaning(t, standard) == Some(
                PlainValue::Object(seq![PlainMember { key: m.key, value: plain(t, m.value) }]),
            )
        }),
{
    let (m, key_end, close) = member_at(t, 1, standard)->Some_0;
    let none = Seq::<Member>::empty();
    lemma_no_member_at_brace(t, 1, standard);
    lemma_members_step(t, 1, standard, none, seq![]);
    law_repeated_key_iff_two_equal(member_keys(none.push(m)));
    assert(unused_end(t, 0) == 0);
    assert(unused_end(t, t.len() as int) == t.len());
    lemma_plain_members_push(t, none, m);
    assert(plain_members(t, none.push(m)) =~= seq![
        PlainMember { key: m.key, value: plain(t, m.value) },
    ]);
}

/// Where a member is found: its key, a colon and its value.
proof fn lemma_member_found(
    t: Seq<u8>,
    standard: bool,
    key: Seq<u8>,
    key_end: int,
    v: JsonValue,
    end: int,
)
    requires
        object_key(t, 1, standard) == Ok::<_, Refusal>((key, key_end)),
        byte_at(t, key_end) == Some(COLON),
        value(t, key_end + 1, standard) == Ok::<_, Refusal>((v, end)),
    ensures
        member_at(t, 1, standard) == Some((Member { key, value: v }, key_end, unused_end(t, end))),
{
    assert(unused_end(t, key_end) == key_end);
    reveal(member_at);
}

/// The pieces of an object of one member.
proof fn lemma_member_pieces(key: Seq<u8>, item: Seq<u8>)
    ensures
        ({
            let t = object_text(seq![member_text(key, item)]);
            let n = key.len() as int;
            &&& t.len() == n + item.len() + 3
            &&& t[0] == OPEN_BRACE
            &&& t[t.len() - 1] == CLOSE_BRACE
            &&& t.subrange(1, n + 2) == key.push(COLON)
            &&& t.subrange(n + 2, n + 2 + item.len()) == item
        }),
{
    let member = member_text(key, item);
    let t = object_text(seq![member]);
    let n = key.len() as int;
    assert(joined(seq![member]) == member);
    assert(t =~= seq![OPEN_BRACE] + key.push(COLON) + item + seq![CLOSE_BRACE]);
    assert(t.subrange(1, n + 2) =~= key.push(COLON));
    assert(t.subrange(n + 2, n + 2 + item.len()) =~= item);
}

/// The text of a member denotes what its key denotes and what its value denotes. (A value cannot
/// be left out.)
pub proof fn law_member_text(key: Seq<u8>, item: Seq<u8>, standard: bool)
    requires
        key_meaning(key, standard) is Some,
        meaning(item, standard) is Some,
        unused_end(item, 0) < item.len(),
        object_text(seq![member_text(key, item)]).len() <= usize::MAX,
    ensures
        member_meaning(member_text(key, item), standard) == Some(
            PlainMember {
                key: key_meaning(key, standard)->Some_0,
                value: meaning(item, standard)->Some_0,
            },
        ),
{
    let t = object_text(seq![member_text(key, item)]);
    let n = key.len() as int;
    lemma_member_pieces(key, item);
    lemma_key_moves(key, t, standard);
    lemma_value_moves(item, t, n + 2, standard);
    let (v, end) = value(t, n + 2, standard)->Ok_0;
    lemma_member_found(t, standard, key_meaning(key, standard)->Some_0, n + 1, v, end);
    lemma_one_member(t, standard);
    reveal(member_meaning);
}

/// A text in quotes.
pub open spec fn quoted(content: Seq<u8>, quote: u8) -> Seq<u8> {
    seq![quote] + content.push(quote)
}

/// The two quotes of the extended dialect.
pub open spec fn is_quote(b: u8) -> bool {
    b == QUOTE || b == APOSTROPHE
}

/// A text in one kind of quotes is read as in the other.
proof fn lemma_requoted(content: Seq<u8>, quote: u8, other: u8, after: Seq<u8>)
    requires
        quote == other || !content.contains(other),
        quoted_string(quoted(content, quote) + after, 1, quote) matches Ok((_, end)) && end
            == content.len() + 2,
    ensures
        quoted_string(quoted(content, other) + after, 1, other) == quoted_string(
            quoted(content, quote) + after,
            1,
            quote,
        ),
{
    let s = quoted(content, quote) + after;
    let t = quoted(content, other) + after;
    let high = content.len() as int + 1;
    assert forall|k: int| 1 <= k < high implies #[trigger] s[k] == t[k + 0] by {
        assert(s[k] == content[k - 1]);
    }
    assert forall|k: int| 1 <= k < high implies quote == other || #[trigger] s[k] != other by {
        assert(s[k] == content[k - 1]);
    }
    assert(t[high] == other);
    lemma_quoted_string_moved(s, t, 0, 1, high, quote, other);
}

/// In the extended dialect the quotes of a string leave no trace.
pub proof fn law_quotes_of_a_string(content: Seq<u8>, quote: u8, other: u8)
    requires
        is_quote(quote),
        is_quote(other),
        quote == other || !content.contains(other),
        meaning(quoted(content, quote), false) is Some,
    ensures
        meaning(quoted(content, other), false) == meaning(quoted(content, quote), false),
{
    let s = quoted(content, quote);
    let t = quoted(content, other);
    let n = s.len() as int;
    assert(s =~= s + seq![]);
    assert(t =~= t + seq![]);
    assert(s[0] == quote && s[n - 1] == quote);
    assert(t[0] == other && t.len() == n);
    assert(unused_end(s, 0) == 0);
    assert(unused_end(t, 0) == 0);
    assert(unused_end(t, n) == n);
    let end = quoted_string(s, 1, quote)->Ok_0.1;
    lemma_quoted_string(s, 1, quote);
    if end < n {
        lemma_not_skipped(s, end, n - 1);
    }
    lemma_requoted(content, quote, other, seq![]);
}

/// In the extended dialect the quotes of a key leave no trace.
pub proof fn law_quotes_of_a_key(content: Seq<u8>, quote: u8, other: u8)
    requires
        is_quote(quote),
        is_quote(other),
        quote == other || !content.contains(other),
        key_meaning(quoted(content, quote), false) is Some,
    ensures
        key_meaning(quoted(content, other), false) == key_meaning(quoted(content, quote), false),
{
    assert(quoted(content, quote).push(COLON) =~= quoted(content, quote) + seq![COLON]);
    assert(quoted(content, other).push(COLON) =~= quoted(content, other) + seq![COLON]);
    lemma_requoted(content, quote, other, seq![COLON]);
}

/// The characters of a key without quotes are letters, digits, `_` and `$`, or lie outside ASCII.
pub proof fn lemma_bare_bytes(text: Seq<u8>, pos: int, end: int)
    requires
        0 <= pos,
        unquoted_end(text, pos) == Ok::<int, Refusal>(end),
        valid_utf8(text.subrange(pos, end)),
    ensures
        forall|k: int| pos <= k < end ==> is_key_byte(#[trigger] text[k]) || text[k] >= 0x80,
    decreases remaining(text, pos),
{
    lemma_unquoted_end(text, pos);
    if pos < end {
        let data = text.subrange(pos, end);
        let width = char_width(text[pos]);
        assert(data[0] == text[pos]);
        assert(length_of_first_scalar(data) == width);
        lemma_unquoted_end(text, pos + width);
        assert(pop_first_scalar(data) =~= text.subrange(pos + width, end));
        lemma_bare_bytes(text, pos + width, end);
        assert forall|k: int| pos <= k < end implies is_key_byte(#[trigger] text[k]) || text[k]
            >= 0x80 by {
            if k < pos + width {
                assert(data[k - pos] == text[k]);
            }
        }
    }
}

/// Contents without quotes and escapes end at the first quote.
proof fn lemma_plain_scan(text: Seq<u8>, pos: int, quote: u8, end: int)
    requires
        0 <= pos <= end < text.len(),
        text[end] == quote,
        forall|k: int| pos <= k < end ==> #[trigger] text[k] != quote && text[k] != BACKSLASH,
    ensures
        string_scan(text, pos, quote, false) == Ok::<_, StringScanError>((end, false)),
    decreases end - pos,
{
    if pos < end {
        assert(text[pos] != quote);
        lemma_plain_scan(text, pos + 1, quote, end);
    }
}

/// In the extended dialect a key that stands without quotes is the same key in quotes of either
/// kind: it is its own name. In double quotes it is a key of the standard dialect too.
pub proof fn law_bare_key(name: Seq<u8>, quote: u8)
    requires
        key_meaning(name, false) is Some,
        name.len() > 0,
        !is_quote(name[0]),
        is_quote(quote),
    ensures
        key_meaning(name, false) == Some(name),
        key_meaning(quoted(name, quote), false) == Some(name),
        quote == QUOTE ==> key_meaning(quoted(name, quote), true) == Some(name),
{
    let s = name.push(COLON);
    let n = name.len() as int;
    assert(s[0] == name[0]);
    assert(s.subrange(0, n) =~= name);
    lemma_bare_bytes(s, 0, n);
    let t = quoted(name, quote).push(COLON);
    assert(t[0] == quote);
    assert(t[n + 1] == quote);
    assert forall|k: int| 1 <= k < n + 1 implies #[trigger] t[k] != quote && t[k] != BACKSLASH by {
        assert(t[k] == s[k - 1]);
    }
    lemma_plain_scan(t, 1, quote, n + 1);
    assert(t.subrange(1, n + 1) =~= name);
}

/// The records that texts of members denote: their keys and the encodings of their values.
pub open spec fn records(
    members: Seq<Seq<u8>>,
    standard: bool,
    bits: spec_fn(Literal) -> u64,
) -> Seq<Record> {
    members.map_values(
        |m: Seq<u8>|
            {
                let member = member_meaning(m, standard)->Some_0;
                (member.key, plain_encoded(member.value, bits))
            },
    )
}

proof fn lemma_plain_encoded_members_at(members: Seq<PlainMember>, bits: spec_fn(Literal) -> u64)
    ensures
        plain_encoded_members(members, bits) == members.map_values(
            |m: PlainMember| plain_encoded(m.value, bits),
        ),
    decreases members.len(),
{
    let each = members.map_values(|m: PlainMember| plain_encoded(m.value, bits));
    if members.len() > 0 {
        let front = members.drop_last();
        lemma_plain_encoded_members_at(front, bits);
        assert(each =~= front.map_values(|m: PlainMember| plain_encoded(m.value, bits)).push(
            plain_encoded(members.last().value, bits),
        ));
    } else {
        assert(each =~= plain_encoded_members(members, bits));
    }
}

/// The encoding of an object is made of the records that the texts of its members denote.
pub proof fn law_object_encoding(
    members: Seq<Seq<u8>>,
    standard: bool,
    bits: spec_fn(Literal) -> u64,
)
    requires
        member_texts(members, standard),
        object_text(members).len() <= usize::MAX,
    ensures
        ({
            let found = records(members, standard, bits);
            denoted(object_text(members), standard, bits) == if repeated_key(
                record_keys(found),
            ) is None {
                Some(encoded_object(record_keys(found), record_values(found)))
            } else {
                None
            }
        }),
{
    let found = records(members, standard, bits);
    let meanings = member_meanings(members, standard);
    law_object_text(members, standard);
    lemma_plain_encoded_members_at(meanings, bits);
    assert(record_keys(found) =~= plain_keys(meanings));
    assert(record_values(found) =~= plain_encoded_members(meanings, bits));
}

/// Two texts of objects denote the same encoding where the texts of their members denote the same
/// keys with the same encoded values: how these are spelled, and in which order the members come,
/// leaves no trace. The texts may be of different dialects.
pub proof fn law_same_records_same_encoding(
    a: Seq<Seq<u8>>,
    a_standard: bool,
    b: Seq<Seq<u8>>,
    b_standard: bool,
    bits: spec_fn(Literal) -> u64,
)
    requires
        member_texts(a, a_standard),
        member_texts(b, b_standard),
        object_text(a).len() <= usize::MAX,
        object_text(b).len() <= usize::MAX,
        records(a, a_standard, bits).to_multiset() == records(b, b_standard, bits).to_multiset(),
    ensures
        denoted(object_text(a), a_standard, bits) == denoted(object_text(b), b_standard, bits),
{
    let x = records(a, a_standard, bits);
    let y = records(b, b_standard, bits);
    law_object_encoding(a, a_standard, bits);
    law_object_encoding(b, b_standard, bits);
    lemma_map_multiset(x, y, |r: Record| r.0);
    law_key_repeated_in_any_order(record_keys(x), record_keys(y));
    if repeated_key(record_keys(x)) is None {
        law_record_order_does_not_matter(x, y);
    }
}

/// Texts that denote the same encoding are parsed to the same bytes.
pub proof fn law_same_encoding_same_bytes(
    a: Seq<u8>,
    a_standard: bool,
    a_floats: Map<usize, u64>,
    a_r: Result<Parsed, Error>,
    b: Seq<u8>,
    b_standard: bool,
    b_floats: Map<usize, u64>,
    b_r: Result<Parsed, Error>,
    bits: spec_fn(Literal) -> u64,
)
    requires
        denoted(a, a_standard, bits) == denoted(b, b_standard, bits),
        answers(a, a_standard, a_floats, bits),
        answers(b, b_standard, b_floats, bits),
        parses(a, a_standard, a_floats, a_r),
        parses(b, b_standard, b_floats, b_r),
    ensures
        a_r is Ok <==> b_r is Ok,
        a_r is Ok ==> (a_r matches Ok(Parsed::Jsonb(x)) && b_r matches Ok(Parsed::Jsonb(y)) && x@
            == y@),
{
    law_parse_gives_what_is_denoted(a, a_standard, a_floats, bits, a_r);
    law_parse_gives_what_is_denoted(b, b_standard, b_floats, bits, b_r);
}

/// Texts of keys and of values, pair by pair, as texts of members.
pub open spec fn spelled(pairs: Seq<(Seq<u8>, Seq<u8>)>) -> Seq<Seq<u8>> {
    pairs.map_values(|pair: (Seq<u8>, Seq<u8>)| member_text(pair.0, pair.1))
}

/// Every pair is the text of a key and the text of a value, and no value is left out.
pub open spec fn pairs_denote(pairs: Seq<(Seq<u8>, Seq<u8>)>, standard: bool) -> bool {
    forall|i: int|
        0 <= i < pairs.len() ==> {
            &&& key_meaning((#[trigger] pairs[i]).0, standard) is Some
            &&& meaning(pairs[i].1, standard) is Some
            &&& unused_end(pairs[i].1, 0) < pairs[i].1.len()
        }
}

/// What the pairs denote: the keys and the encodings of the values.
pub open spec fn pair_records(
    pairs: Seq<(Seq<u8>, Seq<u8>)>,
    standard: bool,
    bits: spec_fn(Literal) -> u64,
) -> Seq<Record> {
    pairs.map_values(
        |pair: (Seq<u8>, Seq<u8>)|
            (key_meaning(pair.0, standard)->Some_0, denoted(pair.1, standard, bits)->Some_0),
    )
}

proof fn lemma_joined_len(texts: Seq<Seq<u8>>, i: int)
    requires
        0 <= i < texts.len(),
    ensures
        texts[i].len() <= joined(texts).len(),
    decreases texts.len(),
{
    if texts.len() > 1 && i > 0 {
        lemma_joined_len(texts.drop_first(), i - 1);
        assert(texts.drop_first()[i - 1] == texts[i]);
    }
}

/// The texts of members denote what the texts of their keys and of their values denote.
pub proof fn law_pairs_denote_records(
    pairs: Seq<(Seq<u8>, Seq<u8>)>,
    standard: bool,
    bits: spec_fn(Literal) -> u64,
)
    requires
        pairs_denote(pairs, standard),
        object_text(spelled(pairs)).len() <= usize::MAX,
    ensures
        member_texts(spelled(pairs), standard),
        records(spelled(pairs), standard, bits) == pair_records(pairs, standard, bits),
{
    let texts = spelled(pairs);
    assert forall|i: int| 0 <= i < texts.len() implies member_meaning(
        #[trigger] texts[i],
        standard,
    ) is Some && records(texts, standard, bits)[i] == pair_records(pairs, standard, bits)[i] by {
        let (key, item) = pairs[i];
        assert(key_meaning(pairs[i].0, standard) is Some);
        assert(texts[i] == member_text(key, item));
        lemma_joined_len(texts, i);
        assert(joined(seq![texts[i]]) == texts[i]);
        law_member_text(key, item, standard);
    }
    assert(records(texts, standard, bits) =~= pair_records(pairs, standard, bits));
}

/// The quoting style of keys and strings and the order of the members of an object leave no trace
/// in the bytes that a parse gives: two texts of objects whose keys denote the same names, each
/// with a value that denotes the same encoding, are both accepted, with the same bytes, or both
/// refused.
pub proof fn law_spelling_and_order_leave_no_trace(
    a: Seq<(Seq<u8>, Seq<u8>)>,
    a_standard: bool,
    a_floats: Map<usize, u64>,
    a_r: Result<Parsed, Error>,
    b: Seq<(Seq<u8>, Seq<u8>)>,
    b_standard: bool,
    b_floats: Map<usize, u64>,
    b_r: Result<Parsed, Error>,
    bits: spec_fn(Literal) -> u64,
)
    requires
        pairs_denote(a, a_standard),
        pairs_denote(b, b_standard),
        object_text(spelled(a)).len() <= usize::MAX,
        object_text(spelled(b)).len() <= usize::MAX,
        pair_records(a, a_standard, bits).to_multiset() == pair_records(
            b,
            b_standard,
            bits,
        ).to_multiset(),
        answers(object_text(spelled(a)), a_standard, a_floats, bits),
        answers(object_text(spelled(b)), b_standard, b_floats, bits),
        parses(object_text(spelled(a)), a_standard, a_floats, a_r),
        parses(object_text(spelled(b)), b_standard, b_floats, b_r),
    ensures
        a_r is Ok <==> b_r is Ok,
        a_r is Ok ==> (a_r matches Ok(Parsed::Jsonb(x)) && b_r matches Ok(Parsed::Jsonb(y)) && x@
            == y@),
{
    law_pairs_denote_records(a, a_standard, bits);
    law_pairs_denote_records(b, b_standard, bits);
    law_same_records_same_encoding(spelled(a), a_standard, spelled(b), b_standard, bits);
    law_same_encoding_same_bytes(
        object_text(spelled(a)),
        a_standard,
        a_floats,
        a_r,
        object_text(spelled(b)),
        b_standard,
        b_floats,
        b_r,
        bits,
    );
}

/// The texts of the members of an object may be permuted in any way: the parse gives the same
/// bytes, or refuses both texts.
pub proof fn law_member_texts_in_any_order(
    a: Seq<Seq<u8>>,
    b: Seq<Seq<u8>>,
    standard: bool,
    a_floats: Map<usize, u64>,
    a_r: Result<Parsed, Error>,
    b_floats: Map<usize, u64>,
    b_r: Result<Parsed, Error>,
    bits: spec_fn(Literal) -> u64,
)
    requires
        member_texts(a, standard),
        a.to_multiset() == b.to_multiset(),
        object_text(a).len() <= usize::MAX,
        object_text(b).len() <= usize::MAX,
        answers(object_text(a), standard, a_floats, bits),
        answers(object_text(b), standard, b_floats, bits),
        parses(object_text(a), standard, a_floats, a_r),
        parses(object_text(b), standard, b_floats, b_r),
    ensures
        a_r is Ok <==> b_r is Ok,
        a_r is Ok ==> (a_r matches Ok(Parsed::Jsonb(x)) && b_r matches Ok(Parsed::Jsonb(y)) && x@
            == y@),
{
    broadcast use vstd::seq_lib::group_to_multiset_ensures;

    assert forall|i: int| 0 <= i < b.len() implies member_meaning(
        #[trigger] b[i],
        standard,
    ) is Some by {
        assert(b.contains(b[i]));
        assert(a.to_multiset().count(b[i]) > 0);
        assert(a.contains(b[i]));
        let j = choose|j: int| 0 <= j < a.len() && a[j] == b[i];
        assert(member_meaning(a[j], standard) is Some);
    }
    lemma_map_multiset(
        a,
        b,
        |m: Seq<u8>|
            {
                let member = member_meaning(m, standard)->Some_0;
                (member.key, plain_encoded(member.value, bits))
            },
    );
    law_same_records_same_encoding(a, standard, b, standard, bits);
    law_same_encoding_same_bytes(
        object_text(a),
        standard,
        a_floats,
        a_r,
        object_text(b),
        standard,
        b_floats,
        b_r,
        bits,
    );
}

/// The text of an array with the given texts of its items.
pub open spec fn array_text(items: Seq<Seq<u8>>) -> Seq<u8> {
    seq![OPEN_BRACKET] + joined(items).push(CLOSE_BRACKET)
}

/// All of the given texts are texts of one value, and none is left out.
pub open spec fn item_texts(items: Seq<Seq<u8>>, standard: bool) -> bool {
    forall|i: int|
        0 <= i < items.len() ==> meaning(#[trigger] items[i], standard) is Some && unused_end(
            items[i],
            0,
        ) < items[i].len()
}

/// What texts of items denote.
pub open spec fn item_meanings(items: Seq<Seq<u8>>, standard: bool) -> Seq<PlainValue> {
    items.map_values(|item: Seq<u8>| meaning(item, standard)->Some_0)
}

/// A value is read the same from the next token on, where a value starts.
pub proof fn lemma_value_start(text: Seq<u8>, pos: int, standard: bool)
    requires
        value(text, pos, standard) is Ok,
        unused_end(text, pos) < text.len(),
    ensures
        value(text, unused_end(text, pos), standard) == value(text, pos, standard),
        byte_at(text, unused_end(text, pos)) != Some(COMMA),
        byte_at(text, unused_end(text, pos)) != Some(CLOSE_BRACKET),
{
    lemma_unused_end_again(text, pos);
}

/// An array is read item by item.
pub proof fn lemma_items_step(
    text: Seq<u8>,
    pos: int,
    standard: bool,
    items: Seq<JsonValue>,
    item: JsonValue,
    close: int,
)
    requires
        0 <= pos <= text.len() <= usize::MAX,
        byte_at(text, pos) != Some(COMMA),
        byte_at(text, pos) != Some(CLOSE_BRACKET),
        value(text, pos, standard) matches Ok((v, end)) && v == item && unused_end(text, end)
            == close,
    ensures
        byte_at(text, close) == Some(COMMA) ==> array_items(text, pos, standard, items)
            == array_items(text, unused_end(text, close + 1), standard, items.push(item)),
        byte_at(text, close) == Some(CLOSE_BRACKET) ==> array_items(text, pos, standard, items)
            == Ok::<_, Refusal>((JsonValue::Array(items.push(item)), close + 1)),
{
    law_value_within_text(text, pos, standard);
}

/// The texts of items from `off` on are read as the values that they denote.
proof fn lemma_items_read(
    texts: Seq<Seq<u8>>,
    t: Seq<u8>,
    off: int,
    standard: bool,
    items: Seq<JsonValue>,
) -> (read: Seq<JsonValue>)
    requires
        texts.len() > 0,
        item_texts(texts, standard),
        0 < off <= t.len() <= usize::MAX,
        t.subrange(off, t.len() as int) == joined(texts).push(CLOSE_BRACKET),
    ensures
        byte_at(t, unused_end(t, off)) != Some(CLOSE_BRACKET),
        array_items(t, unused_end(t, off), standard, items) == Ok::<_, Refusal>(
            (JsonValue::Array(read), t.len() as int),
        ),
        plain_items(t, read) == plain_items(t, items) + item_meanings(texts, standard),
    decreases texts.len(),
{
    let first = texts[0];
    let next = off + first.len();
    assert(meaning(texts[0], standard) is Some);
    lemma_first_text(texts, t, off, CLOSE_BRACKET);
    lemma_value_moves(first, t, off, standard);
    let (item, end) = value(t, off, standard)->Ok_0;
    lemma_unused_end(t, off);
    assert(unused_end(t, off) < t.len()) by {
        if unused_end(t, off) >= t.len() {
            assert(unused_end(t, end) >= t.len());
        }
    }
    lemma_value_start(t, off, standard);
    lemma_items_step(t, unused_end(t, off), standard, items, item, next);
    let all = items.push(item);
    lemma_plain_items_push(t, items, item);
    assert(plain_items(t, all) == plain_items(t, items).push(meaning(first, standard)->Some_0));
    let read = if texts.len() == 1 {
        all
    } else {
        let others = texts.drop_first();
        assert forall|i: int| 0 <= i < others.len() implies meaning(
            #[trigger] others[i],
            standard,
        ) is Some && unused_end(others[i], 0) < others[i].len() by {
            assert(others[i] == texts[i + 1]);
        }
        lemma_items_read(others, t, next + 1, standard, all)
    };
    assert(plain_items(t, read) =~= plain_items(t, items) + item_meanings(texts, standard));
    read
}

/// The text of an array denotes the values that the texts of its items denote.
pub proof fn law_array_text(items: Seq<Seq<u8>>, standard: bool)
    requires
        item_texts(items, standard),
        array_text(items).len() <= usize::MAX,
    ensures
        meaning(array_text(items), standard) == Some(
            PlainValue::Array(item_meanings(items, standard)),
        ),
{
    let t = array_text(items);
    let n = t.len() as int;
    assert(unused_end(t, 0) == 0);
    assert(t[0] == OPEN_BRACKET);
    assert(unused_end(t, n) == n);
    if items.len() == 0 {
        assert(t[1] == CLOSE_BRACKET);
        assert(unused_end(t, 1) == 1);
        assert(plain_items(t, seq![]) =~= item_meanings(items, standard));
    } else {
        assert(t.subrange(1, n) =~= joined(items).push(CLOSE_BRACKET));
        let read = lemma_items_read(items, t, 1, standard, seq![]);
        assert(plain_items(t, read) =~= item_meanings(items, standard));
    }
}

/// The encoding of an array is made of the encodings that the texts of its items denote, whatever
/// their spelling.
pub proof fn law_array_encoding(
    items: Seq<Seq<u8>>,
    standard: bool,
    bits: spec_fn(Literal) -> u64,
)
    requires
        item_texts(items, standard),
        array_text(items).len() <= usize::MAX,
    ensures
        denoted(array_text(items), standard, bits) == Some(
            encoded_container(
                array_bytes(
                    items.map_values(|item: Seq<u8>| denoted(item, standard, bits)->Some_0),
                ),
            ),
        ),
{
    let each = items.map_values(|item: Seq<u8>| denoted(item, standard, bits)->Some_0);
    law_array_text(items, standard);
    lemma_plain_encoded_items_at(item_meanings(items, standard), bits);
    assert(each =~= plain_encoded_items(item_meanings(items, standard), bits)) by {
        assert forall|i: int| 0 <= i < items.len() implies each[i] == plain_encoded(
            item_meanings(items, standard)[i],
            bits,
        ) by {
            assert(meaning(items[i], standard) is Some);
        }
    }
}

proof fn lemma_plain_encoded_items_at(items: Seq<PlainValue>, bits: spec_fn(Literal) -> u64)
    ensures
        plain_encoded_items(items, bits) == items.map_values(
            |item: PlainValue| plain_encoded(item, bits),
        ),
    decreases items.len(),
{
    let each = items.map_values(|item: PlainValue| plain_encoded(item, bits));
    if items.len() > 0 {
        let front = items.drop_last();
        lemma_plain_encoded_items_at(front, bits);
        assert(each =~= front.map_values(|item: PlainValue| plain_encoded(item, bits)).push(
            plain_encoded(items.last(), bits),
        ));
    } else {
        assert(each =~= plain_encoded_items(items, bits));
    }
}

} // verus!
