//! Lists of key paths: which texts stand for which paths.

use vstd::prelude::*;
use vstd::utf8::{encode_utf8, encode_utf8_decode_utf8, encode_utf8_valid_utf8};

use crate::keypath::{joined_text, key_path_text, key_paths_text, KeyPathModel};
use crate::keypath_parser::{
    is_space, lemma_path_advances, lemma_spaces_end, name_scan, parsed_key_paths, path_at,
    path_index, path_quoted_name, path_raw_name, paths_from, spaces_end,
};
use crate::numerals::{
    decimal_figures, is_sign, lemma_digits_end_at, lemma_spelled_in, signed_by, spelled_in,
};
use crate::paths::{decimal_chars, law_index_text, spelled_number};
use crate::scan::{byte_at, digits_end};
use crate::spelling::{joined, lemma_first_text};
use crate::strings::{
    all_spelled, lemma_contents, lemma_escape_ends, lemma_quoted_chars, lemma_raw_bytes, spells,
};
use crate::text::int_text;

verus! {

/// Space, tab, carriage return or line feed.
pub open spec fn blank(s: Seq<u8>) -> bool {
    forall|i: int|
        0 <= i < s.len() ==> #[trigger] s[i] == 0x20 || s[i] == 0x09 || s[i] == 0x0d || s[i] == 0x0a
}

/// A byte that can stand in a name without quotes: any but white space and
/// `.:[](){},?@$|<>!=+-*/%"'` and the backslash.
pub open spec fn bare_byte(b: u8) -> bool {
    b != 0x20 && b != 0x09 && b != 0x0d && b != 0x0a && b != 0x21 && b != 0x22 && b != 0x24
        && b != 0x25 && b != 0x27 && b != 0x28 && b != 0x29 && b != 0x2a && b != 0x2b
        && b != 0x2c && b != 0x2d && b != 0x2e && b != 0x2f && b != 0x3a && b != 0x3c
        && b != 0x3d && b != 0x3e && b != 0x3f && b != 0x40 && b != 0x5b && b != 0x5c
        && b != 0x5d && b != 0x7b && b != 0x7c && b != 0x7d
}

/// An escape, or bytes that can stand in a name without quotes.
pub open spec fn bare_or_escaped(s: Seq<u8>) -> bool {
    s[0] == 0x5c || forall|i: int| 0 <= i < s.len() ==> bare_byte(#[trigger] s[i])
}

/// A text that stands for a key path: an integer of 32 bits, with a sign or without; a name in
/// double quotes, its characters spelled as in a string; or a name without quotes, whose characters
/// are escaped or made of bytes that can stand so, and that does not start with a digit or is made
/// of the digits of a number beyond 32 bits.
pub open spec fn path_text(
    text: Seq<u8>,
    path: KeyPathModel,
    sign: Seq<u8>,
    spellings: Seq<Seq<u8>>,
) -> bool {
    match path {
        KeyPathModel::Index(index) => {
            let figures = text.skip(sign.len() as int);
            &&& is_sign(sign)
            &&& text == sign + figures
            &&& figures.len() > 0
            &&& decimal_figures(figures)
            &&& signed_by(sign, spelled_in(figures, 10)) == index
        },
        KeyPathModel::QuotedName(name) => {
            &&& all_spelled(spellings, name, 0x22)
            &&& text == seq![0x22u8] + spellings.flatten() + seq![0x22u8]
        },
        KeyPathModel::Name(name) => {
            &&& all_spelled(spellings, name, 0x22)
            &&& text == spellings.flatten()
            &&& text.len() > 0
            &&& forall|i: int| 0 <= i < spellings.len() ==> bare_or_escaped(#[trigger] spellings[i])
            &&& !(0x30 <= text[0] <= 0x39) || decimal_figures(text) && spelled_in(text, 10)
                > 0x7fff_ffff
        },
    }
}

proof fn lemma_blank(text: Seq<u8>, pos: int, s: Seq<u8>)
    requires
        blank(s),
        0 <= pos,
        pos + s.len() <= text.len(),
        text.subrange(pos, pos + s.len()) == s,
    ensures
        spaces_end(text, pos) == spaces_end(text, pos + s.len()),
    decreases s.len(),
{
    if s.len() > 0 {
        let part = text.subrange(pos, pos + s.len());
        assert(part[0] == text[pos]);
        let rest = s.drop_first();
        assert forall|i: int| 0 <= i < rest.len() implies #[trigger] rest[i] == 0x20 || rest[i]
            == 0x09 || rest[i] == 0x0d || rest[i] == 0x0a by {
            assert(rest[i] == s[i + 1]);
        }
        assert(text.subrange(pos + 1, pos + 1 + rest.len()) =~= part.drop_first());
        lemma_blank(text, pos + 1, rest);
    }
}

/// What can follow a key path: the end, white space, or a character that cannot stand in a name.
pub open spec fn follows(text: Seq<u8>, pos: int) -> bool {
    match byte_at(text, pos) {
        None => true,
        Some(b) => !bare_byte(b) && b != 0x5c,
    }
}

/// Bytes that can stand in a name are passed one by one.
proof fn lemma_bare(text: Seq<u8>, pos: int, end: int)
    requires
        0 <= pos <= end <= text.len(),
        forall|i: int| pos <= i < end ==> bare_byte(#[trigger] text[i]),
    ensures
        name_scan(text, pos) == name_scan(text, end),
    decreases end - pos,
{
    if pos < end {
        assert(bare_byte(text[pos]));
        lemma_bare(text, pos + 1, end);
    }
}

/// A name without quotes ends where something follows that cannot stand in it.
proof fn lemma_name_scanned(
    text: Seq<u8>,
    pos: int,
    spellings: Seq<Seq<u8>>,
    name: Seq<char>,
)
    requires
        0 <= pos,
        pos + spellings.flatten().len() <= text.len(),
        text.subrange(pos, pos + spellings.flatten().len()) == spellings.flatten(),
        all_spelled(spellings, name, 0x22),
        forall|i: int| 0 <= i < spellings.len() ==> bare_or_escaped(#[trigger] spellings[i]),
        follows(text, pos + spellings.flatten().len()),
    ensures
        name_scan(text, pos) matches Some((end, escape)) && end == pos + spellings.flatten().len()
            && (!escape ==> !spellings.flatten().contains(0x5c)),
    decreases name.len(),
{
    let all = spellings.flatten();
    let end = pos + all.len();
    if name.len() == 0 {
        assert(all =~= Seq::<u8>::empty());
    } else {
        let s = spellings[0];
        let more = spellings.drop_first();
        let others = name.drop_first();
        assert(spells(spellings[0], name[0], 0x22));
        assert(bare_or_escaped(spellings[0]));
        assert(all == s + more.flatten());
        let part = text.subrange(pos, end);
        let next = pos + s.len();
        assert(text.subrange(pos, next) =~= part.subrange(0, s.len() as int));
        assert(part.subrange(0, s.len() as int) =~= s);
        assert(text.subrange(next, end) =~= part.subrange(s.len() as int, part.len() as int));
        assert(part.subrange(s.len() as int, part.len() as int) =~= more.flatten());
        assert forall|k: int| 0 <= k < others.len() implies spells(
            more[k],
            #[trigger] others[k],
            0x22,
        ) by {
            assert(spells(spellings[k + 1], name[k + 1], 0x22));
        }
        assert forall|k: int| 0 <= k < more.len() implies bare_or_escaped(#[trigger] more[k]) by {
            assert(more[k] == spellings[k + 1]);
        }
        lemma_name_scanned(text, next, more, others);
        if s[0] == 0x5c {
            let mid = lemma_escape_ends(text, pos, s, name[0], 0x22);
            assert(name_scan(text, mid) is Some);
        } else {
            assert forall|i: int| pos <= i < next implies bare_byte(#[trigger] text[i]) by {
                lemma_bytes_at(text, pos, s, i - pos);
                assert(bare_byte(s[i - pos]));
            }
            lemma_bare(text, pos, next);
            if all.contains(0x5c) && !more.flatten().contains(0x5c) {
                let k = choose|k: int| 0 <= k < all.len() && all[k] == 0x5c;
                if k < s.len() {
                    assert(bare_byte(s[k]));
                } else {
                    assert(more.flatten()[k - s.len()] == 0x5c);
                }
            }
        }
    }
}

proof fn lemma_bytes_at(text: Seq<u8>, pos: int, core: Seq<u8>, i: int)
    requires
        0 <= pos,
        pos + core.len() <= text.len(),
        text.subrange(pos, pos + core.len()) == core,
        0 <= i < core.len(),
    ensures
        text[pos + i] == core[i],
{
    assert(text.subrange(pos, pos + core.len())[i] == text[pos + i]);
}

proof fn lemma_index_read(
    text: Seq<u8>,
    pos: int,
    core: Seq<u8>,
    index: i32,
    sign: Seq<u8>,
)
    requires
        0 <= pos,
        pos + core.len() <= text.len(),
        text.subrange(pos, pos + core.len()) == core,
        path_text(core, KeyPathModel::Index(index), sign, seq![]),
        byte_at(text, pos + core.len()) matches Some(b) ==> !(0x30 <= b <= 0x39),
    ensures
        core.len() > 0,
        path_index(text, pos) == Some((KeyPathModel::Index(index), pos + core.len())),
        core[0] == 0x2b || core[0] == 0x2d || 0x30 <= core[0] <= 0x39,
{
    let end = pos + core.len();
    let figures = core.skip(sign.len() as int);
    let first = pos + sign.len();
    assert forall|i: int| first <= i < end implies 0x30 <= #[trigger] text[i] <= 0x39 by {
        lemma_bytes_at(text, pos, core, i - pos);
        assert(figures[i - first] == core[i - pos]);
    }
    lemma_digits_end_at(text, first, end);
    lemma_spelled_in(figures);
    assert(text.subrange(first, end) =~= figures) by {
        assert forall|i: int| 0 <= i < figures.len() implies text.subrange(first, end)[i]
            == figures[i] by {
            lemma_bytes_at(text, pos, core, i + sign.len());
        }
    }
    lemma_bytes_at(text, pos, core, 0);
    if sign.len() > 0 {
        assert(core[0] == sign[0]);
    } else {
        assert(core[0] == figures[0]);
    }
}

proof fn lemma_quoted_read(
    text: Seq<u8>,
    pos: int,
    core: Seq<u8>,
    name: Seq<char>,
    spellings: Seq<Seq<u8>>,
)
    requires
        0 <= pos,
        pos + core.len() <= text.len(),
        text.subrange(pos, pos + core.len()) == core,
        path_text(core, KeyPathModel::QuotedName(name), seq![], spellings),
    ensures
        core.len() > 0,
        core[0] == 0x22,
        path_quoted_name(text, pos) == Some((KeyPathModel::QuotedName(name), pos + core.len())),
{
    let all = spellings.flatten();
    lemma_bytes_at(text, pos, core, 0);
    lemma_bytes_at(text, pos, core, core.len() - 1);
    assert(text.subrange(pos + 1, pos + 1 + all.len()) =~= all) by {
        assert forall|i: int| 0 <= i < all.len() implies text.subrange(
            pos + 1,
            pos + 1 + all.len(),
        )[i] == all[i] by {
            lemma_bytes_at(text, pos, core, i + 1);
        }
    }
    lemma_quoted_chars(text, pos + 1, spellings, name, 0x22);
    encode_utf8_valid_utf8(name);
    encode_utf8_decode_utf8(name);
}

proof fn lemma_name_read(
    text: Seq<u8>,
    pos: int,
    core: Seq<u8>,
    name: Seq<char>,
    spellings: Seq<Seq<u8>>,
)
    requires
        0 <= pos,
        pos + core.len() <= text.len(),
        text.subrange(pos, pos + core.len()) == core,
        path_text(core, KeyPathModel::Name(name), seq![], spellings),
        follows(text, pos + core.len()),
    ensures
        core.len() > 0,
        core[0] == 0x5c || bare_byte(core[0]),
        path_index(text, pos) is None,
        path_raw_name(text, pos) == Some((KeyPathModel::Name(name), pos + core.len())),
{
    let end = pos + core.len();
    lemma_name_scanned(text, pos, spellings, name);
    lemma_contents(spellings, name);
    lemma_bytes_at(text, pos, core, 0);
    lemma_first_spelling(spellings, name);
    encode_utf8_valid_utf8(name);
    encode_utf8_decode_utf8(name);
    if 0x30 <= core[0] <= 0x39 {
        assert forall|i: int| pos <= i < end implies 0x30 <= #[trigger] text[i] <= 0x39 by {
            lemma_bytes_at(text, pos, core, i - pos);
            assert(0x30 <= core[i - pos] <= 0x39);
        }
        lemma_digits_end_at(text, pos, end);
        lemma_spelled_in(core);
    } else {
        assert(digits_end(text, pos) == pos);
    }
}

/// The first byte of spelled characters is that of an escape or can stand in a name.
proof fn lemma_first_spelling(spellings: Seq<Seq<u8>>, name: Seq<char>)
    requires
        all_spelled(spellings, name, 0x22),
        spellings.flatten().len() > 0,
        forall|i: int| 0 <= i < spellings.len() ==> bare_or_escaped(#[trigger] spellings[i]),
    ensures
        spellings.flatten()[0] == 0x5c || bare_byte(spellings.flatten()[0]),
{
    if spellings.len() == 0 {
        assert(spellings.flatten() =~= Seq::<u8>::empty());
    } else {
        let s = spellings[0];
        assert(spells(spellings[0], name[0], 0x22));
        assert(bare_or_escaped(spellings[0]));
        assert(spellings.flatten() == s + spellings.drop_first().flatten());
        lemma_raw_bytes(name[0]);
        assert(s.len() > 0);
        assert(spellings.flatten()[0] == s[0]);
        if s[0] != 0x5c {
            assert(bare_byte(s[0]));
        }
    }
}

/// The text of a key path is read as it.
proof fn lemma_path_read(
    text: Seq<u8>,
    pos: int,
    core: Seq<u8>,
    path: KeyPathModel,
    sign: Seq<u8>,
    spellings: Seq<Seq<u8>>,
)
    requires
        0 <= pos,
        pos + core.len() <= text.len(),
        text.subrange(pos, pos + core.len()) == core,
        path_text(core, path, sign, spellings),
        follows(text, pos + core.len()),
    ensures
        core.len() > 0,
        path_at(text, pos) == Some((path, pos + core.len())),
        byte_at(text, pos) != Some(0x7du8),
        spaces_end(text, pos) == pos,
{
    match path {
        KeyPathModel::Index(index) => {
            lemma_index_read(text, pos, core, index, sign);
        },
        KeyPathModel::QuotedName(name) => {
            lemma_quoted_read(text, pos, core, name, spellings);
            lemma_bytes_at(text, pos, core, 0);
            assert(digits_end(text, pos) == pos);
        },
        KeyPathModel::Name(name) => {
            lemma_name_read(text, pos, core, name, spellings);
        },
    }
    lemma_bytes_at(text, pos, core, 0);
}

/// One item of a list: its text, with white space before and behind it, and how it is spelled.
pub struct Item {
    pub before: Seq<u8>,
    pub core: Seq<u8>,
    pub after: Seq<u8>,
    pub sign: Seq<u8>,
    pub spellings: Seq<Seq<u8>>,
}

/// The text of an item with the white space around it.
pub open spec fn item_text(item: Item) -> Seq<u8> {
    item.before + item.core + item.after
}

/// An item stands for a key path.
pub open spec fn item_of(item: Item, path: KeyPathModel) -> bool {
    &&& blank(item.before)
    &&& blank(item.after)
    &&& path_text(item.core, path, item.sign, item.spellings)
}

/// An item is read as its key path, up to what follows the white space behind it.
proof fn lemma_item_read(text: Seq<u8>, pos: int, item: Item, path: KeyPathModel)
    requires
        0 <= pos,
        pos + item_text(item).len() < text.len(),
        text.subrange(pos, pos + item_text(item).len()) == item_text(item),
        item_of(item, path),
        text[pos + item_text(item).len()] == 0x2c || text[pos + item_text(item).len()] == 0x7d,
    ensures
        item_text(item).len() > 0,
        byte_at(text, spaces_end(text, pos)) != Some(0x7du8),
        pos <= spaces_end(text, pos) < text.len(),
        path_at(text, spaces_end(text, pos)) matches Some((found, end)) && found == path
            && spaces_end(text, end) == pos + item_text(item).len(),
{
    let whole = item_text(item);
    let next = pos + whole.len();
    let start = pos + item.before.len();
    let end = start + item.core.len();
    let part = text.subrange(pos, next);
    assert(text.subrange(pos, start) =~= part.subrange(0, item.before.len() as int));
    assert(part.subrange(0, item.before.len() as int) =~= item.before);
    assert(text.subrange(start, end) =~= part.subrange(start - pos, end - pos));
    assert(part.subrange(start - pos, end - pos) =~= item.core);
    assert(text.subrange(end, end + item.after.len()) =~= part.subrange(
        end - pos,
        part.len() as int,
    ));
    assert(part.subrange(end - pos, part.len() as int) =~= item.after);
    lemma_blank(text, pos, item.before);
    lemma_blank(text, end, item.after);
    assert(spaces_end(text, next) == next);
    if item.after.len() > 0 {
        lemma_bytes_at(text, end, item.after, 0);
    }
    assert(follows(text, end));
    lemma_path_read(text, start, item.core, path, item.sign, item.spellings);
}

/// Items with commas between them are read as their key paths.
#[verifier::spinoff_prover]
#[verifier::rlimit(30)]
proof fn lemma_items_read(
    text: Seq<u8>,
    pos: int,
    items: Seq<Item>,
    paths: Seq<KeyPathModel>,
    done: Seq<KeyPathModel>,
    behind: Seq<u8>,
)
    requires
        items.len() > 0,
        items.len() == paths.len(),
        forall|i: int| 0 <= i < items.len() ==> item_of(items[i], #[trigger] paths[i]),
        blank(behind),
        0 <= pos <= text.len(),
        text.subrange(pos, text.len() as int) == joined(
            items.map_values(|item: Item| item_text(item)),
        ).push(0x7d) + behind,
    ensures
        byte_at(text, spaces_end(text, pos)) != Some(0x7du8),
        paths_from(text, spaces_end(text, pos), done) == Some(done + paths),
    decreases items.len(),
{
    let texts = items.map_values(|item: Item| item_text(item));
    let rest = text.subrange(pos, text.len() as int);
    let inner = joined(texts).push(0x7d);
    let len = pos + inner.len();
    let head = text.take(len);
    assert(rest.len() == text.len() - pos);
    assert(head.subrange(pos, len) =~= rest.subrange(0, inner.len() as int));
    assert(rest.subrange(0, inner.len() as int) =~= inner);
    lemma_first_text(texts, head, pos, 0x7d);
    let item = items[0];
    let path = paths[0];
    let next = pos + item_text(item).len();
    assert(item_of(items[0], paths[0]));
    assert(texts[0] == item_text(item));
    assert(text.subrange(pos, next) =~= head.subrange(pos, next));
    assert(text[next] == head[next]);
    lemma_item_read(text, pos, item, path);
    let start = spaces_end(text, pos);
    let now = done.push(path);
    if items.len() == 1 {
        assert(text.subrange(next + 1, next + 1 + behind.len()) =~= behind) by {
            assert(text.subrange(next + 1, text.len() as int) =~= rest.subrange(
                inner.len() as int,
                rest.len() as int,
            ));
            assert(rest.subrange(inner.len() as int, rest.len() as int) =~= behind);
        }
        lemma_blank(text, next + 1, behind);
        assert(spaces_end(text, text.len() as int) == text.len());
        assert(now =~= done + paths);
    } else {
        let more = items.drop_first();
        let others = paths.drop_first();
        assert forall|i: int| 0 <= i < more.len() implies item_of(
            more[i],
            #[trigger] others[i],
        ) by {
            assert(item_of(items[i + 1], paths[i + 1]));
        }
        assert(more.map_values(|item: Item| item_text(item)) =~= texts.drop_first());
        assert(text.subrange(next + 1, text.len() as int) =~= joined(texts.drop_first()).push(0x7d)
            + behind) by {
            let a = head.subrange(next + 1, len);
            assert(text.subrange(next + 1, text.len() as int) =~= a + rest.subrange(
                inner.len() as int,
                rest.len() as int,
            ));
            assert(rest.subrange(inner.len() as int, rest.len() as int) =~= behind);
        }
        lemma_items_read(text, next + 1, more, others, now, behind);
        lemma_path_advances(text, start);
        lemma_spaces_end(text, next + 1);
        assert(now + others =~= done + paths);
    }
}

/// A list of key paths in braces is read as those paths, each item as the index or the name that it
/// spells, with white space allowed before and behind every item and brace.
pub proof fn law_key_path_list(
    items: Seq<Item>,
    paths: Seq<KeyPathModel>,
    before: Seq<u8>,
    behind: Seq<u8>,
)
    requires
        items.len() == paths.len(),
        items.len() > 0,
        forall|i: int| 0 <= i < items.len() ==> item_of(items[i], #[trigger] paths[i]),
        blank(before),
        blank(behind),
    ensures
        parsed_key_paths(
            before + seq![0x7bu8] + joined(items.map_values(|item: Item| item_text(item))).push(
                0x7d,
            ) + behind,
        ) == Some(paths),
{
    let inner = joined(items.map_values(|item: Item| item_text(item))).push(0x7d);
    let text = before + seq![0x7bu8] + inner + behind;
    let open = before.len() as int;
    assert(text.subrange(0, open) =~= before);
    lemma_blank(text, 0, before);
    assert(text[open] == 0x7b);
    assert(spaces_end(text, open) == open);
    assert(text.subrange(open + 1, text.len() as int) =~= inner + behind);
    lemma_items_read(text, open + 1, items, paths, seq![], behind);
    assert(Seq::<KeyPathModel>::empty() + paths =~= paths);
}

/// Braces with nothing but white space in them are the empty list.
pub proof fn law_empty_list(before: Seq<u8>, inside: Seq<u8>, behind: Seq<u8>)
    requires
        blank(before),
        blank(inside),
        blank(behind),
    ensures
        parsed_key_paths(before + seq![0x7bu8] + inside + seq![0x7du8] + behind) == Some(
            Seq::<KeyPathModel>::empty(),
        ),
{
    let text = before + seq![0x7bu8] + inside + seq![0x7du8] + behind;
    let open = before.len() as int;
    let close = open + 1 + inside.len();
    assert(text.subrange(0, open) =~= before);
    assert(text.subrange(open + 1, open + 1 + inside.len()) =~= inside);
    assert(text.subrange(close + 1, close + 1 + behind.len()) =~= behind);
    assert(text[open] == 0x7b && text[close] == 0x7d);
    lemma_blank(text, 0, before);
    lemma_blank(text, open + 1, inside);
    lemma_blank(text, close + 1, behind);
    assert(spaces_end(text, open) == open);
    assert(spaces_end(text, close) == close);
    assert(spaces_end(text, text.len() as int) == text.len());
}

/// A list that does not start with a brace, or whose last character is none, is refused, white
/// space aside.
pub proof fn law_list_in_braces(text: Seq<u8>)
    requires
        parsed_key_paths(text) is Some,
    ensures
        exists|i: int, j: int|
            0 <= i < j < text.len() && #[trigger] text[i] == 0x7b && #[trigger] text[j] == 0x7d
                && blank(text.take(i)) && blank(text.skip(j + 1)),
{
    let open = spaces_end(text, 0);
    lemma_blank_run(text, 0);
    lemma_spaces_end(text, 0);
    lemma_spaces_end(text, open + 1);
    let first = spaces_end(text, open + 1);
    let close = if byte_at(text, first) == Some(0x7du8) {
        lemma_blank_run(text, first + 1);
        first
    } else {
        lemma_closed(text, first, seq![])
    };
    assert(text.take(open) =~= text.subrange(0, open));
    assert(text.skip(close + 1) =~= text.subrange(close + 1, text.len() as int));
    assert(text[open] == 0x7b && text[close] == 0x7d);
}

proof fn lemma_blank_run(text: Seq<u8>, pos: int)
    requires
        0 <= pos <= text.len(),
    ensures
        pos <= spaces_end(text, pos) <= text.len(),
        blank(text.subrange(pos, spaces_end(text, pos))),
    decreases text.len() - pos,
{
    if pos < text.len() && is_space(text[pos]) {
        lemma_blank_run(text, pos + 1);
        let run = text.subrange(pos, spaces_end(text, pos));
        let more = text.subrange(pos + 1, spaces_end(text, pos));
        assert forall|i: int| 0 <= i < run.len() implies #[trigger] run[i] == 0x20 || run[i] == 0x09
            || run[i] == 0x0d || run[i] == 0x0a by {
            if i > 0 {
                assert(run[i] == more[i - 1]);
            }
        }
    }
}

proof fn lemma_closed(text: Seq<u8>, pos: int, paths: Seq<KeyPathModel>) -> (close: int)
    requires
        0 <= pos,
        paths_from(text, pos, paths) is Some,
    ensures
        pos <= close < text.len(),
        text[close] == 0x7d,
        blank(text.subrange(close + 1, text.len() as int)),
    decreases text.len() - pos,
{
    let end = path_at(text, pos)->Some_0.1;
    let next = spaces_end(text, end);
    lemma_path_advances(text, pos);
    lemma_spaces_end(text, end);
    lemma_spaces_end(text, next + 1);
    if byte_at(text, next) == Some(0x2cu8) {
        lemma_closed(text, spaces_end(text, next + 1), paths.push(path_at(text, pos)->Some_0.0))
    } else {
        lemma_blank_run(text, next + 1);
        next
    }
}

proof fn lemma_encoded_concat(a: Seq<char>, b: Seq<char>)
    ensures
        encode_utf8(a + b) == encode_utf8(a) + encode_utf8(b),
    decreases a.len(),
{
    if a.len() == 0 {
        assert(a + b =~= b);
        assert(encode_utf8(a) + encode_utf8(b) =~= encode_utf8(b));
    } else {
        assert((a + b).drop_first() =~= a.drop_first() + b);
        lemma_encoded_concat(a.drop_first(), b);
        assert(encode_utf8(a + b) =~= encode_utf8(a) + encode_utf8(b));
    }
}

/// Characters of ASCII are their own bytes.
proof fn lemma_encoded_ascii(chars: Seq<char>)
    requires
        forall|i: int| 0 <= i < chars.len() ==> #[trigger] chars[i] as int <= 0x7f,
    ensures
        encode_utf8(chars).len() == chars.len(),
        forall|i: int|
            0 <= i < chars.len() ==> #[trigger] encode_utf8(chars)[i] as int == chars[i] as int,
    decreases chars.len(),
{
    if chars.len() > 0 {
        let c = chars[0];
        let rest = chars.drop_first();
        assert forall|i: int| 0 <= i < rest.len() implies #[trigger] rest[i] as int <= 0x7f by {
            assert(rest[i] == chars[i + 1]);
        }
        lemma_encoded_ascii(rest);
        lemma_raw_bytes(c);
        lemma_encoded_concat(seq![c], rest);
        assert(seq![c] + rest =~= chars);
        assert forall|i: int| 0 <= i < chars.len() implies #[trigger] encode_utf8(chars)[i] as int
            == chars[i] as int by {
            if i > 0 {
                assert(encode_utf8(chars)[i] == encode_utf8(rest)[i - 1]);
                assert(rest[i - 1] == chars[i]);
            }
        }
    }
}

proof fn lemma_figures_spell(chars: Seq<char>, figures: Seq<u8>)
    requires
        decimal_chars(chars),
        figures.len() == chars.len(),
        forall|i: int| 0 <= i < chars.len() ==> #[trigger] figures[i] as int == chars[i] as int,
    ensures
        decimal_figures(figures),
        spelled_in(figures, 10) == spelled_number(chars),
    decreases chars.len(),
{
    assert forall|i: int| 0 <= i < figures.len() implies 0x30 <= #[trigger] figures[i] <= 0x39 by {
        assert(0x30 <= chars[i] as int <= 0x39);
    }
    if chars.len() > 0 {
        let a = chars.drop_last();
        let b = figures.drop_last();
        assert forall|i: int| 0 <= i < a.len() implies 0x30 <= #[trigger] a[i] as int <= 0x39 by {
            assert(a[i] == chars[i]);
        }
        assert forall|i: int| 0 <= i < a.len() implies #[trigger] b[i] as int == a[i] as int by {
            assert(b[i] == figures[i] && a[i] == chars[i]);
        }
        lemma_figures_spell(a, b);
        assert(figures[figures.len() - 1] as int == chars[chars.len() - 1] as int);
        assert(0x30 <= chars[chars.len() - 1] as int <= 0x39);
    }
}

/// The decimal text of an index stands for it.
proof fn lemma_shown_index(index: i32) -> (sign: Seq<u8>)
    ensures
        path_text(
            encode_utf8(int_text(index as int)),
            KeyPathModel::Index(index),
            sign,
            seq![],
        ),
{
    let shown = int_text(index as int);
    law_index_text(index as int);
    let sign: Seq<u8> = if index < 0 {
        seq![0x2du8]
    } else {
        seq![]
    };
    let n = sign.len() as int;
    let digits = shown.skip(n);
    assert(index >= 0 ==> digits =~= shown);
    let text = encode_utf8(shown);
    assert forall|i: int| 0 <= i < shown.len() implies #[trigger] shown[i] as int <= 0x7f by {
        if i >= n {
            assert(shown[i] == digits[i - n]);
        }
    }
    lemma_encoded_ascii(shown);
    let figures = text.skip(n);
    assert forall|i: int| 0 <= i < digits.len() implies #[trigger] figures[i] as int
        == digits[i] as int by {
        assert(figures[i] == text[i + n] && digits[i] == shown[i + n]);
    }
    lemma_figures_spell(digits, figures);
    assert(text =~= sign + figures) by {
        if n > 0 {
            assert(text[0] as int == shown[0] as int);
        }
    }
    sign
}

/// Each index, written in decimal, is the only key path of the list that holds it alone.
pub proof fn law_index_in_a_list(index: i32)
    ensures
        parsed_key_paths(seq![0x7bu8] + encode_utf8(int_text(index as int)) + seq![0x7du8]) == Some(
            seq![KeyPathModel::Index(index)],
        ),
{
    let sign = lemma_shown_index(index);
    let core = encode_utf8(int_text(index as int));
    let none = Seq::<u8>::empty();
    let item = Item { before: none, core, after: none, sign, spellings: seq![] };
    let items = seq![item];
    let texts = items.map_values(|item: Item| item_text(item));
    assert(item_text(item) =~= core);
    assert(texts[0] == item_text(item));
    assert(joined(texts) =~= core);
    law_key_path_list(items, seq![KeyPathModel::Index(index)], none, none);
    assert(none + seq![0x7bu8] + joined(texts).push(0x7d) + none =~= seq![0x7bu8] + core
        + seq![0x7du8]);
}

/// A key path that can be read back as it is shown: its name, without quotes, is made of bytes that
/// can stand so and starts with no digit; in quotes, it holds neither a double quote nor a
/// backslash.
pub open spec fn shows_plainly(path: KeyPathModel) -> bool {
    match path {
        KeyPathModel::Index(_) => true,
        KeyPathModel::QuotedName(name) => forall|i: int|
            0 <= i < name.len() ==> #[trigger] name[i] as int != 0x22 && name[i] as int != 0x5c,
        KeyPathModel::Name(name) => {
            let text = encode_utf8(name);
            &&& text.len() > 0
            &&& !(0x30 <= text[0] <= 0x39)
            &&& forall|i: int| 0 <= i < text.len() ==> bare_byte(#[trigger] text[i])
        },
    }
}

/// Characters spell themselves.
proof fn lemma_own_spelling(name: Seq<char>) -> (spellings: Seq<Seq<u8>>)
    requires
        forall|i: int|
            0 <= i < name.len() ==> #[trigger] name[i] as int != 0x22 && name[i] as int != 0x5c,
    ensures
        all_spelled(spellings, name, 0x22),
        spellings.flatten() == encode_utf8(name),
    decreases name.len(),
{
    if name.len() == 0 {
        let spellings = Seq::<Seq<u8>>::empty();
        assert(spellings.flatten() =~= encode_utf8(name));
        spellings
    } else {
        let rest = name.drop_first();
        assert forall|i: int| 0 <= i < rest.len() implies #[trigger] rest[i] as int != 0x22
            && rest[i] as int != 0x5c by {
            assert(rest[i] == name[i + 1]);
        }
        let more = lemma_own_spelling(rest);
        let own = encode_utf8(seq![name[0]]);
        let spellings = seq![own] + more;
        assert(spellings.drop_first() =~= more);
        assert(spellings[0] == own);
        assert(seq![name[0]] + rest =~= name);
        lemma_encoded_concat(seq![name[0]], rest);
        assert(spellings.flatten() =~= own + more.flatten());
        assert forall|i: int| 0 <= i < name.len() implies spells(
            spellings[i],
            #[trigger] name[i],
            0x22,
        ) by {
            if i > 0 {
                assert(rest[i - 1] == name[i]);
                assert(spells(more[i - 1], rest[i - 1], 0x22));
            } else {
                assert(name[0] as int != 0x22);
            }
        }
        spellings
    }
}

/// Characters whose bytes can stand in a name spell themselves there.
proof fn lemma_bare_spelling(name: Seq<char>) -> (spellings: Seq<Seq<u8>>)
    requires
        forall|i: int|
            0 <= i < encode_utf8(name).len() ==> bare_byte(#[trigger] encode_utf8(name)[i]),
    ensures
        all_spelled(spellings, name, 0x22),
        spellings.flatten() == encode_utf8(name),
        forall|i: int| 0 <= i < spellings.len() ==> bare_or_escaped(#[trigger] spellings[i]),
    decreases name.len(),
{
    if name.len() == 0 {
        let spellings = Seq::<Seq<u8>>::empty();
        assert(spellings.flatten() =~= encode_utf8(name));
        spellings
    } else {
        let c = name[0];
        let rest = name.drop_first();
        let own = encode_utf8(seq![c]);
        assert(seq![c] + rest =~= name);
        lemma_encoded_concat(seq![c], rest);
        lemma_raw_bytes(c);
        assert forall|i: int| 0 <= i < encode_utf8(rest).len() implies bare_byte(
            #[trigger] encode_utf8(rest)[i],
        ) by {
            assert(bare_byte(encode_utf8(name)[i + own.len()]));
        }
        assert forall|i: int| 0 <= i < own.len() implies bare_byte(#[trigger] own[i]) by {
            assert(bare_byte(encode_utf8(name)[i]));
        }
        assert(bare_byte(own[0]));
        let more = lemma_bare_spelling(rest);
        let spellings = seq![own] + more;
        assert(spellings.drop_first() =~= more);
        assert(spellings[0] == own);
        assert(spellings.flatten() =~= own + more.flatten());
        assert forall|i: int| 0 <= i < name.len() implies spells(
            spellings[i],
            #[trigger] name[i],
            0x22,
        ) by {
            if i > 0 {
                assert(rest[i - 1] == name[i]);
                assert(spells(more[i - 1], rest[i - 1], 0x22));
            }
        }
        assert forall|i: int| 0 <= i < spellings.len() implies bare_or_escaped(
            #[trigger] spellings[i],
        ) by {
            if i > 0 {
                assert(bare_or_escaped(more[i - 1]));
            }
        }
        spellings
    }
}

proof fn lemma_shown_item(path: KeyPathModel) -> (item: Item)
    requires
        shows_plainly(path),
    ensures
        item_of(item, path),
        item_text(item) == encode_utf8(key_path_text(path)),
{
    let none = Seq::<u8>::empty();
    let core = encode_utf8(key_path_text(path));
    let item = match path {
        KeyPathModel::Index(index) => {
            let sign = lemma_shown_index(index);
            Item { before: none, core, after: none, sign, spellings: seq![] }
        },
        KeyPathModel::QuotedName(name) => {
            let spellings = lemma_own_spelling(name);
            lemma_encoded_concat(seq!['"'] + name, seq!['"']);
            lemma_encoded_concat(seq!['"'], name);
            lemma_raw_bytes('"');
            assert(core =~= seq![0x22u8] + spellings.flatten() + seq![0x22u8]);
            Item { before: none, core, after: none, sign: seq![], spellings }
        },
        KeyPathModel::Name(name) => {
            let spellings = lemma_bare_spelling(name);
            Item { before: none, core, after: none, sign: seq![], spellings }
        },
    };
    assert(item_text(item) =~= core);
    item
}

proof fn lemma_shown_items(paths: Seq<KeyPathModel>) -> (items: Seq<Item>)
    requires
        forall|i: int| 0 <= i < paths.len() ==> shows_plainly(#[trigger] paths[i]),
    ensures
        items.len() == paths.len(),
        forall|i: int| 0 <= i < items.len() ==> item_of(items[i], #[trigger] paths[i]),
        joined(items.map_values(|item: Item| item_text(item))) == encode_utf8(joined_text(paths)),
    decreases paths.len(),
{
    if paths.len() == 0 {
        let items = Seq::<Item>::empty();
        assert(joined(items.map_values(|item: Item| item_text(item))) =~= encode_utf8(
            joined_text(paths),
        ));
        items
    } else {
        let front = paths.drop_last();
        assert forall|i: int| 0 <= i < front.len() implies shows_plainly(#[trigger] front[i]) by {
            assert(front[i] == paths[i]);
        }
        let before = lemma_shown_items(front);
        let n = front.len() as int;
        assert(shows_plainly(paths[n]));
        let item = lemma_shown_item(paths[n]);
        let items = before.push(item);
        assert forall|i: int| 0 <= i < items.len() implies item_of(
            items[i],
            #[trigger] paths[i],
        ) by {
            if i < n {
                assert(item_of(before[i], front[i]));
            }
        }
        let texts = before.map_values(|item: Item| item_text(item));
        assert(items.map_values(|item: Item| item_text(item)) =~= texts.push(item_text(item)));
        lemma_joined_push(texts, item_text(item));
        if n == 0 {
            assert(paths[0] == paths[n]);
        } else {
            lemma_encoded_concat(joined_text(front) + seq![','], key_path_text(paths[n]));
            lemma_encoded_concat(joined_text(front), seq![',']);
            lemma_raw_bytes(',');
        }
        items
    }
}

proof fn lemma_joined_push(texts: Seq<Seq<u8>>, text: Seq<u8>)
    ensures
        joined(texts.push(text)) == if texts.len() == 0 {
            text
        } else {
            joined(texts) + seq![0x2cu8] + text
        },
    decreases texts.len(),
{
    let all = texts.push(text);
    if texts.len() > 0 {
        assert(all.drop_first() =~= texts.drop_first().push(text));
        lemma_joined_push(texts.drop_first(), text);
        assert(joined(all) =~= joined(texts) + seq![0x2cu8] + text);
    }
}

/// A list of key paths is read back from how it is shown.
pub proof fn law_shown_list_is_read_back(paths: Seq<KeyPathModel>)
    requires
        forall|i: int| 0 <= i < paths.len() ==> shows_plainly(#[trigger] paths[i]),
    ensures
        parsed_key_paths(encode_utf8(key_paths_text(paths))) == Some(paths),
{
    let none = Seq::<u8>::empty();
    let items = lemma_shown_items(paths);
    let texts = items.map_values(|item: Item| item_text(item));
    let shown = encode_utf8(key_paths_text(paths));
    lemma_encoded_concat(seq!['{'] + joined_text(paths), seq!['}']);
    lemma_encoded_concat(seq!['{'], joined_text(paths));
    lemma_raw_bytes('{');
    lemma_raw_bytes('}');
    assert(shown =~= seq![0x7bu8] + joined(texts) + seq![0x7du8]);
    if paths.len() > 0 {
        law_key_path_list(items, paths, none, none);
        assert(none + seq![0x7bu8] + joined(texts).push(0x7d) + none =~= shown);
    } else {
        law_empty_list(none, none, none);
        assert(joined(texts) =~= none);
        assert(none + seq![0x7bu8] + none + seq![0x7du8] + none =~= shown);
        assert(paths =~= Seq::<KeyPathModel>::empty());
    }
}

proof fn lemma_empty_item_refused(
    text: Seq<u8>,
    pos: int,
    texts: Seq<Seq<u8>>,
    items: Seq<Item>,
    paths: Seq<KeyPathModel>,
    k: int,
    done: Seq<KeyPathModel>,
    behind: Seq<u8>,
)
    requires
        0 <= k < texts.len(),
        items.len() == k,
        paths.len() == k,
        forall|i: int|
            0 <= i < k ==> item_of(items[i], #[trigger] paths[i]) && texts[i] == item_text(items[i]),
        blank(texts[k]),
        0 <= pos <= text.len(),
        text.subrange(pos, text.len() as int) == joined(texts).push(0x7d) + behind,
    ensures
        paths_from(text, spaces_end(text, pos), done) is None,
        texts.len() > 1 ==> byte_at(text, spaces_end(text, pos)) != Some(0x7du8),
    decreases k,
{
    let rest = text.subrange(pos, text.len() as int);
    let inner = joined(texts).push(0x7d);
    let len = pos + inner.len();
    let head = text.take(len);
    assert(rest.len() == text.len() - pos);
    assert(head.subrange(pos, len) =~= rest.subrange(0, inner.len() as int));
    assert(rest.subrange(0, inner.len() as int) =~= inner);
    lemma_first_text(texts, head, pos, 0x7d);
    let next = pos + texts[0].len();
    assert(text.subrange(pos, next) =~= head.subrange(pos, next));
    assert(text[next] == head[next]);
    if k == 0 {
        lemma_blank(text, pos, texts[0]);
        assert(spaces_end(text, next) == next);
        assert(digits_end(text, next) == next);
        assert(name_scan(text, next) == Some((next, false)));
        assert(path_at(text, next) is None);
    } else {
        let item = items[0];
        let path = paths[0];
        assert(item_of(items[0], paths[0]));
        lemma_item_read(text, pos, item, path);
        lemma_path_advances(text, spaces_end(text, pos));
        lemma_spaces_end(text, next + 1);
        let more = texts.drop_first();
        let more_items = items.drop_first();
        let others = paths.drop_first();
        assert forall|i: int| 0 <= i < k - 1 implies item_of(more_items[i], #[trigger] others[i])
            && more[i] == item_text(more_items[i]) by {
            assert(item_of(items[i + 1], paths[i + 1]));
        }
        assert(text.subrange(next + 1, text.len() as int) =~= joined(more).push(0x7d) + behind) by {
            let a = head.subrange(next + 1, len);
            assert(text.subrange(next + 1, text.len() as int) =~= a + rest.subrange(
                inner.len() as int,
                rest.len() as int,
            ));
            assert(rest.subrange(inner.len() as int, rest.len() as int) =~= behind);
        }
        lemma_empty_item_refused(
            text,
            next + 1,
            more,
            more_items,
            others,
            k - 1,
            done.push(path),
            behind,
        );
    }
}

/// A list with an item that is left out, between commas or before or behind one, is refused: `k`
/// is the place of the first such item.
pub proof fn law_no_empty_item(
    texts: Seq<Seq<u8>>,
    items: Seq<Item>,
    paths: Seq<KeyPathModel>,
    k: int,
    before: Seq<u8>,
    behind: Seq<u8>,
)
    requires
        texts.len() > 1,
        0 <= k < texts.len(),
        items.len() == k,
        paths.len() == k,
        forall|i: int|
            0 <= i < k ==> item_of(items[i], #[trigger] paths[i]) && texts[i] == item_text(items[i]),
        blank(texts[k]),
        blank(before),
    ensures
        parsed_key_paths(before + seq![0x7bu8] + joined(texts).push(0x7d) + behind) is None,
{
    let inner = joined(texts).push(0x7d);
    let text = before + seq![0x7bu8] + inner + behind;
    let open = before.len() as int;
    assert(text.subrange(0, open) =~= before);
    lemma_blank(text, 0, before);
    assert(text[open] == 0x7b);
    assert(spaces_end(text, open) == open);
    assert(text.subrange(open + 1, text.len() as int) =~= inner + behind);
    lemma_empty_item_refused(text, open + 1, texts, items, paths, k, seq![], behind);
}

proof fn lemma_item_laid_out(before: Seq<u8>, item: Item, b: u8, rest: Seq<u8>)
    ensures
        ({
            let text = before + seq![0x7bu8] + item_text(item) + seq![b] + rest;
            let open = before.len() as int;
            let start = open + 1 + item.before.len();
            let end = start + item.core.len();
            let next = end + item.after.len();
            &&& next < text.len()
            &&& text.subrange(0, open) == before
            &&& text[open] == 0x7b
            &&& text.subrange(open + 1, start) == item.before
            &&& text.subrange(start, end) == item.core
            &&& text.subrange(end, next) == item.after
            &&& text[next] == b
        }),
{
    let text = before + seq![0x7bu8] + item_text(item) + seq![b] + rest;
    let open = before.len() as int;
    let start = open + 1 + item.before.len();
    let end = start + item.core.len();
    let next = end + item.after.len();
    assert(text.subrange(0, open) =~= before);
    assert(text.subrange(open + 1, start) =~= item.before);
    assert(text.subrange(start, end) =~= item.core);
    assert(text.subrange(end, next) =~= item.after);
}

proof fn lemma_lone_item_read(text: Seq<u8>, start: int, item: Item, path: KeyPathModel)
    requires
        item_of(item, path),
        0 <= start,
        start + item.core.len() + item.after.len() < text.len(),
        text.subrange(start, start + item.core.len()) == item.core,
        text.subrange(
            start + item.core.len(),
            start + item.core.len() + item.after.len(),
        ) == item.after,
        ({
            let b = text[start + item.core.len() + item.after.len()];
            &&& !(0x30 <= b <= 0x39)
            &&& b != 0x5c
            &&& path is Index || item.after.len() > 0 || !bare_byte(b)
        }),
    ensures
        spaces_end(text, start) == start,
        path_at(text, start) == Some((path, start + item.core.len())),
{
    let end = start + item.core.len();
    if item.after.len() > 0 {
        lemma_bytes_at(text, end, item.after, 0);
    }
    match path {
        KeyPathModel::Index(index) => {
            lemma_index_read(text, start, item.core, index, item.sign);
            lemma_bytes_at(text, start, item.core, 0);
        },
        _ => {
            lemma_path_read(text, start, item.core, path, item.sign, item.spellings);
        },
    }
}

/// Behind the first key path of a list, white space aside, there is a comma or the closing brace: a
/// list that goes on otherwise is refused. A name ends before any of the characters that cannot
/// stand in it, and an index before any that is no digit.
#[verifier::spinoff_prover]
#[verifier::rlimit(30)]
pub proof fn law_nothing_else_behind_a_path(
    before: Seq<u8>,
    item: Item,
    path: KeyPathModel,
    b: u8,
    rest: Seq<u8>,
)
    requires
        blank(before),
        item_of(item, path),
        !(0x30 <= b <= 0x39),
        path is Index || item.after.len() > 0 || !bare_byte(b),
        b != 0x20 && b != 0x09 && b != 0x0d && b != 0x0a && b != 0x2c && b != 0x7d && b != 0x5c,
    ensures
        parsed_key_paths(before + seq![0x7bu8] + item_text(item) + seq![b] + rest) is None,
{
    let text = before + seq![0x7bu8] + item_text(item) + seq![b] + rest;
    let open = before.len() as int;
    let start = open + 1 + item.before.len();
    let end = start + item.core.len();
    let next = end + item.after.len();
    lemma_item_laid_out(before, item, b, rest);
    lemma_blank(text, 0, before);
    lemma_blank(text, open + 1, item.before);
    lemma_blank(text, end, item.after);
    assert(spaces_end(text, open) == open);
    assert(spaces_end(text, next) == next);
    lemma_lone_item_read(text, start, item, path);
}

/// No key path starts with a character that cannot stand in a name, the double quote and the
/// backslash aside, unless it is the sign of an integer of 32 bits.
#[verifier::spinoff_prover]
#[verifier::rlimit(30)]
pub proof fn law_no_path_starts_so(before: Seq<u8>, w: Seq<u8>, b: u8, figures: Seq<u8>, rest: Seq<u8>)
    requires
        blank(before),
        blank(w),
        !bare_byte(b) && b != 0x22 && b != 0x5c && b != 0x20 && b != 0x09 && b != 0x0d && b != 0x0a
            && b != 0x7d,
        decimal_figures(figures),
        rest.len() > 0 ==> !(0x30 <= rest[0] <= 0x39),
        b == 0x2b ==> figures.len() == 0 || spelled_in(figures, 10) > 0x7fff_ffff,
        b == 0x2d ==> figures.len() == 0 || spelled_in(figures, 10) > 0x8000_0000,
    ensures
        parsed_key_paths(before + seq![0x7bu8] + w + seq![b] + figures + rest) is None,
{
    let text = before + seq![0x7bu8] + w + seq![b] + figures + rest;
    let open = before.len() as int;
    let start = open + 1 + w.len();
    let first = start + 1;
    let end = first + figures.len();
    assert(text.subrange(0, open) =~= before);
    assert(text.subrange(open + 1, start) =~= w);
    assert(text.subrange(first, end) =~= figures);
    assert(text[open] == 0x7b && text[start] == b);
    assert(rest.len() > 0 ==> text[end] == rest[0]);
    lemma_blank(text, 0, before);
    assert(spaces_end(text, open) == open);
    lemma_blank(text, open + 1, w);
    assert(spaces_end(text, start) == start);
    assert forall|i: int| first <= i < end implies 0x30 <= #[trigger] text[i] <= 0x39 by {
        assert(text[i] == figures[i - first]);
    }
    lemma_digits_end_at(text, first, end);
    lemma_spelled_in(figures);
    assert(digits_end(text, start) == start);
    assert(path_index(text, start) is None);
    assert(name_scan(text, start) == Some((start, false)));
    assert(path_at(text, start) is None);
}

} // verus!
