//! Reading a list of key paths: `{0, name, "quoted name"}`.

use std::borrow::Cow;

use vstd::prelude::*;
use vstd::slice::slice_subrange;
use vstd::utf8::{decode_utf8, encode_utf8_decode_utf8, valid_utf8};

use crate::ascii::{BACKSLASH, CLOSE_BRACE, COMMA, MINUS, OPEN_BRACE, PLUS, QUOTE};
use crate::error::{Error, ErrorModel};
use crate::escape::{escaped_string, lemma_decoded, parse_string, str_from_utf8};
use crate::keypath::{key_path_models, KeyPath, KeyPathModel, KeyPaths};
use crate::scan::{
    byte_at, decimal_value, digits_end, escape_end, lemma_digits_end, lemma_string_scan,
    scan_integer_digits_u64, scan_string, skip_escape, string_scan,
};

verus! {

/// The whitespace between key paths: space, tab, carriage return and line feed.
pub open spec fn is_space(byte: u8) -> bool {
    byte == 0x20 || byte == 0x09 || byte == 0x0d || byte == 0x0a
}

/// The first offset from `pos` on whose byte is not such whitespace.
pub open spec fn spaces_end(text: Seq<u8>, pos: int) -> int
    decreases text.len() - pos,
{
    if 0 <= pos < text.len() && is_space(text[pos]) {
        spaces_end(text, pos + 1)
    } else {
        pos
    }
}

/// An index: decimal digits with or without a sign, as far as they fit in 32 bits.
pub open spec fn path_index(text: Seq<u8>, pos: int) -> Option<(KeyPathModel, int)> {
    let negative = byte_at(text, pos) == Some(MINUS);
    let first = if negative || byte_at(text, pos) == Some(PLUS) {
        pos + 1
    } else {
        pos
    };
    let end = digits_end(text, first);
    let magnitude = decimal_value(text.subrange(first, end));
    let index = if negative {
        -magnitude
    } else {
        magnitude as int
    };
    if end == first || index < i32::MIN || index > i32::MAX {
        None
    } else {
        Some((KeyPathModel::Index(index as i32), end))
    }
}

/// The characters that bytes stand for, with or without escapes among them.
pub open spec fn path_name(data: Seq<u8>, has_escape: bool) -> Option<Seq<char>> {
    if has_escape {
        match escaped_string(data, 0) {
            Ok(bytes) => Some(decode_utf8(bytes)),
            Err(_) => None,
        }
    } else if valid_utf8(data) {
        Some(decode_utf8(data))
    } else {
        None
    }
}

/// A name in double quotes.
pub open spec fn path_quoted_name(text: Seq<u8>, pos: int) -> Option<(KeyPathModel, int)> {
    if byte_at(text, pos) != Some(QUOTE) {
        None
    } else {
        match string_scan(text, pos + 1, QUOTE, false) {
            Err(_) => None,
            Ok((end, has_escape)) => match path_name(text.subrange(pos + 1, end), has_escape) {
                Some(name) => Some((KeyPathModel::QuotedName(name), end + 1)),
                None => None,
            },
        }
    }
}

/// A byte that ends a name without quotes: whitespace or one of `.:[](){},?@$|<>!=+-*/%"'`.
pub open spec fn is_name_delimiter(byte: u8) -> bool {
    is_space(byte) || byte == 0x2e || byte == 0x3a || byte == 0x5b || byte == 0x5d || byte == 0x28
        || byte == 0x29 || byte == 0x7b || byte == 0x7d || byte == 0x2c || byte == 0x3f || byte
        == 0x40 || byte == 0x24 || byte == 0x7c || byte == 0x3c || byte == 0x3e || byte == 0x21
        || byte == 0x3d || byte == 0x2b || byte == 0x2d || byte == 0x2a || byte == 0x2f || byte
        == 0x25 || byte == 0x22 || byte == 0x27
}

/// The end of a name without quotes and whether there is an escape in it: the first delimiter
/// outside an escape, or the end of the text.
pub open spec fn name_scan(text: Seq<u8>, pos: int) -> Option<(int, bool)>
    decreases text.len() - pos,
{
    if pos < 0 || pos >= text.len() {
        Some((pos, false))
    } else if text[pos] == BACKSLASH {
        match escape_end(text, pos) {
            Some(next) => match name_scan(text, next) {
                Some((end, _)) => Some((end, true)),
                None => None,
            },
            None => None,
        }
    } else if is_name_delimiter(text[pos]) {
        Some((pos, false))
    } else {
        name_scan(text, pos + 1)
    }
}

/// A name without quotes.
pub open spec fn path_raw_name(text: Seq<u8>, pos: int) -> Option<(KeyPathModel, int)> {
    match name_scan(text, pos) {
        None => None,
        Some((end, has_escape)) => if end == pos {
            None
        } else {
            match path_name(text.subrange(pos, end), has_escape) {
                Some(name) => Some((KeyPathModel::Name(name), end)),
                None => None,
            }
        },
    }
}

/// A key path: an index if there is one, else a name in quotes, else a name without.
pub open spec fn path_at(text: Seq<u8>, pos: int) -> Option<(KeyPathModel, int)> {
    match path_index(text, pos) {
        Some(found) => Some(found),
        None => match path_quoted_name(text, pos) {
            Some(found) => Some(found),
            None => path_raw_name(text, pos),
        },
    }
}

/// The key paths from `pos` on up to the closing brace; `paths` are those before it. Behind the
/// brace there is nothing but whitespace.
pub open spec fn paths_from(text: Seq<u8>, pos: int, paths: Seq<KeyPathModel>) -> Option<
    Seq<KeyPathModel>,
>
    decreases text.len() - pos,
{
    match path_at(text, pos) {
        None => None,
        Some((path, end)) => {
            let next = spaces_end(text, end);
            if byte_at(text, next) == Some(COMMA) {
                proof {
                    lemma_path_advances(text, pos);
                    lemma_spaces_end(text, end);
                    lemma_spaces_end(text, next + 1);
                }
                paths_from(text, spaces_end(text, next + 1), paths.push(path))
            } else if byte_at(text, next) == Some(CLOSE_BRACE) && spaces_end(text, next + 1)
                == text.len() {
                Some(paths.push(path))
            } else {
                None
            }
        },
    }
}

/// A list of key paths, in braces.
pub open spec fn parsed_key_paths(text: Seq<u8>) -> Option<Seq<KeyPathModel>> {
    let open = spaces_end(text, 0);
    let first = spaces_end(text, open + 1);
    if byte_at(text, open) != Some(OPEN_BRACE) {
        None
    } else if byte_at(text, first) == Some(CLOSE_BRACE) {
        if spaces_end(text, first + 1) == text.len() {
            Some(seq![])
        } else {
            None
        }
    } else {
        paths_from(text, first, seq![])
    }
}

pub proof fn lemma_spaces_end(text: Seq<u8>, pos: int)
    ensures
        pos <= spaces_end(text, pos),
        pos <= text.len() ==> spaces_end(text, pos) <= text.len(),
    decreases text.len() - pos,
{
    if 0 <= pos < text.len() && is_space(text[pos]) {
        lemma_spaces_end(text, pos + 1);
    }
}

proof fn lemma_name_scan(text: Seq<u8>, pos: int)
    ensures
        name_scan(text, pos) matches Some((end, _)) ==> pos <= end,
    decreases text.len() - pos,
{
    if 0 <= pos < text.len() {
        if text[pos] == BACKSLASH {
            if let Some(next) = escape_end(text, pos) {
                lemma_name_scan(text, next);
            }
        } else {
            lemma_name_scan(text, pos + 1);
        }
    }
}

/// A key path ends at or behind the place where it starts.
pub proof fn lemma_path_advances(text: Seq<u8>, pos: int)
    ensures
        path_at(text, pos) matches Some((_, end)) ==> pos <= end,
{
    let first = if byte_at(text, pos) == Some(MINUS) || byte_at(text, pos) == Some(PLUS) {
        pos + 1
    } else {
        pos
    };
    if 0 <= first <= text.len() {
        lemma_digits_end(text, first);
    }
    lemma_string_scan(text, pos + 1, QUOTE, false);
    lemma_name_scan(text, pos);
}

/// Skips whitespace.
fn skip_spaces(buf: &[u8], start: usize) -> (end: usize)
    requires
        start <= buf@.len(),
    ensures
        end == spaces_end(buf@, start as int),
        start <= end <= buf@.len(),
{
    let mut i: usize = start;
    while i < buf.len() && (buf[i] == 0x20 || buf[i] == 0x09 || buf[i] == 0x0d || buf[i] == 0x0a)
        invariant
            start <= i <= buf@.len(),
            spaces_end(buf@, start as int) == spaces_end(buf@, i as int),
        decreases buf@.len() - i,
    {
        i += 1;
    }
    i
}

/// Reads an index.
fn read_index<'a>(buf: &'a [u8], pos: usize) -> (r: Option<(KeyPath<'a>, usize)>)
    requires
        pos <= buf@.len(),
    ensures
        match r {
            Some((path, end)) => path_index(buf@, pos as int) == Some((path@, end as int)) && pos
                <= end <= buf@.len(),
            None => path_index(buf@, pos as int) is None,
        },
{
    let negative = pos < buf.len() && buf[pos] == MINUS;
    let first: usize = if pos < buf.len() && (buf[pos] == MINUS || buf[pos] == PLUS) {
        pos + 1
    } else {
        pos
    };
    let scan = scan_integer_digits_u64(buf, first);
    if scan.digits == 0 || scan.overflow {
        return None;
    }
    if negative {
        if scan.value > 0x8000_0000 {
            return None;
        }
        Some((KeyPath::Index((-(scan.value as i64)) as i32), scan.end))
    } else {
        if scan.value > 0x7fff_ffff {
            return None;
        }
        Some((KeyPath::Index(scan.value as i32), scan.end))
    }
}

/// Reads the characters that bytes stand for.
fn read_name<'a>(data: &'a [u8], has_escape: bool) -> (r: Option<Cow<'a, str>>)
    ensures
        match r {
            Some(name) => path_name(data@, has_escape) == Some(name@),
            None => path_name(data@, has_escape) is None,
        },
{
    if has_escape {
        assert(data.len() <= usize::MAX);
        match parse_string(data, 0) {
            Ok(s) => {
                proof {
                    encode_utf8_decode_utf8(s@);
                }
                Some(Cow::Owned(s))
            },
            Err(_) => None,
        }
    } else {
        match str_from_utf8(data) {
            Some(s) => {
                proof {
                    lemma_decoded(s, data@);
                }
                Some(Cow::Borrowed(s))
            },
            None => None,
        }
    }
}

/// Reads a name in double quotes.
fn read_quoted_name<'a>(buf: &'a [u8], pos: usize) -> (r: Option<(KeyPath<'a>, usize)>)
    requires
        pos <= buf@.len(),
    ensures
        match r {
            Some((path, end)) => path_quoted_name(buf@, pos as int) == Some((path@, end as int))
                && pos <= end <= buf@.len(),
            None => path_quoted_name(buf@, pos as int) is None,
        },
{
    if pos >= buf.len() || buf[pos] != QUOTE {
        return None;
    }
    match scan_string::<false>(buf, pos + 1, QUOTE) {
        Ok(scan) => match read_name(slice_subrange(buf, pos + 1, scan.end), scan.has_escape) {
            Some(name) => Some((KeyPath::QuotedName(name), scan.end + 1)),
            None => None,
        },
        Err(_) => None,
    }
}

/// Tells whether a byte ends a name without quotes.
fn ends_name(byte: u8) -> (r: bool)
    ensures
        r == is_name_delimiter(byte),
{
    byte == 0x20 || byte == 0x09 || byte == 0x0d || byte == 0x0a || byte == 0x2e || byte == 0x3a
        || byte == 0x5b || byte == 0x5d || byte == 0x28 || byte == 0x29 || byte == 0x7b || byte
        == 0x7d || byte == 0x2c || byte == 0x3f || byte == 0x40 || byte == 0x24 || byte == 0x7c
        || byte == 0x3c || byte == 0x3e || byte == 0x21 || byte == 0x3d || byte == 0x2b || byte
        == 0x2d || byte == 0x2a || byte == 0x2f || byte == 0x25 || byte == 0x22 || byte == 0x27
}

/// Finds the end of a name without quotes, and whether there is an escape in it.
fn scan_name(buf: &[u8], pos: usize) -> (r: Option<(usize, bool)>)
    requires
        pos <= buf@.len(),
    ensures
        match r {
            Some((end, has_escape)) => name_scan(buf@, pos as int) == Some((end as int, has_escape))
                && pos <= end <= buf@.len(),
            None => name_scan(buf@, pos as int) is None,
        },
{
    let ghost whole = name_scan(buf@, pos as int);
    let mut has_escape = false;
    let mut i: usize = pos;
    while i < buf.len() && !(buf[i] != BACKSLASH && ends_name(buf[i]))
        invariant
            pos <= i <= buf@.len(),
            whole == name_scan(buf@, pos as int),
            match name_scan(buf@, i as int) {
                Some((end, escape)) => whole == Some((end, escape || has_escape)),
                None => whole is None,
            },
        decreases buf@.len() - i,
    {
        if buf[i] == BACKSLASH {
            has_escape = true;
            match skip_escape(buf, i) {
                Ok(next) => {
                    i = next;
                },
                Err(_) => {
                    return None;
                },
            }
        } else {
            i += 1;
        }
    }
    Some((i, has_escape))
}

/// Reads a name without quotes.
fn read_raw_name<'a>(buf: &'a [u8], pos: usize) -> (r: Option<(KeyPath<'a>, usize)>)
    requires
        pos <= buf@.len(),
    ensures
        match r {
            Some((path, end)) => path_raw_name(buf@, pos as int) == Some((path@, end as int))
                && pos <= end <= buf@.len(),
            None => path_raw_name(buf@, pos as int) is None,
        },
{
    match scan_name(buf, pos) {
        Some((end, has_escape)) => {
            if end == pos {
                return None;
            }
            match read_name(slice_subrange(buf, pos, end), has_escape) {
                Some(name) => Some((KeyPath::Name(name), end)),
                None => None,
            }
        },
        None => None,
    }
}

/// Reads one key path.
fn key_path<'a>(buf: &'a [u8], pos: usize) -> (r: Option<(KeyPath<'a>, usize)>)
    requires
        pos <= buf@.len(),
    ensures
        match r {
            Some((path, end)) => path_at(buf@, pos as int) == Some((path@, end as int)) && pos
                <= end <= buf@.len(),
            None => path_at(buf@, pos as int) is None,
        },
{
    match read_index(buf, pos) {
        Some(found) => Some(found),
        None => match read_quoted_name(buf, pos) {
            Some(found) => Some(found),
            None => read_raw_name(buf, pos),
        },
    }
}

/// Reads a list of key paths.
fn key_paths<'a>(input: &'a [u8]) -> (r: Option<Vec<KeyPath<'a>>>)
    ensures
        match r {
            Some(paths) => parsed_key_paths(input@) == Some(key_path_models(paths@)),
            None => parsed_key_paths(input@) is None,
        },
{
    let mut paths: Vec<KeyPath<'a>> = Vec::new();
    assert(key_path_models(paths@) =~= seq![]);
    let open = skip_spaces(input, 0);
    if open >= input.len() || input[open] != OPEN_BRACE {
        return None;
    }
    let first = skip_spaces(input, open + 1);
    if first < input.len() && input[first] == CLOSE_BRACE {
        if skip_spaces(input, first + 1) == input.len() {
            return Some(paths);
        }
        return None;
    }
    let mut pos: usize = first;
    loop
        invariant
            pos <= input@.len(),
            parsed_key_paths(input@) == paths_from(
                input@,
                pos as int,
                key_path_models(paths@),
            ),
        decreases input@.len() - pos,
    {
        let ghost before = key_path_models(paths@);
        match key_path(input, pos) {
            Some((path, end)) => {
                let next = skip_spaces(input, end);
                paths.push(path);
                assert(key_path_models(paths@) =~= before.push(path@));
                if next >= input.len() {
                    return None;
                }
                if input[next] == COMMA {
                    pos = skip_spaces(input, next + 1);
                } else if input[next] == CLOSE_BRACE && skip_spaces(input, next + 1) == input.len() {
                    return Some(paths);
                } else {
                    return None;
                }
            },
            None => {
                return None;
            },
        }
    }
}

/// Parsing the input string to key paths.
pub fn parse_key_paths(input: &[u8]) -> (r: Result<KeyPaths<'_>, Error>)
    ensures
        match parsed_key_paths(input@) {
            Some(paths) => r matches Ok(parsed) && parsed@ == paths,
            None => r matches Err(e) && e@ == ErrorModel::InvalidKeyPath,
        },
{
    match key_paths(input) {
        Some(paths) => Ok(KeyPaths { paths }),
        None => Err(Error::InvalidKeyPath),
    }
}

} // verus!
