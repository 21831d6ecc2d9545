//! Key paths as they are written: which texts stand for which steps.

use vstd::prelude::*;

use crate::canonical::{
    canonical, char_at, decoded, decoded_from, escaped_name, ident, ident_continue, ident_end,
    ident_start, lemma_escaped_name_read, lemma_ident_end_at, lemma_step_advances, quoted_name,
    step_at, step_text,
};
use crate::keypath::OwnedKeyPathModel;
use crate::text::{
    digit_chars_end, digits_value, int_text, is_digit_char, lemma_digit_chars_end,
    lemma_digit_chars_end_at, nat_text,
};

verus! {

/// All characters are `0` to `9`.
pub open spec fn decimal_chars(s: Seq<char>) -> bool {
    forall|i: int| 0 <= i < s.len() ==> 0x30 <= #[trigger] s[i] as int <= 0x39
}

/// The number that characters spell in decimal.
pub open spec fn spelled_number(s: Seq<char>) -> int {
    s.fold_left(0int, |n: int, c: char| 10 * n + (c as int - 0x30))
}

/// An integer in decimal, with a minus where it is negative.
pub open spec fn spells_integer(s: Seq<char>, n: int) -> bool {
    if s.len() > 0 && s[0] == '-' {
        s.len() > 1 && decimal_chars(s.skip(1)) && n == -spelled_number(s.skip(1))
    } else {
        s.len() > 0 && decimal_chars(s) && n == spelled_number(s)
    }
}

proof fn lemma_spelled_number(s: Seq<char>)
    requires
        decimal_chars(s),
    ensures
        digits_value(s) == spelled_number(s),
    decreases s.len(),
{
    if s.len() > 0 {
        let front = s.drop_last();
        assert forall|i: int| 0 <= i < front.len() implies 0x30 <= #[trigger] front[i] as int
            <= 0x39 by {
            assert(front[i] == s[i]);
        }
        lemma_spelled_number(front);
        assert(0x30 <= s[s.len() - 1] as int <= 0x39);
    }
}

proof fn lemma_natural(n: nat)
    ensures
        nat_text(n).len() > 0,
        decimal_chars(nat_text(n)),
        spelled_number(nat_text(n)) == n,
        nat_text(n).len() > 1 ==> nat_text(n)[0] != '0',
        n > 0 ==> nat_text(n)[0] != '0',
    decreases n,
{
    let s = nat_text(n);
    if n < 10 {
        assert(s.drop_last() =~= Seq::<char>::empty());
        assert(s.last() as int == n + 0x30);
        assert(spelled_number(s.drop_last()) == 0);
        assert(spelled_number(s) == 10 * spelled_number(s.drop_last()) + (s.last() as int - 0x30));
    } else {
        lemma_natural(n / 10);
        let front = nat_text(n / 10);
        assert(s.drop_last() =~= front);
        assert(s.last() as int == n % 10 + 0x30);
        assert forall|i: int| 0 <= i < s.len() implies 0x30 <= #[trigger] s[i] as int <= 0x39 by {
            if i < front.len() {
                assert(s[i] == front[i]);
            }
        }
        assert(s[0] == front[0]);
        assert(spelled_number(s) == 10 * spelled_number(s.drop_last()) + (s.last() as int - 0x30));
    }
}

/// An index is written in decimal, without zeros in front, and with a minus only where it is
/// negative.
pub proof fn law_index_text(n: int)
    ensures
        spells_integer(int_text(n), n),
        int_text(n)[0] == '-' <==> n < 0,
        n > 0 ==> int_text(n)[0] != '0',
        n < 0 ==> int_text(n)[1] != '0',
        n == 0 ==> int_text(n) == seq!['0'],
{
    if n < 0 {
        lemma_natural((-n) as nat);
        assert(int_text(n).skip(1) =~= nat_text((-n) as nat));
    } else {
        lemma_natural(n as nat);
        let c = nat_text(n as nat)[0];
        assert(0x30 <= c as int <= 0x39);
        if n == 0 {
            assert(int_text(n) =~= seq!['0']);
        }
    }
}

/// A character of ASCII that can stand in a name without quotes.
pub open spec fn name_char(c: char) -> bool {
    0x41 <= c as int <= 0x5a || 0x61 <= c as int <= 0x7a || 0x30 <= c as int <= 0x39 || c as int
        == 0x5f
}

/// A name of letters, digits and underscores of ASCII that does not start with a digit.
pub open spec fn plain_name(name: Seq<char>) -> bool {
    &&& name.len() > 0
    &&& !(0x30 <= name[0] as int <= 0x39)
    &&& forall|i: int| 0 <= i < name.len() ==> name_char(#[trigger] name[i])
}

/// A name that cannot stand without quotes: it is empty, starts with a digit, or holds a character
/// of ASCII that is no letter, digit or underscore.
pub open spec fn needs_quotes(name: Seq<char>) -> bool {
    ||| name.len() == 0
    ||| 0x30 <= name[0] as int <= 0x39
    ||| exists|i: int| 0 <= i < name.len() && #[trigger] name[i] as int <= 0x7f && !name_char(name[i])
}

/// A name in single quotes, with a backslash before each backslash and each single quote in it.
pub open spec fn in_quotes(name: Seq<char>) -> Seq<char> {
    seq!['\''] + name.map_values(
        |c: char|
            if c as int == 0x5c || c as int == 0x27 {
                seq!['\\', c]
            } else {
                seq![c]
            },
    ).flatten() + seq!['\'']
}

proof fn lemma_in_quotes(name: Seq<char>)
    ensures
        in_quotes(name) == seq!['\''] + escaped_name(name) + seq!['\''],
    decreases name.len(),
{
    let each = |c: char|
        if c as int == 0x5c || c as int == 0x27 {
            seq!['\\', c]
        } else {
            seq![c]
        };
    let parts = name.map_values(each);
    if name.len() == 0 {
        assert(parts.flatten() =~= escaped_name(name));
    } else {
        let front = name.drop_last();
        lemma_in_quotes(front);
        let quoted = in_quotes(front);
        assert(front.map_values(each).flatten() =~= quoted.subrange(1, quoted.len() - 1));
        assert(escaped_name(front) =~= quoted.subrange(1, quoted.len() - 1));
        assert(parts.drop_last() =~= front.map_values(each));
        parts.lemma_flatten_and_flatten_alt_are_equivalent();
        parts.drop_last().lemma_flatten_and_flatten_alt_are_equivalent();
        assert(parts.last() == each(name.last()));
        assert(parts.flatten() =~= parts.drop_last().flatten() + parts.last());
        assert(parts.flatten() =~= escaped_name(name));
    }
}

proof fn lemma_plain_name(name: Seq<char>)
    requires
        plain_name(name),
    ensures
        ident(name),
{
    assert(name_char(name[0]));
    assert forall|i: int| 1 <= i < name.len() implies ident_continue(#[trigger] name[i]) by {
        assert(name_char(name[i]));
    }
}

proof fn lemma_needs_quotes(name: Seq<char>)
    requires
        needs_quotes(name),
    ensures
        !ident(name),
{
    if ident(name) {
        assert(ident_start(name[0]));
        let i = choose|i: int|
            0 <= i < name.len() && #[trigger] name[i] as int <= 0x7f && !name_char(name[i]);
        if 0 <= i < name.len() && name[i] as int <= 0x7f && !name_char(name[i]) {
            if i > 0 {
                assert(ident_continue(name[i]));
            }
        }
    }
}

/// The canonical text of a step: an index in brackets, a name as it is or in quotes, with a point
/// before it unless it is the first step.
pub open spec fn canonical_piece(step: OwnedKeyPathModel, first: bool) -> Seq<char> {
    match step {
        OwnedKeyPathModel::Index(index) => seq!['['] + int_text(index as int) + seq![']'],
        OwnedKeyPathModel::Name(name) => {
            let body = if plain_name(name) {
                name
            } else {
                in_quotes(name)
            };
            if first {
                body
            } else {
                seq!['.'] + body
            }
        },
    }
}

/// The canonical form of a path is made of the texts of its steps, one after the other: a name of
/// letters, digits and underscores of ASCII stands as it is, one that ASCII rules out in quotes.
pub proof fn law_canonical_form(steps: Seq<OwnedKeyPathModel>)
    requires
        forall|i: int|
            0 <= i < steps.len() ==> (#[trigger] steps[i] matches OwnedKeyPathModel::Name(name)
                ==> plain_name(name) || needs_quotes(name)),
    ensures
        canonical(steps) == Seq::new(
            steps.len(),
            |i: int| canonical_piece(steps[i], i == 0),
        ).flatten(),
    decreases steps.len(),
{
    let pieces = Seq::new(steps.len(), |i: int| canonical_piece(steps[i], i == 0));
    if steps.len() == 0 {
        assert(pieces.flatten() =~= canonical(steps));
    } else {
        let front = steps.drop_last();
        let n = front.len() as int;
        assert forall|i: int| 0 <= i < front.len() implies (#[trigger] front[i] matches
            OwnedKeyPathModel::Name(name) ==> plain_name(name) || needs_quotes(name)) by {
            assert(front[i] == steps[i]);
        }
        law_canonical_form(front);
        assert(pieces.drop_last() =~= Seq::new(
            front.len(),
            |i: int| canonical_piece(front[i], i == 0),
        ));
        pieces.lemma_flatten_and_flatten_alt_are_equivalent();
        pieces.drop_last().lemma_flatten_and_flatten_alt_are_equivalent();
        assert(pieces.flatten() =~= pieces.drop_last().flatten() + pieces.last());
        assert(steps[n] == steps.last());
        if let OwnedKeyPathModel::Name(name) = steps[n] {
            lemma_in_quotes(name);
            if plain_name(name) {
                lemma_plain_name(name);
            } else {
                lemma_needs_quotes(name);
            }
        }
        assert(pieces.last() == step_text(steps.last(), steps.len() == 1));
    }
}

/// A text that stands for a step: an integer in brackets; a name as it is, where it is made of
/// letters, digits and underscores of ASCII; any name in quotes; with a point before a name unless
/// it is the first step.
pub open spec fn piece_of(text: Seq<char>, step: OwnedKeyPathModel, first: bool) -> bool {
    match step {
        OwnedKeyPathModel::Index(index) => text.len() >= 2 && text[0] == '[' && text.last() == ']'
            && spells_integer(text.subrange(1, text.len() - 1), index as int),
        OwnedKeyPathModel::Name(name) => {
            let body = if first {
                text
            } else {
                text.skip(1)
            };
            &&& first || text.len() > 0 && text[0] == '.'
            &&& body == in_quotes(name) || body == name && plain_name(name)
        },
    }
}

/// Such a text is read as the step.
proof fn lemma_piece_read(
    text: Seq<char>,
    pos: int,
    piece: Seq<char>,
    step: OwnedKeyPathModel,
    first: bool,
)
    requires
        0 <= pos,
        pos + piece.len() <= text.len(),
        text.subrange(pos, pos + piece.len()) == piece,
        piece_of(piece, step, first),
        pos + piece.len() < text.len() ==> text[pos + piece.len()] == '[' || text[pos + piece.len()]
            == '.',
    ensures
        piece.len() > 0,
        step_at(text, pos, first) == Some((step, pos + piece.len())),
        step is Index ==> piece[0] == '[',
        step is Name && !first ==> piece[0] == '.',
{
    let end = pos + piece.len();
    assert forall|i: int| 0 <= i < piece.len() implies #[trigger] piece[i] == text[pos + i] by {
        assert(text.subrange(pos, end)[i] == text[pos + i]);
    }
    match step {
        OwnedKeyPathModel::Index(index) => {
            let inner = piece.subrange(1, piece.len() - 1);
            assert(piece[0] == text[pos]);
            assert(piece[piece.len() - 1] == text[end - 1]);
            let start = if inner.len() > 0 && inner[0] == '-' {
                pos + 2
            } else {
                pos + 1
            };
            let digits = if inner.len() > 0 && inner[0] == '-' {
                inner.skip(1)
            } else {
                inner
            };
            assert(inner[0] == piece[1] && piece[1] == text[pos + 1]);
            assert forall|i: int| start <= i < end - 1 implies is_digit_char(#[trigger] text[i]) by {
                assert(text[i] == piece[i - pos]);
                assert(digits[i - start] == piece[i - pos]);
            }
            assert(text.subrange(start, end - 1) =~= digits) by {
                assert forall|i: int| 0 <= i < digits.len() implies text.subrange(
                    start,
                    end - 1,
                )[i] == digits[i] by {
                    assert(text[start + i] == piece[start + i - pos]);
                }
            }
            lemma_digit_chars_end_at(text, start, end - 1);
            lemma_spelled_number(digits);
            if start == pos + 1 {
                assert(0x30 <= digits[0] as int <= 0x39);
            }
        },
        OwnedKeyPathModel::Name(name) => {
            let q = if first {
                pos
            } else {
                pos + 1
            };
            let body = if first {
                piece
            } else {
                piece.skip(1)
            };
            lemma_in_quotes(name);
            assert(body.len() > 0);
            assert forall|i: int| 0 <= i < body.len() implies text[q + i] == #[trigger] body[i] by {
                assert(body[i] == piece[i + q - pos]);
            }
            assert(!first ==> text[pos] == piece[0]);
            assert(text[q + 0] == body[0]);
            if body == in_quotes(name) {
                let escaped = escaped_name(name);
                assert(text.subrange(q + 1, q + 1 + escaped.len()) =~= escaped) by {
                    assert forall|i: int| 0 <= i < escaped.len() implies text[q + 1 + i]
                        == escaped[i] by {
                        assert(text[q + (i + 1)] == body[i + 1]);
                    }
                }
                assert(text[q + (body.len() - 1)] == body[body.len() - 1]);
                lemma_escaped_name_read(text, q + 1, name, seq![]);
                assert(Seq::<char>::empty() + name =~= name);
            } else {
                lemma_plain_name(name);
                assert(name_char(name[0]));
                assert forall|i: int| q + 1 <= i < end implies ident_continue(
                    #[trigger] text[i],
                ) by {
                    assert(text[q + (i - q)] == name[i - q]);
                }
                lemma_ident_end_at(text, q + 1, end);
                assert(text.subrange(q, end) =~= name) by {
                    assert forall|i: int| 0 <= i < name.len() implies text.subrange(q, end)[i]
                        == name[i] by {
                        assert(text[q + i] == body[i]);
                    }
                }
            }
        },
    }
}

/// Steps that are written one after the other are read as those steps.
proof fn lemma_pieces_read(
    text: Seq<char>,
    pos: int,
    pieces: Seq<Seq<char>>,
    steps: Seq<OwnedKeyPathModel>,
    done: Seq<OwnedKeyPathModel>,
)
    requires
        0 <= pos <= text.len(),
        text.subrange(pos, text.len() as int) == pieces.flatten(),
        pieces.len() == steps.len(),
        forall|i: int|
            0 <= i < steps.len() ==> piece_of(
                pieces[i],
                #[trigger] steps[i],
                i == 0 && done.len() == 0,
            ),
    ensures
        decoded_from(text, pos, done) == Some(done + steps),
        steps.len() > 0 ==> pos < text.len(),
        steps.len() > 0 && done.len() > 0 ==> text[pos] == '[' || text[pos] == '.',
    decreases steps.len(),
{
    let rest = text.subrange(pos, text.len() as int);
    if steps.len() == 0 {
        assert(rest =~= Seq::<char>::empty());
        assert(done + steps =~= done);
    } else {
        let piece = pieces[0];
        let step = steps[0];
        let more = pieces.drop_first();
        let others = steps.drop_first();
        let first = done.len() == 0;
        let next = pos + piece.len();
        assert(piece_of(pieces[0], steps[0], first));
        assert(pieces.flatten() == piece + more.flatten());
        assert(rest.len() == text.len() - pos);
        assert(text.subrange(pos, next) =~= rest.subrange(0, piece.len() as int));
        assert(rest.subrange(0, piece.len() as int) =~= piece);
        assert(text.subrange(next, text.len() as int) =~= rest.subrange(
            piece.len() as int,
            rest.len() as int,
        ));
        assert(rest.subrange(piece.len() as int, rest.len() as int) =~= more.flatten());
        let now = done.push(step);
        assert forall|i: int| 0 <= i < others.len() implies piece_of(
            more[i],
            #[trigger] others[i],
            i == 0 && now.len() == 0,
        ) by {
            assert(piece_of(pieces[i + 1], steps[i + 1], false));
        }
        lemma_pieces_read(text, next, more, others, now);
        if others.len() == 0 {
            assert(more.flatten() =~= Seq::<char>::empty());
        }
        lemma_piece_read(text, pos, piece, step, first);
        lemma_step_advances(text, pos, first);
        assert(now + others =~= done + steps);
        assert(text[pos] == rest[0]);
        assert(rest[0] == piece[0]);
    }
}

/// A text that is made of the texts of steps is decoded to those steps.
pub proof fn law_written_path_is_read(pieces: Seq<Seq<char>>, steps: Seq<OwnedKeyPathModel>)
    requires
        steps.len() > 0,
        pieces.len() == steps.len(),
        forall|i: int|
            0 <= i < steps.len() ==> piece_of(pieces[i], #[trigger] steps[i], i == 0),
    ensures
        decoded(pieces.flatten()) == Some(steps),
{
    let text = pieces.flatten();
    assert(text.subrange(0, text.len() as int) =~= text);
    lemma_pieces_read(text, 0, pieces, steps, seq![]);
    assert(Seq::<OwnedKeyPathModel>::empty() + steps =~= steps);
}

/// Names of letters, digits and underscores of ASCII, with points between them, are the canonical
/// form of the path of those names, and are decoded to it.
pub proof fn law_plain_names(names: Seq<Seq<char>>)
    requires
        names.len() > 0,
        forall|i: int| 0 <= i < names.len() ==> plain_name(#[trigger] names[i]),
    ensures
        ({
            let text = Seq::new(
                names.len(),
                |i: int|
                    if i == 0 {
                        names[i]
                    } else {
                        seq!['.'] + names[i]
                    },
            ).flatten();
            let steps = names.map_values(|name: Seq<char>| OwnedKeyPathModel::Name(name));
            &&& canonical(steps) == text
            &&& decoded(text) == Some(steps)
        }),
{
    let steps = names.map_values(|name: Seq<char>| OwnedKeyPathModel::Name(name));
    let pieces = Seq::new(
        names.len(),
        |i: int|
            if i == 0 {
                names[i]
            } else {
                seq!['.'] + names[i]
            },
    );
    assert forall|i: int| 0 <= i < steps.len() implies (#[trigger] steps[i] matches
        OwnedKeyPathModel::Name(name) ==> plain_name(name) || needs_quotes(name)) by {
        assert(plain_name(names[i]));
    }
    assert forall|i: int| 0 <= i < steps.len() implies piece_of(
        pieces[i],
        #[trigger] steps[i],
        i == 0,
    ) by {
        assert(plain_name(names[i]));
        if i > 0 {
            assert(pieces[i].skip(1) =~= names[i]);
        }
    }
    law_canonical_form(steps);
    assert(pieces =~= Seq::new(steps.len(), |i: int| canonical_piece(steps[i], i == 0))) by {
        assert forall|i: int| 0 <= i < steps.len() implies pieces[i] == canonical_piece(
            steps[i],
            i == 0,
        ) by {
            assert(plain_name(names[i]));
        }
    }
    law_written_path_is_read(pieces, steps);
}

/// The text of a name between its quotes.
spec fn escaped_chars(name: Seq<char>) -> Seq<char> {
    name.map_values(
        |c: char|
            if c as int == 0x5c || c as int == 0x27 {
                seq!['\\', c]
            } else {
                seq![c]
            },
    ).flatten()
}

/// What is read between quotes is written there.
proof fn lemma_quoted_written(text: Seq<char>, pos: int, before: Seq<char>) -> (name: Seq<char>)
    requires
        0 <= pos,
        quoted_name(text, pos, before) is Some,
    ensures
        ({
            let (whole, end) = quoted_name(text, pos, before)->Some_0;
            &&& whole == before + name
            &&& pos < end <= text.len()
            &&& text.subrange(pos, end) == escaped_chars(name) + seq!['\'']
        }),
    decreases text.len() - pos,
{
    let (whole, end) = quoted_name(text, pos, before)->Some_0;
    if text[pos] == '\'' {
        let name = Seq::<char>::empty();
        assert(before + name =~= before);
        assert(escaped_chars(name) =~= Seq::<char>::empty());
        assert(text.subrange(pos, end) =~= escaped_chars(name) + seq!['\'']);
        name
    } else {
        let (c, next) = if text[pos] == '\\' {
            (text[pos + 1], pos + 2)
        } else {
            (text[pos], pos + 1)
        };
        let rest = lemma_quoted_written(text, next, before.push(c));
        let name = seq![c] + rest;
        let each = |c: char|
            if c as int == 0x5c || c as int == 0x27 {
                seq!['\\', c]
            } else {
                seq![c]
            };
        assert(before.push(c) + rest =~= before + name);
        assert(name.map_values(each).drop_first() =~= rest.map_values(each));
        assert(name.map_values(each)[0] == each(c));
        assert(escaped_chars(name) =~= each(c) + escaped_chars(rest));
        assert(text.subrange(pos, end) =~= text.subrange(pos, next) + text.subrange(next, end));
        assert(text.subrange(pos, next) =~= each(c));
        assert(text.subrange(pos, end) =~= escaped_chars(name) + seq!['\'']);
        name
    }
}

proof fn lemma_ident_run(text: Seq<char>, pos: int)
    requires
        0 <= pos <= text.len(),
    ensures
        pos <= ident_end(text, pos) <= text.len(),
        forall|i: int| pos <= i < ident_end(text, pos) ==> ident_continue(#[trigger] text[i]),
    decreases text.len() - pos,
{
    if pos < text.len() && ident_continue(text[pos]) {
        lemma_ident_run(text, pos + 1);
    }
}

/// All characters are of ASCII.
pub open spec fn ascii_text(text: Seq<char>) -> bool {
    forall|i: int| 0 <= i < text.len() ==> #[trigger] text[i] as int <= 0x7f
}

/// What is read as a step is written as one.
proof fn lemma_step_written(text: Seq<char>, pos: int, first: bool)
    requires
        0 <= pos < text.len(),
        ascii_text(text),
        step_at(text, pos, first) is Some,
    ensures
        ({
            let (step, next) = step_at(text, pos, first)->Some_0;
            &&& pos < next <= text.len()
            &&& piece_of(text.subrange(pos, next), step, first)
        }),
{
    let (step, next) = step_at(text, pos, first)->Some_0;
    lemma_step_advances(text, pos, first);
    let piece = text.subrange(pos, next);
    if text[pos] == '[' {
        let negative = char_at(text, pos + 1) == Some('-');
        let start = if negative {
            pos + 2
        } else {
            pos + 1
        };
        lemma_digit_chars_end(text, start);
        let end = digit_chars_end(text, start);
        let digits = text.subrange(start, end);
        let inner = piece.subrange(1, piece.len() - 1);
        assert(decimal_chars(digits)) by {
            assert forall|i: int| 0 <= i < digits.len() implies 0x30 <= #[trigger] digits[i] as int
                <= 0x39 by {
                assert(is_digit_char(text[start + i]));
            }
        }
        lemma_spelled_number(digits);
        if negative {
            assert(inner.skip(1) =~= digits);
            assert(inner[0] == text[pos + 1]);
        } else {
            assert(inner =~= digits);
            assert(digits[0] == text[start]);
            assert(is_digit_char(text[start]));
        }
    } else {
        let q = if first {
            pos
        } else {
            pos + 1
        };
        let body = text.subrange(q, next);
        assert(!first ==> piece.skip(1) =~= body);
        assert(first ==> piece =~= body);
        if text[q] == '\'' {
            let name = lemma_quoted_written(text, q + 1, seq![]);
            assert(Seq::<char>::empty() + name =~= name);
            assert(body =~= seq!['\''] + text.subrange(q + 1, next));
            assert(in_quotes(name) =~= seq!['\''] + escaped_chars(name) + seq!['\'']);
            assert(body =~= in_quotes(name));
        } else {
            lemma_ident_run(text, q + 1);
            assert forall|i: int| 0 <= i < body.len() implies name_char(#[trigger] body[i]) by {
                assert(body[i] == text[q + i]);
                assert(text[q + i] as int <= 0x7f);
                if i > 0 {
                    assert(ident_continue(text[q + i]));
                }
            }
            assert(body[0] == text[q]);
            assert(text[q] as int <= 0x7f);
            assert(plain_name(body));
        }
    }
}

proof fn lemma_steps_written(
    text: Seq<char>,
    pos: int,
    done: Seq<OwnedKeyPathModel>,
) -> (pieces: Seq<Seq<char>>)
    requires
        0 <= pos <= text.len(),
        ascii_text(text),
        decoded_from(text, pos, done) is Some,
    ensures
        ({
            let steps = decoded_from(text, pos, done)->Some_0;
            &&& steps.len() == done.len() + pieces.len()
            &&& steps.take(done.len() as int) == done
            &&& forall|i: int|
                0 <= i < pieces.len() ==> piece_of(
                    #[trigger] pieces[i],
                    steps[done.len() + i],
                    done.len() + i == 0,
                )
            &&& pieces.flatten() == text.subrange(pos, text.len() as int)
        }),
    decreases text.len() - pos,
{
    let steps = decoded_from(text, pos, done)->Some_0;
    if pos >= text.len() {
        let pieces = Seq::<Seq<char>>::empty();
        assert(pieces.flatten() =~= text.subrange(pos, text.len() as int));
        assert(steps.take(done.len() as int) =~= done);
        pieces
    } else {
        let first = done.len() == 0;
        let (step, next) = step_at(text, pos, first)->Some_0;
        lemma_step_written(text, pos, first);
        let now = done.push(step);
        let more = lemma_steps_written(text, next, now);
        let piece = text.subrange(pos, next);
        let pieces = seq![piece] + more;
        assert(pieces.drop_first() =~= more);
        assert(pieces[0] == piece);
        assert(pieces.flatten() =~= piece + more.flatten());
        assert(pieces.flatten() =~= text.subrange(pos, text.len() as int));
        assert(steps.take(done.len() as int) =~= steps.take(now.len() as int).take(
            done.len() as int,
        ));
        assert(now.take(done.len() as int) =~= done);
        assert(steps[done.len() as int] == step) by {
            assert(steps.take(now.len() as int)[done.len() as int] == now[done.len() as int]);
        }
        assert forall|i: int| 0 <= i < pieces.len() implies piece_of(
            #[trigger] pieces[i],
            steps[done.len() + i],
            done.len() + i == 0,
        ) by {
            if i > 0 {
                assert(pieces[i] == more[i - 1]);
                assert(piece_of(more[i - 1], steps[now.len() + (i - 1)], false));
            }
        }
        pieces
    }
}

/// A text of ASCII that is decoded is made of the texts of the steps that it is decoded to; any
/// other text is refused.
pub proof fn law_read_path_is_written(text: Seq<char>) -> (pieces: Seq<Seq<char>>)
    requires
        ascii_text(text),
        decoded(text) is Some,
    ensures
        ({
            let steps = decoded(text)->Some_0;
            &&& steps.len() > 0
            &&& pieces.len() == steps.len()
            &&& forall|i: int| 0 <= i < pieces.len() ==> piece_of(#[trigger] pieces[i], steps[i], i == 0)
            &&& pieces.flatten() == text
        }),
{
    let done = Seq::<OwnedKeyPathModel>::empty();
    let pieces = lemma_steps_written(text, 0, done);
    let steps = decoded(text)->Some_0;
    assert(text.subrange(0, text.len() as int) =~= text);
    assert forall|i: int| 0 <= i < pieces.len() implies piece_of(
        #[trigger] pieces[i],
        steps[i],
        i == 0,
    ) by {
        assert(piece_of(pieces[i], steps[done.len() + i], done.len() + i == 0));
    }
    if steps.len() == 0 {
        assert(pieces.flatten() =~= Seq::<char>::empty());
    }
    pieces
}

} // verus!
