//! The canonical form of a key path: `user.name`, `users[0].id`, `user.'profile.name'`.

use vstd::prelude::*;
use vstd::slice::slice_subrange;

use crate::keypath::{owned_key_path_models, OwnedKeyPath, OwnedKeyPathModel, OwnedKeyPaths};
use crate::text::{
    chars_of, digit_chars_end, digits_value, int_text, is_digit_char, lemma_digit_chars_end,
    lemma_digit_chars_end_at, lemma_nat_text, nat_text, push_chars, push_int,
};

verus! {

/// What `char::is_alphabetic` says of a character.
pub uninterp spec fn unicode_alphabetic(c: char) -> bool;

/// What `char::is_alphanumeric` says of a character.
pub uninterp spec fn unicode_alphanumeric(c: char) -> bool;

/// `char::is_alphabetic`: a function of the character alone, here under a name of its own.
pub assume_specification[ char::is_alphabetic ](c: char) -> (r: bool)
    ensures
        r == unicode_alphabetic(c),
;

/// `char::is_alphanumeric`: a function of the character alone, here under a name of its own.
pub assume_specification[ char::is_alphanumeric ](c: char) -> (r: bool)
    ensures
        r == unicode_alphanumeric(c),
;

/// A character of ASCII.
pub open spec fn is_ascii(c: char) -> bool {
    c as int <= 0x7f
}

/// A letter of ASCII.
pub open spec fn is_letter(c: char) -> bool {
    'a' <= c <= 'z' || 'A' <= c <= 'Z'
}

/// A character that a name without quotes can start with: an underscore or a letter.
pub open spec fn ident_start(c: char) -> bool {
    c == '_' || if is_ascii(c) {
        is_letter(c)
    } else {
        unicode_alphabetic(c)
    }
}

/// A character that a name without quotes can go on with: an underscore, a letter or a digit.
pub open spec fn ident_continue(c: char) -> bool {
    c == '_' || if is_ascii(c) {
        is_letter(c) || is_digit_char(c)
    } else {
        unicode_alphanumeric(c)
    }
}

/// A name that needs no quotes.
pub open spec fn ident(name: Seq<char>) -> bool {
    &&& name.len() > 0
    &&& ident_start(name[0])
    &&& forall|i: int| 1 <= i < name.len() ==> ident_continue(#[trigger] name[i])
}

/// A name with a backslash before each backslash and quote.
pub open spec fn escaped_name(name: Seq<char>) -> Seq<char>
    decreases name.len(),
{
    if name.len() == 0 {
        seq![]
    } else {
        let c = name.last();
        escaped_name(name.drop_last()) + if c == '\\' || c == '\'' {
            seq!['\\', c]
        } else {
            seq![c]
        }
    }
}

/// The canonical form of a name: as it is, or in quotes.
pub open spec fn name_text(name: Seq<char>) -> Seq<char> {
    if ident(name) {
        name
    } else {
        seq!['\''] + escaped_name(name) + seq!['\'']
    }
}

/// The canonical form of one step: an index in brackets, or a name, behind a point unless it is
/// the first step.
pub open spec fn step_text(step: OwnedKeyPathModel, first: bool) -> Seq<char> {
    match step {
        OwnedKeyPathModel::Index(index) => seq!['['] + int_text(index as int) + seq![']'],
        OwnedKeyPathModel::Name(name) => if first {
            name_text(name)
        } else {
            seq!['.'] + name_text(name)
        },
    }
}

/// The canonical form of a path.
pub open spec fn canonical(steps: Seq<OwnedKeyPathModel>) -> Seq<char>
    decreases steps.len(),
{
    if steps.len() == 0 {
        seq![]
    } else {
        canonical(steps.drop_last()) + step_text(steps.last(), steps.len() == 1)
    }
}

/// The character at `pos`, if the text reaches that far.
pub open spec fn char_at(text: Seq<char>, pos: int) -> Option<char> {
    if 0 <= pos < text.len() {
        Some(text[pos])
    } else {
        None
    }
}

/// An index from behind its opening bracket on, and the offset behind the closing one.
pub open spec fn index_step(text: Seq<char>, pos: int) -> Option<(OwnedKeyPathModel, int)> {
    let negative = char_at(text, pos) == Some('-');
    let first = if negative {
        pos + 1
    } else {
        pos
    };
    let end = digit_chars_end(text, first);
    let magnitude = digits_value(text.subrange(first, end));
    let index = if negative {
        -magnitude
    } else {
        magnitude as int
    };
    if end == first || char_at(text, end) != Some(']') || index < i32::MIN || index > i32::MAX {
        None
    } else {
        Some((OwnedKeyPathModel::Index(index as i32), end + 1))
    }
}

/// A name from behind its opening quote on, and the offset behind the closing one; `name` is what
/// comes before `pos`.
pub open spec fn quoted_name(text: Seq<char>, pos: int, name: Seq<char>) -> Option<
    (Seq<char>, int),
>
    decreases text.len() - pos,
{
    if pos < 0 || pos >= text.len() {
        None
    } else if text[pos] == '\\' {
        if pos + 1 < text.len() && (text[pos + 1] == '\\' || text[pos + 1] == '\'') {
            quoted_name(text, pos + 2, name.push(text[pos + 1]))
        } else {
            None
        }
    } else if text[pos] == '\'' {
        Some((name, pos + 1))
    } else {
        quoted_name(text, pos + 1, name.push(text[pos]))
    }
}

/// The offset behind the characters from `pos` on that a name without quotes can go on with.
pub open spec fn ident_end(text: Seq<char>, pos: int) -> int
    decreases text.len() - pos,
{
    if 0 <= pos < text.len() && ident_continue(text[pos]) {
        ident_end(text, pos + 1)
    } else {
        pos
    }
}

/// A name, and the offset behind it.
pub open spec fn name_step(text: Seq<char>, pos: int) -> Option<(OwnedKeyPathModel, int)> {
    match char_at(text, pos) {
        None => None,
        Some(c) => if c == '\'' {
            match quoted_name(text, pos + 1, seq![]) {
                Some((name, end)) => Some((OwnedKeyPathModel::Name(name), end)),
                None => None,
            }
        } else if ident_start(c) {
            let end = ident_end(text, pos + 1);
            Some((OwnedKeyPathModel::Name(text.subrange(pos, end)), end))
        } else {
            None
        },
    }
}

/// One step of a path, and the offset behind it.
pub open spec fn step_at(text: Seq<char>, pos: int, first: bool) -> Option<
    (OwnedKeyPathModel, int),
> {
    if char_at(text, pos) == Some('[') {
        index_step(text, pos + 1)
    } else if first {
        name_step(text, pos)
    } else if char_at(text, pos) == Some('.') {
        name_step(text, pos + 1)
    } else {
        None
    }
}

/// The steps of a path from `pos` on; `steps` are those before it.
pub open spec fn decoded_from(text: Seq<char>, pos: int, steps: Seq<OwnedKeyPathModel>) -> Option<
    Seq<OwnedKeyPathModel>,
>
    decreases text.len() - pos,
{
    if pos < 0 || pos >= text.len() {
        Some(steps)
    } else {
        match step_at(text, pos, steps.len() == 0) {
            Some((step, next)) => {
                proof {
                    lemma_step_advances(text, pos, steps.len() == 0);
                }
                decoded_from(text, next, steps.push(step))
            },
            None => None,
        }
    }
}

/// The path whose canonical form is the given text. No text stands for the empty path.
pub open spec fn decoded(text: Seq<char>) -> Option<Seq<OwnedKeyPathModel>> {
    if text.len() == 0 {
        None
    } else {
        decoded_from(text, 0, seq![])
    }
}

proof fn lemma_quoted_name_advances(text: Seq<char>, pos: int, name: Seq<char>)
    ensures
        quoted_name(text, pos, name) matches Some((_, end)) ==> pos < end <= text.len(),
    decreases text.len() - pos,
{
    if 0 <= pos < text.len() {
        if text[pos] == '\\' {
            if pos + 1 < text.len() {
                lemma_quoted_name_advances(text, pos + 2, name.push(text[pos + 1]));
            }
        } else if text[pos] != '\'' {
            lemma_quoted_name_advances(text, pos + 1, name.push(text[pos]));
        }
    }
}

proof fn lemma_ident_end(text: Seq<char>, pos: int)
    requires
        0 <= pos <= text.len(),
    ensures
        pos <= ident_end(text, pos) <= text.len(),
    decreases text.len() - pos,
{
    if pos < text.len() && ident_continue(text[pos]) {
        lemma_ident_end(text, pos + 1);
    }
}

/// A step takes at least one character and none beyond the end.
pub proof fn lemma_step_advances(text: Seq<char>, pos: int, first: bool)
    requires
        0 <= pos < text.len(),
    ensures
        step_at(text, pos, first) matches Some((_, next)) ==> pos < next <= text.len(),
{
    let q = if first {
        pos
    } else {
        pos + 1
    };
    if text[pos] == '[' {
        let start = if char_at(text, pos + 1) == Some('-') {
            pos + 2
        } else {
            pos + 1
        };
        lemma_digit_chars_end(text, start);
    } else if q < text.len() {
        lemma_quoted_name_advances(text, q + 1, seq![]);
        lemma_ident_end(text, q + 1);
    }
}

pub proof fn lemma_ident_end_at(text: Seq<char>, pos: int, end: int)
    requires
        0 <= pos <= end <= text.len(),
        forall|i: int| pos <= i < end ==> ident_continue(#[trigger] text[i]),
        end < text.len() ==> !ident_continue(text[end]),
    ensures
        ident_end(text, pos) == end,
    decreases end - pos,
{
    if pos < end {
        assert(ident_continue(text[pos]));
        lemma_ident_end_at(text, pos + 1, end);
    }
}

/// An escaped name is read back as the name.
pub proof fn lemma_escaped_name_read(text: Seq<char>, pos: int, name: Seq<char>, before: Seq<char>)
    requires
        0 <= pos,
        pos + escaped_name(name).len() <= text.len(),
        text.subrange(pos, pos + escaped_name(name).len()) == escaped_name(name),
    ensures
        quoted_name(text, pos, before) == quoted_name(
            text,
            pos + escaped_name(name).len(),
            before + name,
        ),
    decreases name.len(),
{
    if name.len() == 0 {
        assert(before + name =~= before);
    } else {
        let c = name.last();
        let start = name.drop_last();
        let whole = escaped_name(name);
        let front = escaped_name(start);
        assert(text.subrange(pos, pos + front.len()) =~= front) by {
            assert forall|i: int| 0 <= i < front.len() implies text[pos + i] == front[i] by {
                assert(text.subrange(pos, pos + whole.len())[i] == whole[i]);
            }
        }
        lemma_escaped_name_read(text, pos, start, before);
        let next = pos + front.len();
        assert(text[next] == text.subrange(pos, pos + whole.len())[front.len() as int]);
        if c == '\\' || c == '\'' {
            assert(text[next + 1] == text.subrange(pos, pos + whole.len())[front.len() as int + 1]);
        }
        assert((before + start).push(c) =~= before + name);
    }
}

/// The canonical form of a step is read back as the step, where the text goes on with another
/// step or ends.
proof fn lemma_step_read(
    text: Seq<char>,
    pos: int,
    step: OwnedKeyPathModel,
    first: bool,
    end: int,
)
    requires
        0 <= pos <= end <= text.len(),
        text.subrange(pos, end) == step_text(step, first),
        end < text.len() ==> text[end] == '[' || text[end] == '.',
    ensures
        step_at(text, pos, first) == Some((step, end)),
        pos < end,
{
    let form = step_text(step, first);
    assert forall|i: int| 0 <= i < form.len() implies #[trigger] form[i] == text[pos + i] by {
        assert(text.subrange(pos, end)[i] == text[pos + i]);
    }
    assert(form.len() == end - pos);
    match step {
        OwnedKeyPathModel::Index(index) => {
            let magnitude = if index < 0 {
                -index
            } else {
                index as int
            };
            let digits = nat_text(magnitude as nat);
            lemma_nat_text(magnitude as nat);
            let start = if index < 0 {
                pos + 2
            } else {
                pos + 1
            };
            let inner = int_text(index as int);
            assert(form[0] == '[');
            assert(form[form.len() - 1] == ']');
            assert forall|i: int| 0 <= i < digits.len() implies text[start + i] == digits[i] by {
                if index < 0 {
                    assert(form[i + 2] == inner[i + 1]);
                } else {
                    assert(form[i + 1] == inner[i]);
                }
            }
            assert(text.subrange(start, end - 1) =~= digits);
            assert forall|i: int| start <= i < end - 1 implies is_digit_char(
                #[trigger] text[i],
            ) by {
                assert(text[i] == digits[i - start]);
            }
            assert(text[end - 1] == ']');
            lemma_digit_chars_end_at(text, start, end - 1);
            if index < 0 {
                assert(form[1] == inner[0]);
                assert(text[pos + 1] == '-');
            } else {
                assert(is_digit_char(text[pos + 1]));
            }
        },
        OwnedKeyPathModel::Name(name) => {
            let q = if first {
                pos
            } else {
                pos + 1
            };
            if !first {
                assert(form[0] == '.');
            }
            let inner = name_text(name);
            assert forall|i: int| 0 <= i < inner.len() implies text[q + i] == #[trigger] inner[i] by {
                if first {
                    assert(form[i] == inner[i]);
                } else {
                    assert(form[i + 1] == inner[i]);
                }
            }
            if ident(name) {
                assert(text[q] == name[0]);
                assert forall|i: int| q + 1 <= i < end implies ident_continue(
                    #[trigger] text[i],
                ) by {
                    assert(text[i] == name[i - q]);
                }
                lemma_ident_end_at(text, q + 1, end);
                assert(text.subrange(q, end) =~= name);
            } else {
                let escaped = escaped_name(name);
                assert(inner[0] == '\'');
                assert(inner[inner.len() - 1] == '\'');
                assert(text[q] == '\'');
                assert(text[end - 1] == '\'');
                assert(text.subrange(q + 1, q + 1 + escaped.len()) =~= escaped) by {
                    assert forall|i: int| 0 <= i < escaped.len() implies text[q + 1 + i]
                        == escaped[i] by {
                        assert(inner[i + 1] == escaped[i]);
                    }
                }
                lemma_escaped_name_read(text, q + 1, name, seq![]);
                assert(Seq::<char>::empty() + name =~= name);
            }
        },
    }
}

/// The canonical form of a path starts with that of its first steps, and goes on with a bracket
/// or a point.
proof fn lemma_canonical_prefix(steps: Seq<OwnedKeyPathModel>, k: int)
    requires
        0 <= k <= steps.len(),
    ensures
        ({
            let text = canonical(steps);
            let pos = canonical(steps.take(k)).len() as int;
            &&& pos <= text.len()
            &&& text.take(pos) == canonical(steps.take(k))
            &&& 1 <= k < steps.len() ==> pos < text.len() && (text[pos] == '[' || text[pos] == '.')
        }),
    decreases steps.len(),
{
    let text = canonical(steps);
    if k == steps.len() {
        assert(steps.take(k) =~= steps);
        assert(text.take(text.len() as int) =~= text);
    } else {
        let front = steps.drop_last();
        lemma_canonical_prefix(front, k);
        assert(front.take(k) =~= steps.take(k));
        let pos = canonical(steps.take(k)).len() as int;
        assert(text.take(pos) =~= canonical(front).take(pos));
        if k == front.len() {
            assert(front.take(k) =~= front);
        }
    }
}

/// Reading goes on from the end of the first steps to the whole path.
proof fn lemma_canonical_read(steps: Seq<OwnedKeyPathModel>, k: int)
    requires
        0 <= k <= steps.len(),
    ensures
        decoded_from(
            canonical(steps),
            canonical(steps.take(k)).len() as int,
            steps.take(k),
        ) == Some(steps),
    decreases steps.len() - k,
{
    let text = canonical(steps);
    let pos = canonical(steps.take(k)).len() as int;
    if k == steps.len() {
        assert(steps.take(k) =~= steps);
    } else {
        lemma_canonical_prefix(steps, k);
        lemma_canonical_prefix(steps, k + 1);
        lemma_canonical_read(steps, k + 1);
        let more = steps.take(k + 1);
        assert(more.drop_last() =~= steps.take(k));
        assert(more.last() == steps[k]);
        let end = canonical(more).len() as int;
        assert(text.subrange(pos, end) =~= step_text(steps[k], k == 0)) by {
            let form = step_text(steps[k], k == 0);
            assert(canonical(more) == canonical(steps.take(k)) + form);
            assert forall|i: int| 0 <= i < form.len() implies text[pos + i] == form[i] by {
                assert(text.take(end)[pos + i] == canonical(more)[pos + i]);
            }
        }
        lemma_step_read(text, pos, steps[k], k == 0, end);
        assert(steps.take(k).push(steps[k]) =~= more);
    }
}

/// A path is read back from its canonical form, unless it is empty.
pub proof fn lemma_canonical_round_trip(steps: Seq<OwnedKeyPathModel>)
    ensures
        decoded(canonical(steps)) == if steps.len() == 0 {
            None
        } else {
            Some(steps)
        },
{
    lemma_canonical_read(steps, 0);
    assert(steps.take(0) =~= seq![]);
    if steps.len() > 0 {
        lemma_canonical_prefix(steps, 0);
        lemma_canonical_prefix(steps, 1);
        let more = steps.take(1);
        assert(more.drop_last() =~= seq![]);
        let end = canonical(more).len() as int;
        assert(canonical(steps).subrange(0, end) =~= step_text(steps[0], true)) by {
            assert(canonical(more) =~= step_text(steps[0], true));
            assert(canonical(steps).take(end) =~= canonical(steps).subrange(0, end));
        }
        lemma_step_read(canonical(steps), 0, steps[0], true, end);
    }
}

/// Tells whether a name without quotes can start with a character.
pub fn is_ident_start(ch: char) -> (r: bool)
    ensures
        r == ident_start(ch),
        (ch as u32) <= 0x7f ==> r == (0x41 <= ch as u32 <= 0x5a || 0x61 <= ch as u32 <= 0x7a || ch
            as u32 == 0x5f),
        (ch as u32) > 0x7f ==> r == unicode_alphabetic(ch),
{
    if (ch as u32) <= 0x7f {
        ch == '_' || ('a' <= ch && ch <= 'z') || ('A' <= ch && ch <= 'Z')
    } else {
        ch.is_alphabetic()
    }
}

/// Tells whether a name without quotes can go on with a character.
pub fn is_ident_continue(ch: char) -> (r: bool)
    ensures
        r == ident_continue(ch),
        (ch as u32) <= 0x7f ==> r == (0x41 <= ch as u32 <= 0x5a || 0x61 <= ch as u32 <= 0x7a || ch
            as u32 == 0x5f || 0x30 <= ch as u32 <= 0x39),
        (ch as u32) > 0x7f ==> r == unicode_alphanumeric(ch),
{
    if (ch as u32) <= 0x7f {
        ch == '_' || ('a' <= ch && ch <= 'z') || ('A' <= ch && ch <= 'Z') || ('0' <= ch && ch
            <= '9')
    } else {
        ch.is_alphanumeric()
    }
}

/// Tells whether a name needs no quotes.
pub fn is_ident(name: &str) -> (r: bool)
    ensures
        r == ident(name@),
{
    let chars = chars_of(name);
    if chars.len() == 0 || !is_ident_start(chars[0]) {
        return false;
    }
    let mut i: usize = 1;
    while i < chars.len()
        invariant
            1 <= i <= chars@.len(),
            chars@ == name@,
            ident_start(chars@[0]),
            forall|j: int| 1 <= j < i ==> ident_continue(#[trigger] chars@[j]),
        decreases chars@.len() - i,
    {
        if !is_ident_continue(chars[i]) {
            return false;
        }
        i += 1;
    }
    true
}

/// Appends the canonical form of a name.
fn push_name(out: &mut String, name: &str)
    ensures
        final(out)@ == old(out)@ + name_text(name@),
{
    let chars = chars_of(name);
    if is_ident(name) {
        push_chars(out, chars.as_slice());
        return;
    }
    out.push('\'');
    let mut i: usize = 0;
    assert(out@ =~= old(out)@ + seq!['\''] + escaped_name(chars@.take(0)));
    while i < chars.len()
        invariant
            i <= chars@.len(),
            out@ == old(out)@ + seq!['\''] + escaped_name(chars@.take(i as int)),
        decreases chars@.len() - i,
    {
        let ch = chars[i];
        assert(chars@.take(i + 1).drop_last() =~= chars@.take(i as int));
        if ch == '\\' || ch == '\'' {
            out.push('\\');
        }
        out.push(ch);
        assert(out@ =~= old(out)@ + seq!['\''] + escaped_name(chars@.take(i + 1)));
        i += 1;
    }
    out.push('\'');
    assert(chars@.take(i as int) =~= chars@);
    assert(out@ =~= old(out)@ + name_text(name@));
}

/// The canonical form of a path.
pub fn encode_canonical_path(paths: &[OwnedKeyPath]) -> (encoded: String)
    ensures
        encoded@ == canonical(owned_key_path_models(paths@)),
{
    let ghost steps = owned_key_path_models(paths@);
    let mut encoded = String::new();
    let mut i: usize = 0;
    assert(encoded@ =~= canonical(steps.take(0)));
    while i < paths.len()
        invariant
            i <= paths@.len(),
            steps == owned_key_path_models(paths@),
            encoded@ == canonical(steps.take(i as int)),
        decreases paths@.len() - i,
    {
        let ghost before = encoded@;
        match &paths[i] {
            OwnedKeyPath::Index(index) => {
                encoded.push('[');
                push_int(&mut encoded, *index);
                encoded.push(']');
            },
            OwnedKeyPath::Name(name) => {
                if i > 0 {
                    encoded.push('.');
                }
                push_name(&mut encoded, name.as_str());
            },
        }
        proof {
            let more = steps.take(i + 1);
            assert(more.drop_last() =~= steps.take(i as int));
            assert(more.last() == paths@[i as int]@);
            assert(encoded@ =~= before + step_text(more.last(), i == 0));
        }
        i += 1;
    }
    assert(steps.take(i as int) =~= steps);
    encoded
}

/// The number that digits spell, if it fits in 32 bits.
fn read_magnitude(chars: &[char], start: usize, end: usize) -> (r: Option<u32>)
    requires
        start <= end <= chars@.len(),
        forall|i: int| start <= i < end ==> is_digit_char(#[trigger] chars@[i]),
    ensures
        ({
            let value = digits_value(chars@.subrange(start as int, end as int));
            match r {
                Some(v) => v == value,
                None => value > u32::MAX,
            }
        }),
{
    let mut value: u32 = 0;
    let mut overflow = false;
    let mut i: usize = start;
    assert(chars@.subrange(start as int, start as int) =~= Seq::empty());
    while i < end
        invariant
            start <= i <= end <= chars@.len(),
            forall|i: int| start <= i < end ==> is_digit_char(#[trigger] chars@[i]),
            overflow == (digits_value(chars@.subrange(start as int, i as int)) > u32::MAX),
            !overflow ==> value == digits_value(chars@.subrange(start as int, i as int)),
        decreases end - i,
    {
        assert(chars@.subrange(start as int, i + 1).drop_last() =~= chars@.subrange(
            start as int,
            i as int,
        ));
        if !overflow {
            let digit: u32 = (chars[i] as u32) - 0x30;
            match value.checked_mul(10) {
                Some(shifted) => {
                    match shifted.checked_add(digit) {
                        Some(next) => {
                            value = next;
                        },
                        None => {
                            overflow = true;
                        },
                    }
                },
                None => {
                    overflow = true;
                },
            }
        }
        i += 1;
    }
    if overflow {
        None
    } else {
        Some(value)
    }
}

/// Reads an index from behind its opening bracket on.
fn decode_index(chars: &[char], pos: usize) -> (r: Option<(OwnedKeyPath, usize)>)
    requires
        pos <= chars@.len(),
    ensures
        match r {
            Some((step, next)) => index_step(chars@, pos as int) == Some((step@, next as int)),
            None => index_step(chars@, pos as int) is None,
        },
{
    let negative = pos < chars.len() && chars[pos] == '-';
    let first: usize = if negative {
        pos + 1
    } else {
        pos
    };
    let mut end: usize = first;
    while end < chars.len() && '0' <= chars[end] && chars[end] <= '9'
        invariant
            first <= end <= chars@.len(),
            digit_chars_end(chars@, first as int) == digit_chars_end(chars@, end as int),
        decreases chars@.len() - end,
    {
        end += 1;
    }
    proof {
        lemma_digit_chars_end(chars@, first as int);
    }
    if end == first || end >= chars.len() || chars[end] != ']' {
        return None;
    }
    let magnitude = match read_magnitude(chars, first, end) {
        Some(magnitude) => magnitude,
        None => {
            return None;
        },
    };
    if negative {
        if magnitude > 0x8000_0000 {
            return None;
        }
        Some((OwnedKeyPath::Index((-(magnitude as i64)) as i32), end + 1))
    } else {
        if magnitude > 0x7fff_ffff {
            return None;
        }
        Some((OwnedKeyPath::Index(magnitude as i32), end + 1))
    }
}

/// Reads a name from behind its opening quote on.
fn decode_quoted_name(chars: &[char], pos: usize) -> (r: Option<(String, usize)>)
    requires
        pos <= chars@.len(),
    ensures
        match r {
            Some((name, next)) => quoted_name(chars@, pos as int, seq![]) == Some(
                (name@, next as int),
            ),
            None => quoted_name(chars@, pos as int, seq![]) is None,
        },
{
    let mut name = String::new();
    let mut i: usize = pos;
    while i < chars.len()
        invariant
            i <= chars@.len(),
            quoted_name(chars@, pos as int, seq![]) == quoted_name(chars@, i as int, name@),
        decreases chars@.len() - i,
    {
        let ch = chars[i];
        if ch == '\\' {
            if i + 1 < chars.len() && (chars[i + 1] == '\\' || chars[i + 1] == '\'') {
                name.push(chars[i + 1]);
                i += 2;
            } else {
                return None;
            }
        } else if ch == '\'' {
            return Some((name, i + 1));
        } else {
            name.push(ch);
            i += 1;
        }
    }
    None
}

/// Reads a name.
fn decode_name(chars: &[char], pos: usize) -> (r: Option<(OwnedKeyPath, usize)>)
    requires
        pos <= chars@.len(),
    ensures
        match r {
            Some((step, next)) => name_step(chars@, pos as int) == Some((step@, next as int)),
            None => name_step(chars@, pos as int) is None,
        },
{
    if pos >= chars.len() {
        return None;
    }
    if chars[pos] == '\'' {
        return match decode_quoted_name(chars, pos + 1) {
            Some((name, end)) => Some((OwnedKeyPath::Name(name), end)),
            None => None,
        };
    }
    if !is_ident_start(chars[pos]) {
        return None;
    }
    let mut end: usize = pos + 1;
    while end < chars.len() && is_ident_continue(chars[end])
        invariant
            pos < end <= chars@.len(),
            ident_end(chars@, pos + 1) == ident_end(chars@, end as int),
        decreases chars@.len() - end,
    {
        end += 1;
    }
    let mut name = String::new();
    push_chars(&mut name, slice_subrange(chars, pos, end));
    assert(name@ =~= chars@.subrange(pos as int, end as int));
    Some((OwnedKeyPath::Name(name), end))
}

/// Reads a path in canonical form.
pub fn decode_canonical_path(path: &str) -> (r: Option<OwnedKeyPaths>)
    ensures
        match r {
            Some(paths) => decoded(path@) == Some(paths@),
            None => decoded(path@) is None,
        },
{
    let chars = chars_of(path);
    let chars = chars.as_slice();
    let mut paths: Vec<OwnedKeyPath> = Vec::new();
    let mut index: usize = 0;
    assert(owned_key_path_models(paths@) =~= seq![]);
    if chars.len() == 0 {
        return None;
    }
    while index < chars.len()
        invariant
            index <= chars@.len(),
            chars@ == path@,
            path@.len() > 0,
            decoded(path@) == decoded_from(
                path@,
                index as int,
                owned_key_path_models(paths@),
            ),
        decreases chars@.len() - index,
    {
        proof {
            lemma_step_advances(path@, index as int, paths@.len() == 0);
        }
        let step = if chars[index] == '[' {
            decode_index(chars, index + 1)
        } else if paths.len() == 0 {
            decode_name(chars, index)
        } else if chars[index] == '.' {
            decode_name(chars, index + 1)
        } else {
            None
        };
        match step {
            Some((step, next)) => {
                let ghost before = owned_key_path_models(paths@);
                paths.push(step);
                assert(owned_key_path_models(paths@) =~= before.push(step@));
                index = next;
            },
            None => {
                return None;
            },
        }
    }
    Some(OwnedKeyPaths { paths })
}

} // verus!
