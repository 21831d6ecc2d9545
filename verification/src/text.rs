//! Strings as sequences of characters, and integers in decimal.

use std::borrow::Cow;

use vstd::prelude::*;
use vstd::utf8::encode_utf8;

verus! {

/// `String::push`: appends the given character.
pub assume_specification[ String::push ](s: &mut String, c: char)
    ensures
        final(s)@ == old(s)@.push(c),
;

/// The bytes of a string.
pub fn cow_bytes<'b>(s: &'b Cow<'_, str>) -> (bytes: &'b [u8])
    ensures
        bytes@ == encode_utf8(s@),
{
    match s {
        Cow::Borrowed(s) => s.as_bytes(),
        Cow::Owned(s) => s.as_str().as_bytes(),
    }
}

/// A copy of a string that owns its characters.
pub fn cow_string(s: &Cow<'_, str>) -> (string: String)
    ensures
        string@ == s@,
{
    match s {
        Cow::Borrowed(s) => (*s).to_owned(),
        Cow::Owned(s) => s.as_str().to_owned(),
    }
}

/// A copy of a string that borrows what the string borrows.
pub fn cow_clone<'a>(s: &Cow<'a, str>) -> (r: Cow<'a, str>)
    ensures
        r@ == s@,
{
    match s {
        Cow::Borrowed(s) => Cow::Borrowed(*s),
        Cow::Owned(s) => Cow::Owned(s.as_str().to_owned()),
    }
}

/// The characters of a string.
pub fn chars_of(s: &str) -> (chars: Vec<char>)
    ensures
        chars@ == s@,
{
    let mut chars: Vec<char> = Vec::new();
    for c in it: s.chars()
        invariant
            it.seq() == s@,
            chars@ == s@.take(it.index() as int),
    {
        chars.push(c);
        assert(chars@ =~= s@.take(it.index() + 1));
    }
    assert(s@.take(s@.len() as int) =~= s@);
    chars
}

/// Appends characters to a string.
pub fn push_chars(s: &mut String, chars: &[char])
    ensures
        final(s)@ == old(s)@ + chars@,
{
    let mut i: usize = 0;
    assert(s@ =~= old(s)@ + chars@.take(0));
    while i < chars.len()
        invariant
            i <= chars@.len(),
            s@ == old(s)@ + chars@.take(i as int),
        decreases chars@.len() - i,
    {
        s.push(chars[i]);
        assert(s@ =~= old(s)@ + chars@.take(i + 1));
        i += 1;
    }
    assert(chars@.take(i as int) =~= chars@);
}

/// The decimal digits among the characters.
pub open spec fn is_digit_char(c: char) -> bool {
    '0' <= c <= '9'
}

/// The digit of a number below ten.
pub open spec fn digit_char(n: nat) -> char {
    (n + 0x30) as char
}

/// A number in decimal.
pub open spec fn nat_text(n: nat) -> Seq<char>
    decreases n,
{
    if n < 10 {
        seq![digit_char(n)]
    } else {
        nat_text(n / 10).push(digit_char(n % 10))
    }
}

/// A number in decimal, with a sign where it is negative.
pub open spec fn int_text(i: int) -> Seq<char> {
    if i < 0 {
        seq!['-'] + nat_text((-i) as nat)
    } else {
        nat_text(i as nat)
    }
}

/// The number that a sequence of digits spells.
pub open spec fn digits_value(digits: Seq<char>) -> nat
    decreases digits.len(),
{
    if digits.len() == 0 {
        0
    } else {
        (digits_value(digits.drop_last()) * 10 + (digits.last() as int - 0x30)) as nat
    }
}

/// The first offset from `pos` on whose character is not a digit.
pub open spec fn digit_chars_end(text: Seq<char>, pos: int) -> int
    decreases text.len() - pos,
{
    if 0 <= pos < text.len() && is_digit_char(text[pos]) {
        digit_chars_end(text, pos + 1)
    } else {
        pos
    }
}

/// A number in decimal is made of digits and spells the number.
pub proof fn lemma_nat_text(n: nat)
    ensures
        nat_text(n).len() > 0,
        forall|i: int| 0 <= i < nat_text(n).len() ==> is_digit_char(#[trigger] nat_text(n)[i]),
        digits_value(nat_text(n)) == n,
    decreases n,
{
    if n < 10 {
        assert(nat_text(n).drop_last() =~= Seq::empty());
        assert(digits_value(Seq::empty()) == 0);
    } else {
        lemma_nat_text(n / 10);
        assert(nat_text(n).drop_last() =~= nat_text(n / 10));
    }
}

pub proof fn lemma_digit_chars_end(text: Seq<char>, pos: int)
    requires
        0 <= pos <= text.len(),
    ensures
        pos <= digit_chars_end(text, pos) <= text.len(),
        forall|i: int|
            pos <= i < digit_chars_end(text, pos) ==> is_digit_char(#[trigger] text[i]),
    decreases text.len() - pos,
{
    if pos < text.len() && is_digit_char(text[pos]) {
        lemma_digit_chars_end(text, pos + 1);
    }
}

/// A run of digits ends where the first other character is.
pub proof fn lemma_digit_chars_end_at(text: Seq<char>, pos: int, end: int)
    requires
        0 <= pos <= end <= text.len(),
        forall|i: int| pos <= i < end ==> is_digit_char(#[trigger] text[i]),
        end < text.len() ==> !is_digit_char(text[end]),
    ensures
        digit_chars_end(text, pos) == end,
    decreases end - pos,
{
    if pos < end {
        assert(is_digit_char(text[pos]));
        lemma_digit_chars_end_at(text, pos + 1, end);
    }
}

/// Appends a number in decimal.
fn push_nat(s: &mut String, n: u32)
    ensures
        final(s)@ == old(s)@ + nat_text(n as nat),
    decreases n,
{
    if n >= 10 {
        push_nat(s, n / 10);
    }
    s.push(digit_of((n % 10) as u8));
    assert(s@ =~= old(s)@ + nat_text(n as nat));
}

/// The character of a digit.
fn digit_of(n: u8) -> (c: char)
    requires
        n < 10,
    ensures
        c == digit_char(n as nat),
{
    (n + 0x30) as char
}

/// Appends a number in decimal.
pub fn push_int(s: &mut String, i: i32)
    ensures
        final(s)@ == old(s)@ + int_text(i as int),
{
    if i < 0 {
        s.push('-');
        push_nat(s, (-(i as i64)) as u32);
        assert(s@ =~= old(s)@ + int_text(i as int));
    } else {
        push_nat(s, i as u32);
    }
}

} // verus!
