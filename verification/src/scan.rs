//! Scanners over raw bytes: whitespace, digit runs and quoted strings.

use vstd::prelude::*;
use vstd::slice::slice_subrange;

use crate::ascii::{BACKSLASH, LOWER_U, OPEN_BRACE};

verus! {

/// The byte at `pos`, if the text reaches that far.
pub open spec fn byte_at(text: Seq<u8>, pos: int) -> Option<u8> {
    if 0 <= pos < text.len() {
        Some(text[pos])
    } else {
        None
    }
}

/// The whitespace bytes: space, line feed, carriage return, tab and form feed.
pub open spec fn is_whitespace(byte: u8) -> bool {
    byte == 0x20 || byte == 0x0a || byte == 0x0d || byte == 0x09 || byte == 0x0c
}

/// The decimal digits of ASCII.
pub open spec fn is_digit(byte: u8) -> bool {
    0x30 <= byte <= 0x39
}

/// The hexadecimal digits of ASCII.
pub open spec fn is_hex_digit(byte: u8) -> bool {
    is_digit(byte) || 0x41 <= byte <= 0x46 || 0x61 <= byte <= 0x66
}

/// The first offset from `pos` on whose byte is not whitespace, or the end of the text.
pub open spec fn whitespace_end(text: Seq<u8>, pos: int) -> int
    decreases text.len() - pos,
{
    if 0 <= pos < text.len() && is_whitespace(text[pos]) {
        whitespace_end(text, pos + 1)
    } else {
        pos
    }
}

/// The first offset from `pos` on whose byte is not a decimal digit, or the end of the text.
pub open spec fn digits_end(text: Seq<u8>, pos: int) -> int
    decreases text.len() - pos,
{
    if 0 <= pos < text.len() && is_digit(text[pos]) {
        digits_end(text, pos + 1)
    } else {
        pos
    }
}

/// The first offset from `pos` on whose byte is not a hexadecimal digit, or the end of the text.
pub open spec fn hex_digits_end(text: Seq<u8>, pos: int) -> int
    decreases text.len() - pos,
{
    if 0 <= pos < text.len() && is_hex_digit(text[pos]) {
        hex_digits_end(text, pos + 1)
    } else {
        pos
    }
}

/// The number that a digit stands for.
pub open spec fn digit_value(byte: u8) -> nat {
    if is_digit(byte) {
        (byte - 0x30) as nat
    } else if 0x41 <= byte <= 0x46 {
        (byte - 0x41 + 10) as nat
    } else {
        (byte - 0x61 + 10) as nat
    }
}

/// The number that a sequence of digits stands for in the given radix.
pub open spec fn radix_value(digits: Seq<u8>, radix: nat) -> nat
    decreases digits.len(),
{
    if digits.len() == 0 {
        0
    } else {
        radix_value(digits.drop_last(), radix) * radix + digit_value(digits.last())
    }
}

/// The number that a sequence of decimal digits stands for.
pub open spec fn decimal_value(digits: Seq<u8>) -> nat {
    radix_value(digits, 10)
}

pub proof fn lemma_whitespace_end(text: Seq<u8>, pos: int)
    requires
        0 <= pos <= text.len(),
    ensures
        pos <= whitespace_end(text, pos) <= text.len(),
    decreases text.len() - pos,
{
    if pos < text.len() && is_whitespace(text[pos]) {
        lemma_whitespace_end(text, pos + 1);
    }
}

pub proof fn lemma_digits_end(text: Seq<u8>, pos: int)
    requires
        0 <= pos <= text.len(),
    ensures
        pos <= digits_end(text, pos) <= text.len(),
        forall|i: int| pos <= i < digits_end(text, pos) ==> is_digit(#[trigger] text[i]),
        digits_end(text, pos) < text.len() ==> !is_digit(text[digits_end(text, pos)]),
    decreases text.len() - pos,
{
    if pos < text.len() && is_digit(text[pos]) {
        lemma_digits_end(text, pos + 1);
    }
}

pub proof fn lemma_hex_digits_end(text: Seq<u8>, pos: int)
    requires
        0 <= pos <= text.len(),
    ensures
        pos <= hex_digits_end(text, pos) <= text.len(),
        forall|i: int| pos <= i < hex_digits_end(text, pos) ==> is_hex_digit(#[trigger] text[i]),
    decreases text.len() - pos,
{
    if pos < text.len() && is_hex_digit(text[pos]) {
        lemma_hex_digits_end(text, pos + 1);
    }
}

/// A run of digits ends at the same place seen from any offset inside it.
pub proof fn lemma_digits_end_from(text: Seq<u8>, pos: int, mid: int)
    requires
        0 <= pos <= mid <= text.len(),
        forall|i: int| pos <= i < mid ==> is_digit(#[trigger] text[i]),
    ensures
        digits_end(text, pos) == digits_end(text, mid),
    decreases mid - pos,
{
    if pos < mid {
        assert(is_digit(text[pos]));
        lemma_digits_end_from(text, pos + 1, mid);
    }
}

pub proof fn lemma_radix_value_push(digits: Seq<u8>, digit: u8, radix: nat)
    ensures
        radix_value(digits.push(digit), radix) == radix_value(digits, radix) * radix + digit_value(
            digit,
        ),
{
    assert(digits.push(digit).drop_last() =~= digits);
}

/// Ten to the power `n`.
pub open spec fn pow10(n: nat) -> nat
    decreases n,
{
    if n == 0 {
        1
    } else {
        10 * pow10((n - 1) as nat)
    }
}

/// All bytes are decimal digits.
pub open spec fn all_digits(digits: Seq<u8>) -> bool {
    forall|i: int| 0 <= i < digits.len() ==> is_digit(#[trigger] digits[i])
}

/// A number of `n` digits is below ten to the power `n`.
pub proof fn lemma_decimal_value_bound(digits: Seq<u8>)
    requires
        all_digits(digits),
    ensures
        decimal_value(digits) < pow10(digits.len()),
    decreases digits.len(),
{
    if digits.len() > 0 {
        lemma_decimal_value_bound(digits.drop_last());
        assert(is_digit(digits[digits.len() - 1]));
    }
}

/// Digits that are appended move those before them up.
pub proof fn lemma_decimal_value_concat(a: Seq<u8>, b: Seq<u8>)
    ensures
        decimal_value(a + b) == decimal_value(a) * pow10(b.len()) + decimal_value(b),
    decreases b.len(),
{
    if b.len() == 0 {
        assert(a + b =~= a);
        assert(decimal_value(a) * pow10(0) == decimal_value(a)) by (nonlinear_arith)
            requires
                pow10(0) == 1,
        ;
    } else {
        lemma_decimal_value_concat(a, b.drop_last());
        assert((a + b).drop_last() =~= a + b.drop_last());
        let x = decimal_value(a);
        let p = pow10((b.len() - 1) as nat);
        let y = decimal_value(b.drop_last());
        assert((x * p + y) * 10 == x * (10 * p) + y * 10) by (nonlinear_arith);
    }
}

pub proof fn lemma_pow10_monotonic(a: nat, b: nat)
    requires
        a <= b,
    ensures
        1 <= pow10(a) <= pow10(b),
    decreases b,
{
    if a < b {
        lemma_pow10_monotonic(a, (b - 1) as nat);
    } else if a > 0 {
        lemma_pow10_monotonic((a - 1) as nat, (b - 1) as nat);
    }
}

/// Tells whether a byte is JSON whitespace.
pub fn is_json_whitespace(byte: u8) -> (r: bool)
    ensures
        r == is_whitespace(byte),
        r <==> byte == 0x09 || byte == 0x0a || byte == 0x0c || byte == 0x0d || byte == 0x20,
{
    byte == 0x20 || byte == 0x0a || byte == 0x0d || byte == 0x09 || byte == 0x0c
}

/// Tells whether a byte is a decimal digit.
pub fn is_ascii_digit(byte: u8) -> (r: bool)
    ensures
        r == is_digit(byte),
        r <==> 0x30 <= byte <= 0x39,
{
    0x30 <= byte && byte <= 0x39
}

/// Tells whether a byte is a hexadecimal digit.
pub fn is_ascii_hexdigit(byte: u8) -> (r: bool)
    ensures
        r == is_hex_digit(byte),
        r <==> 0x30 <= byte <= 0x39 || 0x41 <= byte <= 0x46 || 0x61 <= byte <= 0x66,
{
    is_ascii_digit(byte) || (0x41 <= byte && byte <= 0x46) || (0x61 <= byte && byte <= 0x66)
}

/// Skips the whitespace that starts at `start`.
pub fn skip_ascii_whitespace(buf: &[u8], start: usize) -> (end: usize)
    ensures
        end == whitespace_end(buf@, start as int),
        start <= end,
        start <= buf@.len() ==> end <= buf@.len(),
{
    let mut idx: usize = start;
    while idx < buf.len() && is_json_whitespace(buf[idx])
        invariant
            start <= idx,
            start <= buf@.len() ==> idx <= buf@.len(),
            whitespace_end(buf@, start as int) == whitespace_end(buf@, idx as int),
        decreases buf@.len() - idx,
    {
        idx += 1;
    }
    idx
}

/// Skips the decimal digits that start at `start`.
pub fn scan_digits(buf: &[u8], start: usize) -> (end: usize)
    ensures
        end == digits_end(buf@, start as int),
        start <= end,
        start <= buf@.len() ==> end <= buf@.len(),
{
    let mut idx: usize = start;
    while idx < buf.len() && is_ascii_digit(buf[idx])
        invariant
            start <= idx,
            start <= buf@.len() ==> idx <= buf@.len(),
            digits_end(buf@, start as int) == digits_end(buf@, idx as int),
        decreases buf@.len() - idx,
    {
        idx += 1;
    }
    idx
}

/// Skips the hexadecimal digits that start at `start`.
pub fn scan_hexdigits(buf: &[u8], start: usize) -> (end: usize)
    ensures
        end == hex_digits_end(buf@, start as int),
        start <= end,
        start <= buf@.len() ==> end <= buf@.len(),
{
    let mut idx: usize = start;
    while idx < buf.len() && is_ascii_hexdigit(buf[idx])
        invariant
            start <= idx,
            start <= buf@.len() ==> idx <= buf@.len(),
            hex_digits_end(buf@, start as int) == hex_digits_end(buf@, idx as int),
        decreases buf@.len() - idx,
    {
        idx += 1;
    }
    idx
}

/// The number that eight bytes spell in little-endian order.
fn read_le_u64(src: &[u8]) -> (val: u64)
    requires
        src@.len() >= 8,
    ensures
        val == (src[0] as u64) | (src[1] as u64) << 8u64 | (src[2] as u64) << 16u64 | (
        src[3] as u64) << 24u64 | (src[4] as u64) << 32u64 | (src[5] as u64) << 40u64 | (
        src[6] as u64) << 48u64 | (src[7] as u64) << 56u64,
{
    (src[0] as u64) | (src[1] as u64) << 8u64 | (src[2] as u64) << 16u64 | (src[3] as u64) << 24u64
        | (src[4] as u64) << 32u64 | (src[5] as u64) << 40u64 | (src[6] as u64) << 48u64 | (
    src[7] as u64) << 56u64
}

/// All of the first eight bytes are decimal digits.
pub open spec fn eight_digits(text: Seq<u8>) -> bool {
    forall|i: int| 0 <= i < 8 ==> is_digit(#[trigger] text[i])
}

/// Tells whether the first eight bytes are all decimal digits, looking at all of them at once.
pub fn is_eight_digits(src: &[u8]) -> (r: bool)
    requires
        src@.len() >= 8,
    ensures
        r == eight_digits(src@),
{
    let val = read_le_u64(src);
    let lower = val.wrapping_sub(0x3030_3030_3030_3030);
    let upper = val.wrapping_add(0x4646_4646_4646_4646);
    let r = (lower | upper) & 0x8080_8080_8080_8080 == 0;
    proof {
        let b0 = src[0];
        let b1 = src[1];
        let b2 = src[2];
        let b3 = src[3];
        let b4 = src[4];
        let b5 = src[5];
        let b6 = src[6];
        let b7 = src[7];
        assert(((lower | upper) & 0x8080_8080_8080_8080 == 0) == (0x30 <= b0 <= 0x39 && 0x30 <= b1
            <= 0x39 && 0x30 <= b2 <= 0x39 && 0x30 <= b3 <= 0x39 && 0x30 <= b4 <= 0x39 && 0x30 <= b5
            <= 0x39 && 0x30 <= b6 <= 0x39 && 0x30 <= b7 <= 0x39)) by (bit_vector)
            requires
                val == (b0 as u64) | (b1 as u64) << 8u64 | (b2 as u64) << 16u64 | (b3 as u64)
                    << 24u64 | (b4 as u64) << 32u64 | (b5 as u64) << 40u64 | (b6 as u64) << 48u64 | (
                b7 as u64) << 56u64,
                lower == (if val < 0x3030_3030_3030_3030u64 {
                    val - 0x3030_3030_3030_3030u64 + 0x1_0000_0000_0000_0000
                } else {
                    val - 0x3030_3030_3030_3030u64
                }),
                upper == (if val + 0x4646_4646_4646_4646u64 > 0xffff_ffff_ffff_ffffu64 {
                    val + 0x4646_4646_4646_4646u64 - 0x1_0000_0000_0000_0000
                } else {
                    val + 0x4646_4646_4646_4646u64
                }),
        ;
        if r {
            assert forall|i: int| 0 <= i < 8 implies is_digit(#[trigger] src@[i]) by {
                assert(i == 0 || i == 1 || i == 2 || i == 3 || i == 4 || i == 5 || i == 6 || i
                    == 7);
            }
        } else if eight_digits(src@) {
            assert(is_digit(src@[0]) && is_digit(src@[1]) && is_digit(src@[2]) && is_digit(src@[3])
                && is_digit(src@[4]) && is_digit(src@[5]) && is_digit(src@[6]) && is_digit(
                src@[7],
            ));
        }
    }
    r
}

/// The number that eight decimal digits spell.
pub open spec fn eight_digits_value(text: Seq<u8>) -> int {
    (text[0] - 0x30) * 10000000 + (text[1] - 0x30) * 1000000 + (text[2] - 0x30) * 100000 + (text[3]
        - 0x30) * 10000 + (text[4] - 0x30) * 1000 + (text[5] - 0x30) * 100 + (text[6] - 0x30) * 10
        + (text[7] - 0x30)
}

/// Reads the number that eight decimal digits spell, combining neighbours in three steps.
pub fn parse_eight_digits(src: &[u8]) -> (value: u32)
    requires
        src@.len() >= 8,
        eight_digits(src@),
    ensures
        value == eight_digits_value(src@),
{
    let ghost d0 = (src[0] - 0x30) as u64;
    let ghost d1 = (src[1] - 0x30) as u64;
    let ghost d2 = (src[2] - 0x30) as u64;
    let ghost d3 = (src[3] - 0x30) as u64;
    let ghost d4 = (src[4] - 0x30) as u64;
    let ghost d5 = (src[5] - 0x30) as u64;
    let ghost d6 = (src[6] - 0x30) as u64;
    let ghost d7 = (src[7] - 0x30) as u64;
    let raw = read_le_u64(src);
    proof {
        assert(is_digit(src@[0]) && is_digit(src@[1]) && is_digit(src@[2]) && is_digit(src@[3])
            && is_digit(src@[4]) && is_digit(src@[5]) && is_digit(src@[6]) && is_digit(src@[7]));
        let b0 = src[0];
        let b1 = src[1];
        let b2 = src[2];
        let b3 = src[3];
        let b4 = src[4];
        let b5 = src[5];
        let b6 = src[6];
        let b7 = src[7];
        assert(raw >= 0x3030_3030_3030_3030u64 && raw - 0x3030_3030_3030_3030u64 == d0 | d1 << 8u64
            | d2 << 16u64 | d3 << 24u64 | d4 << 32u64 | d5 << 40u64 | d6 << 48u64 | d7 << 56u64)
            by (bit_vector)
            requires
                raw == (b0 as u64) | (b1 as u64) << 8u64 | (b2 as u64) << 16u64 | (b3 as u64)
                    << 24u64 | (b4 as u64) << 32u64 | (b5 as u64) << 40u64 | (b6 as u64) << 48u64 | (
                b7 as u64) << 56u64,
                0x30 <= b0 <= 0x39 && 0x30 <= b1 <= 0x39 && 0x30 <= b2 <= 0x39 && 0x30 <= b3 <= 0x39
                    && 0x30 <= b4 <= 0x39 && 0x30 <= b5 <= 0x39 && 0x30 <= b6 <= 0x39 && 0x30 <= b7
                    <= 0x39,
                d0 == b0 - 0x30 && d1 == b1 - 0x30 && d2 == b2 - 0x30 && d3 == b3 - 0x30 && d4 == b4
                    - 0x30 && d5 == b5 - 0x30 && d6 == b6 - 0x30 && d7 == b7 - 0x30,
        ;
    }
    let bytes: u64 = raw - 0x3030_3030_3030_3030;
    proof {
        assert(bytes <= 0x0909_0909_0909_0909u64) by (bit_vector)
            requires
                bytes == d0 | d1 << 8u64 | d2 << 16u64 | d3 << 24u64 | d4 << 32u64 | d5 << 40u64
                    | d6 << 48u64 | d7 << 56u64,
                d0 <= 9 && d1 <= 9 && d2 <= 9 && d3 <= 9 && d4 <= 9 && d5 <= 9 && d6 <= 9 && d7
                    <= 9,
        ;
        assert(bytes >> 8u64 <= 0x0009_0909_0909_0909u64) by (bit_vector)
            requires
                bytes <= 0x0909_0909_0909_0909u64,
        ;
    }
    let pairs: u64 = (bytes * 10 + (bytes >> 8)) & 0x00ff_00ff_00ff_00ff;
    proof {
        let sum = (bytes * 10 + (bytes >> 8u64)) as u64;
        assert(sum & 0x00ff_00ff_00ff_00ffu64 == (d0 * 10 + d1) + (d2 * 10 + d3) * 0x1_0000 + (d4
            * 10 + d5) * 0x1_0000_0000 + (d6 * 10 + d7) * 0x1_0000_0000_0000) by (bit_vector)
            requires
                bytes == d0 | d1 << 8u64 | d2 << 16u64 | d3 << 24u64 | d4 << 32u64 | d5 << 40u64
                    | d6 << 48u64 | d7 << 56u64,
                d0 <= 9 && d1 <= 9 && d2 <= 9 && d3 <= 9 && d4 <= 9 && d5 <= 9 && d6 <= 9 && d7
                    <= 9,
                sum == bytes * 10 + (bytes >> 8u64),
        ;
    }
    let ghost p0 = (d0 * 10 + d1) as u64;
    let ghost p1 = (d2 * 10 + d3) as u64;
    let ghost p2 = (d4 * 10 + d5) as u64;
    let ghost p3 = (d6 * 10 + d7) as u64;
    proof {
        assert(pairs >> 16u64 <= 0x0000_0063_0063_0063u64) by (bit_vector)
            requires
                pairs <= 0x0063_0063_0063_0063u64,
        ;
    }
    let quads: u64 = (pairs * 100 + (pairs >> 16)) & 0x0000_ffff_0000_ffff;
    proof {
        let sum = (pairs * 100 + (pairs >> 16u64)) as u64;
        assert(sum & 0x0000_ffff_0000_ffffu64 == (p0 * 100 + p1) + (p2 * 100 + p3) * 0x1_0000_0000)
            by (bit_vector)
            requires
                pairs == p0 + p1 * 0x1_0000 + p2 * 0x1_0000_0000 + p3 * 0x1_0000_0000_0000,
                p0 <= 99 && p1 <= 99 && p2 <= 99 && p3 <= 99,
                sum == pairs * 100 + (pairs >> 16u64),
        ;
    }
    let ghost q0 = (p0 * 100 + p1) as u64;
    let ghost q1 = (p2 * 100 + p3) as u64;
    proof {
        assert(quads >> 32u64 == q1) by (bit_vector)
            requires
                quads == q0 + q1 * 0x1_0000_0000,
                q0 <= 9999 && q1 <= 9999,
        ;
    }
    let whole: u64 = quads * 10000 + (quads >> 32);
    proof {
        assert((whole as u32) == q0 * 10000 + q1) by (bit_vector)
            requires
                whole == quads * 10000 + q1,
                quads == q0 + q1 * 0x1_0000_0000,
                q0 <= 9999 && q1 <= 9999,
        ;
    }
    whole as u32
}

/// What a run of decimal digits amounts to.
#[derive(Debug, Clone, Copy, PartialEq, Eq)]
pub struct IntegerScan {
    /// The offset behind the run.
    pub end: usize,
    /// The number that the digits spell, unless `overflow` is set.
    pub value: u64,
    /// The number of digits.
    pub digits: usize,
    /// The number does not fit in 64 bits.
    pub overflow: bool,
}

/// One more digit multiplies by ten and adds.
pub proof fn lemma_decimal_value_step(text: Seq<u8>, start: int, pos: int)
    requires
        0 <= start <= pos < text.len(),
    ensures
        decimal_value(text.subrange(start, pos + 1)) == decimal_value(text.subrange(start, pos))
            * 10 + digit_value(text[pos]),
{
    assert(text.subrange(start, pos + 1).drop_last() =~= text.subrange(start, pos));
}

/// Eight more digits multiply by a hundred million and add.
proof fn lemma_decimal_value_eight(text: Seq<u8>, start: int, pos: int)
    requires
        0 <= start <= pos,
        pos + 8 <= text.len(),
        eight_digits(text.subrange(pos, text.len() as int)),
    ensures
        decimal_value(text.subrange(start, pos + 8)) == decimal_value(text.subrange(start, pos))
            * 100000000 + eight_digits_value(text.subrange(pos, text.len() as int)),
        forall|i: int| pos <= i < pos + 8 ==> is_digit(#[trigger] text[i]),
{
    let rest = text.subrange(pos, text.len() as int);
    assert forall|i: int| pos <= i < pos + 8 implies is_digit(#[trigger] text[i]) by {
        assert(rest[i - pos] == text[i]);
    }
    lemma_decimal_value_step(text, start, pos);
    lemma_decimal_value_step(text, start, pos + 1);
    lemma_decimal_value_step(text, start, pos + 2);
    lemma_decimal_value_step(text, start, pos + 3);
    lemma_decimal_value_step(text, start, pos + 4);
    lemma_decimal_value_step(text, start, pos + 5);
    lemma_decimal_value_step(text, start, pos + 6);
    lemma_decimal_value_step(text, start, pos + 7);
}

/// Reads the run of decimal digits that starts at `start`, eight at a time while it can.
pub fn scan_integer_digits_u64(buf: &[u8], start: usize) -> (scan: IntegerScan)
    requires
        start <= buf@.len(),
    ensures
        scan.end == digits_end(buf@, start as int),
        start <= scan.end <= buf@.len(),
        scan.digits == scan.end - start,
        scan.overflow == (decimal_value(buf@.subrange(start as int, scan.end as int)) > u64::MAX),
        !scan.overflow ==> scan.value == decimal_value(
            buf@.subrange(start as int, scan.end as int),
        ),
{
    let mut idx: usize = start;
    let mut value: u64 = 0;
    let mut overflow = false;
    assert(buf@.subrange(start as int, start as int) =~= Seq::empty());
    while buf.len() - idx >= 8 && is_ascii_digit(buf[idx + 7]) && is_eight_digits(
        slice_subrange(buf, idx, buf.len()),
    )
        invariant
            start <= idx <= buf@.len(),
            digits_end(buf@, start as int) == digits_end(buf@, idx as int),
            overflow == (decimal_value(buf@.subrange(start as int, idx as int)) > u64::MAX),
            !overflow ==> value == decimal_value(buf@.subrange(start as int, idx as int)),
        decreases buf@.len() - idx,
    {
        proof {
            lemma_decimal_value_eight(buf@, start as int, idx as int);
            lemma_digits_end_from(buf@, idx as int, idx + 8);
        }
        if !overflow {
            let chunk = parse_eight_digits(slice_subrange(buf, idx, buf.len())) as u64;
            match value.checked_mul(100_000_000) {
                Some(shifted) => {
                    match shifted.checked_add(chunk) {
                        Some(next) => {
                            value = next;
                        },
                        None => {
                            overflow = true;
                        },
                    }
                },
                None => {
                    overflow = true;
                },
            }
        }
        idx += 8;
    }
    while idx < buf.len() && is_ascii_digit(buf[idx])
        invariant
            start <= idx <= buf@.len(),
            digits_end(buf@, start as int) == digits_end(buf@, idx as int),
            overflow == (decimal_value(buf@.subrange(start as int, idx as int)) > u64::MAX),
            !overflow ==> value == decimal_value(buf@.subrange(start as int, idx as int)),
        decreases buf@.len() - idx,
    {
        proof {
            lemma_decimal_value_step(buf@, start as int, idx as int);
        }
        if !overflow {
            let digit = (buf[idx] - 0x30) as u64;
            match value.checked_mul(10) {
                Some(shifted) => {
                    match shifted.checked_add(digit) {
                        Some(next) => {
                            value = next;
                        },
                        None => {
                            overflow = true;
                        },
                    }
                },
                None => {
                    overflow = true;
                },
            }
        }
        idx += 1;
    }
    IntegerScan { end: idx, value, digits: idx - start, overflow }
}

/// Where the contents of a quoted string end.
#[derive(Debug, Clone, Copy, PartialEq, Eq)]
pub struct StringScan {
    /// The offset of the closing quote.
    pub end: usize,
    /// The contents hold at least one backslash.
    pub has_escape: bool,
}

/// Why no closing quote was found.
#[derive(Debug, Clone, Copy, PartialEq, Eq)]
pub enum StringScanError {
    /// A control character, at the given offset.
    ControlCharacter(usize),
    /// The text ends inside the string.
    Eof,
}

/// The offset behind the escape whose backslash is at `slash`, if the text holds all of it: two
/// bytes, and behind a `u` four more, or six where a brace opens.
pub open spec fn escape_end(text: Seq<u8>, slash: int) -> Option<int> {
    if slash + 1 >= text.len() {
        None
    } else if text[slash + 1] != LOWER_U {
        Some(slash + 2)
    } else if slash + 2 >= text.len() {
        None
    } else {
        let end = slash + 2 + if text[slash + 2] == OPEN_BRACE {
            6int
        } else {
            4int
        };
        if end > text.len() {
            None
        } else {
            Some(end)
        }
    }
}

/// The scan of string contents from `pos` on: it ends at the first quote outside an escape; with
/// `control` set, a control character outside an escape stops it.
pub open spec fn string_scan(text: Seq<u8>, pos: int, quote: u8, control: bool) -> Result<
    (int, bool),
    StringScanError,
>
    decreases text.len() - pos,
{
    if pos < 0 || pos >= text.len() {
        Err(StringScanError::Eof)
    } else if text[pos] == quote {
        Ok((pos, false))
    } else if text[pos] == BACKSLASH {
        match escape_end(text, pos) {
            Some(next) => match string_scan(text, next, quote, control) {
                Ok((end, _)) => Ok((end, true)),
                Err(e) => Err(e),
            },
            None => Err(StringScanError::Eof),
        }
    } else if control && text[pos] <= 0x1f {
        Err(StringScanError::ControlCharacter(pos as usize))
    } else {
        string_scan(text, pos + 1, quote, control)
    }
}

/// String contents end at or behind the place where they start, at a quote inside the text.
pub proof fn lemma_string_scan(text: Seq<u8>, pos: int, quote: u8, control: bool)
    ensures
        string_scan(text, pos, quote, control) matches Ok((end, _)) ==> pos <= end < text.len()
            && text[end] == quote,
    decreases text.len() - pos,
{
    if 0 <= pos < text.len() && text[pos] != quote {
        if text[pos] == BACKSLASH {
            if let Some(next) = escape_end(text, pos) {
                lemma_string_scan(text, next, quote, control);
            }
        } else {
            lemma_string_scan(text, pos + 1, quote, control);
        }
    }
}

/// Skips the escape whose backslash is at `slash_idx`.
pub fn skip_escape(buf: &[u8], slash_idx: usize) -> (r: Result<usize, StringScanError>)
    ensures
        match r {
            Ok(end) => escape_end(buf@, slash_idx as int) == Some(end as int),
            Err(e) => escape_end(buf@, slash_idx as int) is None && e == StringScanError::Eof,
        },
{
    if slash_idx >= buf.len() || slash_idx + 1 >= buf.len() {
        return Err(StringScanError::Eof);
    }
    let escaped_idx: usize = slash_idx + 1;
    let idx: usize = escaped_idx + 1;
    if buf[escaped_idx] == LOWER_U {
        if idx >= buf.len() {
            return Err(StringScanError::Eof);
        }
        let more: usize = if buf[idx] == OPEN_BRACE {
            6
        } else {
            4
        };
        if buf.len() - idx < more {
            return Err(StringScanError::Eof);
        }
        return Ok(idx + more);
    }
    Ok(idx)
}

/// Finds the end of the string contents that start at `start`.
pub fn scan_string<const CHECK_CONTROL: bool>(buf: &[u8], start: usize, end_quote: u8) -> (r:
    Result<StringScan, StringScanError>)
    ensures
        match r {
            Ok(scan) => string_scan(buf@, start as int, end_quote, CHECK_CONTROL) == Ok::<
                _,
                StringScanError,
            >((scan.end as int, scan.has_escape)) && start <= scan.end < buf@.len(),
            Err(e) => string_scan(buf@, start as int, end_quote, CHECK_CONTROL) == Err::<
                (int, bool),
                _,
            >(e),
        },
{
    let mut idx: usize = start;
    let mut has_escape = false;
    let ghost whole = string_scan(buf@, start as int, end_quote, CHECK_CONTROL);
    while idx < buf.len()
        invariant
            start <= idx,
            match string_scan(buf@, idx as int, end_quote, CHECK_CONTROL) {
                Ok((end, escape)) => whole == Ok::<_, StringScanError>((end, escape || has_escape)),
                Err(e) => whole == Err::<(int, bool), _>(e),
            },
            whole == string_scan(buf@, start as int, end_quote, CHECK_CONTROL),
        decreases buf@.len() - idx,
    {
        let byte = buf[idx];
        if byte == end_quote {
            return Ok(StringScan { end: idx, has_escape });
        } else if byte == BACKSLASH {
            has_escape = true;
            match skip_escape(buf, idx) {
                Ok(next) => {
                    idx = next;
                },
                Err(e) => {
                    return Err(e);
                },
            }
        } else if CHECK_CONTROL && byte <= 0x1f {
            return Err(StringScanError::ControlCharacter(idx));
        } else {
            idx += 1;
        }
    }
    Err(StringScanError::Eof)
}

} // verus!
