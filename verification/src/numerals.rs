//! Number literals: what each spelling of a number is read as.

use vstd::prelude::*;

use crate::error::{ErrorModel, ParseErrorCode, Refusal};
use crate::grammar::{
    decimal_number, decimal_source, document, exponent_end, extended_number, fraction_digits,
    fraction_end, general_number, hex_number, integer_number, plain_integer, refused, scalar,
    settled, sign_end, significant_digits, standard_number, unused_end, unused_width, value,
    zeros_end,
};
use crate::laws::{law_decimals_keep_every_digit, law_hex_integers_keep_their_value};
use crate::number::Number;
use crate::scan::{
    all_digits, byte_at, decimal_value, digits_end, hex_digits_end, is_digit,
    lemma_decimal_value_bound, lemma_decimal_value_concat, lemma_digits_end, lemma_digits_end_from,
    lemma_pow10_monotonic, pow10, radix_value,
};
use crate::value::{FloatSource, JsonValue, NumberToken};

verus! {

/// The number that figures spell in a base up to sixteen.
pub open spec fn spelled_in(figures: Seq<u8>, base: int) -> int {
    figures.fold_left(
        0int,
        |n: int, c: u8|
            n * base + if c >= 0x61 {
                c - 0x57
            } else if c >= 0x41 {
                c - 0x37
            } else {
                c - 0x30
            },
    )
}

/// All bytes are the characters `0` to `9`.
pub open spec fn decimal_figures(s: Seq<u8>) -> bool {
    forall|i: int| 0 <= i < s.len() ==> 0x30 <= #[trigger] s[i] <= 0x39
}

/// No sign, a plus or a minus.
pub open spec fn is_sign(s: Seq<u8>) -> bool {
    s == Seq::<u8>::empty() || s == seq![0x2bu8] || s == seq![0x2du8]
}

/// The number with the sign before it.
pub open spec fn signed_by(sign: Seq<u8>, n: int) -> int {
    if sign == seq![0x2du8] {
        -n
    } else {
        n
    }
}

pub proof fn lemma_spelled_in(figures: Seq<u8>)
    requires
        decimal_figures(figures),
    ensures
        decimal_value(figures) == spelled_in(figures, 10),
        all_digits(figures),
    decreases figures.len(),
{
    if figures.len() > 0 {
        let front = figures.drop_last();
        assert forall|i: int| 0 <= i < front.len() implies 0x30 <= #[trigger] front[i] <= 0x39 by {
            assert(front[i] == figures[i]);
        }
        lemma_spelled_in(front);
        assert(0x30 <= figures[figures.len() - 1] <= 0x39);
    }
}

/// A run of digits ends where the first other byte is.
pub proof fn lemma_digits_end_at(text: Seq<u8>, pos: int, end: int)
    requires
        0 <= pos <= end <= text.len(),
        forall|i: int| pos <= i < end ==> 0x30 <= #[trigger] text[i] <= 0x39,
        end < text.len() ==> !(0x30 <= text[end] <= 0x39),
    ensures
        digits_end(text, pos) == end,
    decreases end - pos,
{
    if pos < end {
        assert(0x30 <= text[pos] <= 0x39);
        lemma_digits_end_at(text, pos + 1, end);
    }
}

proof fn lemma_zeros_end_at(text: Seq<u8>, pos: int, end: int)
    requires
        0 <= pos <= end <= text.len(),
        forall|i: int| pos <= i < end ==> #[trigger] text[i] == 0x30,
        end < text.len() ==> text[end] != 0x30,
    ensures
        zeros_end(text, pos) == end,
    decreases end - pos,
{
    if pos < end {
        assert(text[pos] == 0x30);
        lemma_zeros_end_at(text, pos + 1, end);
    }
}

proof fn lemma_leading_zeros(zeros: Seq<u8>)
    requires
        forall|i: int| 0 <= i < zeros.len() ==> #[trigger] zeros[i] == 0x30,
    ensures
        decimal_value(zeros) == 0,
    decreases zeros.len(),
{
    if zeros.len() > 0 {
        let front = zeros.drop_last();
        assert forall|i: int| 0 <= i < front.len() implies #[trigger] front[i] == 0x30 by {
            assert(front[i] == zeros[i]);
        }
        lemma_leading_zeros(front);
        assert(zeros[zeros.len() - 1] == 0x30);
    }
}

/// A text that is one scalar denotes that scalar.
pub proof fn lemma_scalar_document(text: Seq<u8>, standard: bool, v: JsonValue)
    requires
        text.len() > 0,
        unused_width(text, 0) == 0,
        text[0] != 0x5b,
        text[0] != 0x7b,
        scalar(text, 0, text[0], standard) matches Ok((found, end)) && found == v && end
            == text.len(),
    ensures
        document(text, standard) matches Ok(root) && root == v,
{
    assert(unused_end(text, 0) == 0);
    assert(unused_end(text, text.len() as int) == text.len());
}

/// A number holds a numerator and the number of its digits behind the point, in the kind that is
/// meant for so many digits: integers of 64 bits, and decimals of up to 18, 38 and 76 digits.
pub open spec fn holds(number: Number, numerator: int, digits: int, scale: int) -> bool {
    match number {
        Number::UInt64(v) => v == numerator && scale == 0,
        Number::Int64(v) => v == numerator && scale == 0 && numerator <= 0,
        Number::Decimal64(d) => d.value == numerator && d.scale == scale && digits <= 18 && scale
            > 0,
        Number::Decimal128(d) => d.value == numerator && d.scale == scale && digits <= 38 && (scale
            > 0 && digits > 18 || scale == 0 && !(-0x8000_0000_0000_0000 <= numerator
            <= 0xffff_ffff_ffff_ffff)),
        Number::Decimal256(d) => d.value@ == numerator && d.scale == scale && 38 < digits <= 76,
        Number::Float64(_) => false,
    }
}

/// The text of a number with an integer part and, behind a point, a fraction.
pub open spec fn decimal_text(sign: Seq<u8>, whole: Seq<u8>, point: bool, fraction: Seq<u8>) -> Seq<
    u8,
> {
    if point {
        sign + whole + seq![0x2eu8] + fraction
    } else {
        sign + whole
    }
}

/// Where the parts of such a text stand.
proof fn lemma_decimal_text(sign: Seq<u8>, whole: Seq<u8>, point: bool, fraction: Seq<u8>)
    requires
        is_sign(sign),
        decimal_figures(whole),
        decimal_figures(fraction),
        !point ==> fraction.len() == 0,
        whole.len() + fraction.len() > 0,
    ensures
        ({
            let text = decimal_text(sign, whole, point, fraction);
            let first = sign.len() as int;
            let int_end = first + whole.len();
            &&& text.len() == int_end + if point {
                1 + fraction.len()
            } else {
                0
            }
            &&& text.subrange(first, int_end) == whole
            &&& point ==> text[int_end] == 0x2e && text.subrange(int_end + 1, text.len() as int)
                == fraction
            &&& digits_end(text, first) == int_end
            &&& point ==> digits_end(text, int_end + 1) == text.len()
            &&& sign_end(text, 0) == first
            &&& byte_at(text, 0) == Some(0x2du8) <==> sign == seq![0x2du8]
            &&& unused_width(text, 0) == 0
            &&& text[0] == 0x2b || text[0] == 0x2d || text[0] == 0x2e || 0x30 <= text[0] <= 0x39
            &&& sign.len() == 0 && whole.len() > 0 ==> text[0] == whole[0]
        }),
{
    let text = decimal_text(sign, whole, point, fraction);
    let first = sign.len() as int;
    let int_end = first + whole.len();
    assert(text.subrange(first, int_end) =~= whole);
    if point {
        assert(text.subrange(int_end + 1, text.len() as int) =~= fraction);
        assert forall|i: int| int_end + 1 <= i < text.len() implies 0x30 <= #[trigger] text[i]
            <= 0x39 by {
            assert(text[i] == fraction[i - int_end - 1]);
        }
        lemma_digits_end_at(text, int_end + 1, text.len() as int);
    }
    assert forall|i: int| first <= i < int_end implies 0x30 <= #[trigger] text[i] <= 0x39 by {
        assert(text[i] == whole[i - first]);
    }
    lemma_digits_end_at(text, first, int_end);
    if sign.len() > 0 {
        assert(text[0] == sign[0]);
        assert(sign != seq![0x2bu8] ==> sign[0] == 0x2d);
        if sign == seq![0x2bu8] {
            assert(sign[0] == 0x2b);
        }
    } else if whole.len() > 0 {
        assert(text[0] == whole[0]);
    }
}

/// A number of more than twenty digits, the first of them not zero, takes more than 64 bits.
proof fn lemma_digits_bound(digits: Seq<u8>)
    requires
        digits.len() > 20,
        digits[0] != 0x30,
        decimal_figures(digits),
    ensures
        decimal_value(digits) > u64::MAX,
{
    let head = digits.take(1);
    let rest = digits.skip(1);
    assert(digits =~= head + rest);
    lemma_decimal_value_concat(head, rest);
    assert(head.drop_last() =~= Seq::<u8>::empty());
    assert(0x30 <= digits[0] <= 0x39);
    assert(decimal_value(head) >= 1) by {
        assert(radix_value(Seq::<u8>::empty(), 10) == 0);
        assert(head.last() == digits[0]);
    }
    lemma_pow10_monotonic(20, rest.len());
    reveal_with_fuel(pow10, 21);
    assert(decimal_value(head) * pow10(rest.len()) >= pow10(rest.len())) by (nonlinear_arith)
        requires
            decimal_value(head) >= 1,
    ;
}

proof fn lemma_decimal_kind(negative: bool, magnitude: nat, digits: int, scale: int)
    requires
        0 <= scale <= digits <= 76,
        magnitude < pow10(digits as nat),
    ensures
        holds(
            decimal_number(negative, magnitude, digits, scale),
            if negative {
                -magnitude
            } else {
                magnitude as int
            },
            digits,
            scale,
        ),
{
    law_decimals_keep_every_digit(negative, magnitude, digits, scale);
    if digits <= 18 {
        lemma_pow10_monotonic(digits as nat, 18);
        reveal_with_fuel(pow10, 19);
    }
}

/// The digits of a literal without the zeros in front.
proof fn lemma_digits(whole: Seq<u8>, zeros: int, fraction: Seq<u8>)
    requires
        decimal_figures(whole),
        decimal_figures(fraction),
        0 <= zeros <= whole.len(),
        forall|i: int| 0 <= i < zeros ==> #[trigger] whole[i] == 0x30,
    ensures
        ({
            let digits = whole.skip(zeros) + fraction;
            &&& decimal_value(digits) == spelled_in(whole + fraction, 10)
            &&& decimal_value(digits) < pow10(digits.len())
            &&& digits.len() == whole.len() - zeros + fraction.len()
        }),
{
    let head = whole.take(zeros);
    let digits = whole.skip(zeros) + fraction;
    assert(whole + fraction =~= head + digits);
    assert forall|i: int| 0 <= i < (whole + fraction).len() implies 0x30 <= #[trigger] (whole
        + fraction)[i] <= 0x39 by {
        if i < whole.len() {
            assert((whole + fraction)[i] == whole[i]);
        } else {
            assert((whole + fraction)[i] == fraction[i - whole.len()]);
        }
    }
    assert forall|i: int| 0 <= i < digits.len() implies 0x30 <= #[trigger] digits[i] <= 0x39 by {
        assert(digits[i] == (whole + fraction)[i + zeros]);
    }
    lemma_spelled_in(whole + fraction);
    lemma_spelled_in(digits);
    lemma_leading_zeros(head);
    lemma_decimal_value_concat(head, digits);
    lemma_decimal_value_bound(digits);
    assert(0 * pow10(digits.len()) == 0) by (nonlinear_arith);
}

/// Such a literal is read to its end.
proof fn lemma_decimal_read(
    sign: Seq<u8>,
    whole: Seq<u8>,
    zeros: int,
    point: bool,
    fraction: Seq<u8>,
)
    requires
        is_sign(sign),
        decimal_figures(whole),
        decimal_figures(fraction),
        !point ==> fraction.len() == 0,
        whole.len() + fraction.len() > 0,
        0 <= zeros <= whole.len(),
        forall|i: int| 0 <= i < zeros ==> #[trigger] whole[i] == 0x30,
        zeros < whole.len() ==> whole[zeros] != 0x30,
    ensures
        ({
            let text = decimal_text(sign, whole, point, fraction);
            let first = sign.len() as int;
            let digits = whole.skip(zeros) + fraction;
            let negative = sign == seq![0x2du8];
            &&& plain_integer(text, first, digits_end(text, first), negative) == if point {
                None
            } else {
                integer_number(negative, decimal_value(whole))
            }
            &&& general_number(text, 0, first, negative) == if !point && digits.len() == 0 {
                general_number(text, 0, first, negative)
            } else if digits.len() <= 76 {
                settled(
                    decimal_number(
                        negative,
                        decimal_value(digits),
                        digits.len() as int,
                        fraction.len() as int,
                    ),
                    text.len() as int,
                )
            } else {
                decimal_source(0, text.len() as int)
            }
        }),
{
    let text = decimal_text(sign, whole, point, fraction);
    let first = sign.len() as int;
    let int_end = first + whole.len();
    let digits = whole.skip(zeros) + fraction;
    lemma_decimal_text(sign, whole, point, fraction);
    assert forall|i: int| first <= i < first + zeros implies #[trigger] text[i] == 0x30 by {
        assert(text[i] == whole[i - first]);
    }
    if zeros < whole.len() {
        assert(text[first + zeros] == whole[zeros]);
    }
    lemma_zeros_end_at(text, first, first + zeros);
    assert forall|i: int| first <= i < first + zeros implies is_digit(#[trigger] text[i]) by {
        assert(text[i] == 0x30);
    }
    lemma_digits_end_from(text, first, first + zeros);
    assert(text.subrange(first + zeros, int_end) =~= whole.skip(zeros));
    if !point {
        assert(fraction =~= Seq::<u8>::empty());
    }
    assert(significant_digits(text, first + zeros) =~= digits);
}

/// In the extended dialect a literal of a sign, an integer part and a fraction is the number that
/// all its digits spell, divided by ten for each digit behind the point. Up to 76 digits are kept,
/// zeros in front not counted; a literal of more digits is to be converted to a floating-point
/// number as it stands.
#[verifier::spinoff_prover]
#[verifier::rlimit(30)]
pub proof fn law_decimal_literal(
    sign: Seq<u8>,
    whole: Seq<u8>,
    zeros: int,
    point: bool,
    fraction: Seq<u8>,
)
    requires
        is_sign(sign),
        decimal_figures(whole),
        decimal_figures(fraction),
        !point ==> fraction.len() == 0,
        whole.len() + fraction.len() > 0,
        0 <= zeros <= whole.len(),
        forall|i: int| 0 <= i < zeros ==> #[trigger] whole[i] == 0x30,
        zeros < whole.len() ==> whole[zeros] != 0x30,
        decimal_text(sign, whole, point, fraction).len() <= usize::MAX,
    ensures
        ({
            let text = decimal_text(sign, whole, point, fraction);
            let digits = whole.len() - zeros + fraction.len();
            let numerator = signed_by(sign, spelled_in(whole + fraction, 10));
            &&& document(text, false) matches Ok(JsonValue::Number(token)) && {
                if digits <= 76 {
                    token matches NumberToken::Number(number) && holds(
                        number,
                        numerator,
                        digits,
                        fraction.len() as int,
                    )
                } else {
                    token == NumberToken::Float(
                        FloatSource::Decimal { start: 0, end: text.len() as usize },
                    )
                }
            }
        }),
{
    let text = decimal_text(sign, whole, point, fraction);
    let first = sign.len() as int;
    let negative = sign == seq![0x2du8];
    let digits = whole.skip(zeros) + fraction;
    lemma_decimal_text(sign, whole, point, fraction);
    lemma_digits(whole, zeros, fraction);
    lemma_decimal_read(sign, whole, zeros, point, fraction);
    if digits.len() <= 76 {
        lemma_decimal_kind(
            negative,
            decimal_value(digits),
            digits.len() as int,
            fraction.len() as int,
        );
    }
    if !point {
        assert(fraction =~= Seq::<u8>::empty());
        assert(whole + fraction =~= whole);
        lemma_spelled_in(whole);
        if digits.len() > 20 {
            lemma_digits_bound(whole.skip(zeros));
            assert(digits =~= whole.skip(zeros));
        }
    }
    let (token, end) = extended_number(text, 0)->Ok_0;
    assert(end == text.len());
    lemma_scalar_document(text, false, JsonValue::Number(token));
}

/// An exponent: the letter `e` in either case, a sign or none, and digits.
pub open spec fn is_exponent(s: Seq<u8>, sign: Seq<u8>, digits: Seq<u8>) -> bool {
    &&& is_sign(sign)
    &&& digits.len() > 0
    &&& decimal_figures(digits)
    &&& s == seq![0x65u8] + sign + digits || s == seq![0x45u8] + sign + digits
}

/// An exponent behind a number is read to its end.
proof fn lemma_exponent(text: Seq<u8>, pos: int, s: Seq<u8>, sign: Seq<u8>, digits: Seq<u8>)
    requires
        is_exponent(s, sign, digits),
        0 <= pos,
        pos + s.len() == text.len(),
        text.subrange(pos, text.len() as int) == s,
    ensures
        exponent_end(text, pos) == Ok::<int, Refusal>(text.len() as int),
        text[pos] == 0x65 || text[pos] == 0x45,
{
    let rest = text.subrange(pos, text.len() as int);
    let first = pos + 1 + sign.len();
    assert(rest[0] == text[pos]);
    assert forall|i: int| first <= i < text.len() implies 0x30 <= #[trigger] text[i] <= 0x39 by {
        assert(text[i] == rest[i - pos]);
        assert(rest[i - pos] == digits[i - first]);
    }
    lemma_digits_end_at(text, first, text.len() as int);
    assert(text[pos + 1] == rest[1]);
    if sign.len() > 0 {
        assert(rest[1] == sign[0]);
    } else {
        assert(rest[1] == digits[0]);
    }
}

/// Where the parts of a number with something behind it stand.
pub proof fn lemma_parts(
    sign: Seq<u8>,
    whole: Seq<u8>,
    point: bool,
    fraction: Seq<u8>,
    behind: Seq<u8>,
)
    requires
        is_sign(sign),
        decimal_figures(whole),
        decimal_figures(fraction),
        !point ==> fraction.len() == 0,
        whole.len() + fraction.len() > 0,
        behind.len() > 0 ==> !(0x30 <= behind[0] <= 0x39) && (point || behind[0] != 0x2e),
    ensures
        ({
            let number = decimal_text(sign, whole, point, fraction);
            let text = number + behind;
            let first = sign.len() as int;
            let int_end = first + whole.len();
            let frac_end = number.len() as int;
            &&& frac_end == int_end + if point {
                1 + fraction.len()
            } else {
                0
            }
            &&& text.subrange(first, int_end) == whole
            &&& text.subrange(frac_end, text.len() as int) == behind
            &&& digits_end(text, first) == int_end
            &&& point <==> byte_at(text, int_end) == Some(0x2eu8)
            &&& fraction_end(text, int_end) == frac_end
            &&& sign_end(text, 0) == first
            &&& byte_at(text, 0) == Some(0x2du8) <==> sign == seq![0x2du8]
            &&& unused_width(text, 0) == 0
            &&& text.len() > 0
            &&& text[0] == 0x2b || text[0] == 0x2d || text[0] == 0x2e || 0x30 <= text[0] <= 0x39
            &&& sign.len() == 0 && whole.len() > 0 ==> text[0] == whole[0]
            &&& whole.len() > 0 ==> text[first] == whole[0]
            &&& sign.len() > 0 ==> text[0] == sign[0]
            &&& behind.len() == 0 ==> text == number
            &&& behind.len() > 0 ==> text[frac_end] == behind[0]
        }),
{
    let number = decimal_text(sign, whole, point, fraction);
    let text = number + behind;
    let first = sign.len() as int;
    let int_end = first + whole.len();
    let frac_end = number.len() as int;
    lemma_decimal_text(sign, whole, point, fraction);
    assert(text.subrange(first, int_end) =~= whole);
    assert(text.subrange(frac_end, text.len() as int) =~= behind);
    if behind.len() == 0 {
        assert(text =~= number);
    }
    assert forall|i: int| first <= i < int_end implies 0x30 <= #[trigger] text[i] <= 0x39 by {
        assert(text[i] == whole[i - first]);
    }
    lemma_digits_end_at(text, first, int_end);
    if point {
        assert(text[int_end] == number[int_end]);
        assert forall|i: int| int_end + 1 <= i < frac_end implies 0x30 <= #[trigger] text[i]
            <= 0x39 by {
            assert(text[i] == fraction[i - int_end - 1]);
        }
        lemma_digits_end_at(text, int_end + 1, frac_end);
    }
    assert(text[0] == number[0]);
}

/// In both dialects a number with an exponent is to be converted to a floating-point number as it
/// stands; in the standard dialect so is one with a fraction, and an integer beyond 64 bits. An
/// integer within 64 bits is that integer. There the integer part has no zeros in front, and there
/// is no plus before it.
pub proof fn law_standard_literal(
    sign: Seq<u8>,
    whole: Seq<u8>,
    point: bool,
    fraction: Seq<u8>,
    exponent: Seq<u8>,
    exponent_sign: Seq<u8>,
    exponent_digits: Seq<u8>,
)
    requires
        is_sign(sign),
        sign != seq![0x2bu8],
        decimal_figures(whole),
        whole.len() > 0,
        whole.len() == 1 || whole[0] != 0x30,
        decimal_figures(fraction),
        point <==> fraction.len() > 0,
        exponent.len() == 0 || is_exponent(exponent, exponent_sign, exponent_digits),
        (decimal_text(sign, whole, point, fraction) + exponent).len() <= usize::MAX,
    ensures
        ({
            let text = decimal_text(sign, whole, point, fraction) + exponent;
            let n = signed_by(sign, spelled_in(whole, 10));
            &&& document(text, true) matches Ok(JsonValue::Number(token)) && token == if !point
                && exponent.len() == 0 && sign.len() == 0 && n <= 0xffff_ffff_ffff_ffff {
                NumberToken::Number(Number::UInt64(n as u64))
            } else if !point && exponent.len() == 0 && sign.len() > 0 && n
                >= -0x8000_0000_0000_0000 {
                NumberToken::Number(Number::Int64(n as i64))
            } else {
                NumberToken::Float(FloatSource::Decimal { start: 0, end: text.len() as usize })
            }
        }),
{
    let text = decimal_text(sign, whole, point, fraction) + exponent;
    let frac_end = decimal_text(sign, whole, point, fraction).len() as int;
    lemma_parts(sign, whole, point, fraction, exponent);
    lemma_spelled_in(whole);
    if exponent.len() > 0 {
        lemma_exponent(text, frac_end, exponent, exponent_sign, exponent_digits);
    }
    if sign.len() > 0 {
        assert(sign == seq![0x2du8]);
    }
    let (token, end) = standard_number(text, 0)->Ok_0;
    lemma_scalar_document(text, true, JsonValue::Number(token));
}

/// In the extended dialect a number with an exponent is to be converted to a floating-point number
/// as it stands.
pub proof fn law_extended_exponent(
    sign: Seq<u8>,
    whole: Seq<u8>,
    point: bool,
    fraction: Seq<u8>,
    exponent: Seq<u8>,
    exponent_sign: Seq<u8>,
    exponent_digits: Seq<u8>,
)
    requires
        is_sign(sign),
        decimal_figures(whole),
        decimal_figures(fraction),
        !point ==> fraction.len() == 0,
        whole.len() + fraction.len() > 0,
        is_exponent(exponent, exponent_sign, exponent_digits),
        (decimal_text(sign, whole, point, fraction) + exponent).len() <= usize::MAX,
    ensures
        ({
            let text = decimal_text(sign, whole, point, fraction) + exponent;
            document(text, false) == Ok::<_, Refusal>(
                JsonValue::Number(
                    NumberToken::Float(
                        FloatSource::Decimal { start: 0, end: text.len() as usize },
                    ),
                ),
            )
        }),
{
    let text = decimal_text(sign, whole, point, fraction) + exponent;
    let first = sign.len() as int;
    let int_end = first + whole.len();
    let frac_end = decimal_text(sign, whole, point, fraction).len() as int;
    lemma_parts(sign, whole, point, fraction, exponent);
    lemma_exponent(text, frac_end, exponent, exponent_sign, exponent_digits);
    lemma_zeros_within(text, first);
    let start = zeros_end(text, first);
    lemma_digits_end_from(text, first, start);
    assert(significant_digits(text, start).len() == int_end - start + fraction.len());
    let (token, end) = extended_number(text, 0)->Ok_0;
    lemma_scalar_document(text, false, JsonValue::Number(token));
}

pub proof fn lemma_zeros_within(text: Seq<u8>, pos: int)
    requires
        0 <= pos <= text.len(),
    ensures
        pos <= zeros_end(text, pos) <= digits_end(text, pos) <= text.len(),
        forall|i: int| pos <= i < zeros_end(text, pos) ==> is_digit(#[trigger] text[i]),
    decreases text.len() - pos,
{
    lemma_digits_end(text, pos);
    if pos < text.len() && text[pos] == 0x30 {
        lemma_zeros_within(text, pos + 1);
    }
}

/// All bytes are the characters `0` to `9`, `A` to `F` or `a` to `f`.
pub open spec fn hex_figures(s: Seq<u8>) -> bool {
    forall|i: int|
        0 <= i < s.len() ==> 0x30 <= #[trigger] s[i] <= 0x39 || 0x41 <= s[i] <= 0x46 || 0x61 <= s[i]
            <= 0x66
}

pub proof fn lemma_spelled_in_hex(figures: Seq<u8>)
    requires
        hex_figures(figures),
    ensures
        radix_value(figures, 16) == spelled_in(figures, 16),
    decreases figures.len(),
{
    if figures.len() > 0 {
        let front = figures.drop_last();
        assert forall|i: int| 0 <= i < front.len() implies 0x30 <= #[trigger] front[i] <= 0x39
            || 0x41 <= front[i] <= 0x46 || 0x61 <= front[i] <= 0x66 by {
            assert(front[i] == figures[i]);
        }
        lemma_spelled_in_hex(front);
        let c = figures[figures.len() - 1];
        assert(0x30 <= c <= 0x39 || 0x41 <= c <= 0x46 || 0x61 <= c <= 0x66);
    }
}

proof fn lemma_hex_digits_end_at(text: Seq<u8>, pos: int, figures: Seq<u8>)
    requires
        0 <= pos,
        pos + figures.len() <= text.len(),
        hex_figures(figures),
        text.subrange(pos, pos + figures.len()) == figures,
        pos + figures.len() < text.len() ==> text[pos + figures.len()] == 0x2e,
    ensures
        hex_digits_end(text, pos) == pos + figures.len(),
    decreases figures.len(),
{
    if figures.len() > 0 {
        let rest = figures.drop_first();
        assert(text.subrange(pos, pos + figures.len())[0] == text[pos]);
        assert(0x30 <= figures[0] <= 0x39 || 0x41 <= figures[0] <= 0x46 || 0x61 <= figures[0]
            <= 0x66);
        assert forall|i: int| 0 <= i < rest.len() implies 0x30 <= #[trigger] rest[i] <= 0x39
            || 0x41 <= rest[i] <= 0x46 || 0x61 <= rest[i] <= 0x66 by {
            assert(rest[i] == figures[i + 1]);
        }
        assert(text.subrange(pos + 1, pos + 1 + rest.len()) =~= text.subrange(
            pos,
            pos + figures.len(),
        ).drop_first());
        lemma_hex_digits_end_at(text, pos + 1, rest);
    }
}

/// The text of a hexadecimal number.
pub open spec fn hex_text(
    sign: Seq<u8>,
    x: u8,
    figures: Seq<u8>,
    point: bool,
    fraction: Seq<u8>,
) -> Seq<u8> {
    sign + seq![0x30u8, x] + figures + if point {
        seq![0x2eu8] + fraction
    } else {
        seq![]
    }
}

proof fn lemma_hex_text(
    sign: Seq<u8>,
    x: u8,
    figures: Seq<u8>,
    point: bool,
    fraction: Seq<u8>,
)
    requires
        is_sign(sign),
        x == 0x78 || x == 0x58,
        hex_figures(figures),
        hex_figures(fraction),
        !point ==> fraction.len() == 0,
    ensures
        ({
            let text = hex_text(sign, x, figures, point, fraction);
            let first = sign.len() as int;
            let int_end = first + 2 + figures.len();
            let negative = sign == seq![0x2du8];
            &&& text.len() == int_end + if point {
                1 + fraction.len()
            } else {
                0
            }
            &&& point <==> byte_at(text, int_end) == Some(0x2eu8)
            &&& text.subrange(first + 2, int_end) == figures
            &&& hex_digits_end(text, first + 2) == int_end
            &&& point ==> text.subrange(int_end + 1, text.len() as int) == fraction
                && hex_digits_end(text, int_end + 1) == text.len()
            &&& extended_number(text, 0) == hex_number(text, 0, first + 2, negative)
            &&& unused_width(text, 0) == 0
            &&& text[0] == 0x2b || text[0] == 0x2d || text[0] == 0x30
        }),
{
    let text = hex_text(sign, x, figures, point, fraction);
    let first = sign.len() as int;
    let int_end = first + 2 + figures.len();
    assert(text.subrange(first + 2, int_end) =~= figures);
    assert(text[first] == 0x30 && text[first + 1] == x);
    assert(point ==> text[int_end] == 0x2e);
    lemma_hex_digits_end_at(text, first + 2, figures);
    if point {
        assert(text.subrange(int_end + 1, text.len() as int) =~= fraction);
        lemma_hex_digits_end_at(text, int_end + 1, fraction);
    }
    if sign.len() > 0 {
        assert(text[0] == sign[0]);
    }
    lemma_digits_end_at(text, first, first + 1);
    lemma_zeros_end_at(text, first, first + 1);
    lemma_digits_end_at(text, first + 1, first + 1);
    assert(text.subrange(first + 1, first + 1) =~= Seq::<u8>::empty());
}

/// In the extended dialect `0x` and hexadecimal figures are the integer that they spell: an integer
/// of 64 bits where it fits, else a decimal without a fraction, of 38 digits where it fits. Figures
/// beyond 128 bits are refused at their end, and so is `0x` without figures.
pub proof fn law_hexadecimal_integer(sign: Seq<u8>, x: u8, figures: Seq<u8>)
    requires
        is_sign(sign),
        x == 0x78 || x == 0x58,
        hex_figures(figures),
    ensures
        ({
            let text = hex_text(sign, x, figures, false, seq![]);
            let n = spelled_in(figures, 16);
            let v = signed_by(sign, n);
            if figures.len() == 0 || n > 0xffff_ffff_ffff_ffff_ffff_ffff_ffff_ffff {
                document(text, false) matches Err(e) && e.error == ErrorModel::Syntax(
                    ParseErrorCode::InvalidNumberValue,
                    text.len() as int,
                )
            } else {
                document(text, false) matches Ok(
                    JsonValue::Number(NumberToken::Number(number)),
                ) && match number {
                    Number::UInt64(u) => u == v && sign != seq![0x2du8],
                    Number::Int64(i) => i == v && sign == seq![0x2du8],
                    Number::Decimal128(d) => d.value == v && d.scale == 0 && !(
                    -0x8000_0000_0000_0000 <= v <= 0xffff_ffff_ffff_ffff)
                        && -100_000_000_000_000_000_000_000_000_000_000_000_000 <= v
                        < 100_000_000_000_000_000_000_000_000_000_000_000_000,
                    Number::Decimal256(d) => d.value@ == v && d.scale == 0 && !(
                    -100_000_000_000_000_000_000_000_000_000_000_000_000 <= v
                        < 100_000_000_000_000_000_000_000_000_000_000_000_000),
                    _ => false,
                }
            }
        }),
{
    let text = hex_text(sign, x, figures, false, seq![]);
    lemma_hex_text(sign, x, figures, false, seq![]);
    lemma_spelled_in_hex(figures);
    let n = radix_value(figures, 16);
    assert(unused_end(text, 0) == 0);
    if figures.len() > 0 && n <= u128::MAX {
        law_hex_integers_keep_their_value(sign == seq![0x2du8], n);
        let (token, end) = extended_number(text, 0)->Ok_0;
        lemma_scalar_document(text, false, JsonValue::Number(token));
    }
}

/// In the extended dialect a hexadecimal number with a fraction is handed out with its sign, what
/// its figures before and behind the point spell, and the number of the latter. Figures beyond 128
/// bits are refused at the end, and so is a point without figures behind it.
pub proof fn law_hexadecimal_fraction(
    sign: Seq<u8>,
    x: u8,
    figures: Seq<u8>,
    fraction: Seq<u8>,
)
    requires
        is_sign(sign),
        x == 0x78 || x == 0x58,
        hex_figures(figures),
        hex_figures(fraction),
        figures.len() > 0,
        hex_text(sign, x, figures, true, fraction).len() <= usize::MAX,
    ensures
        ({
            let text = hex_text(sign, x, figures, true, fraction);
            let n = spelled_in(figures, 16);
            let f = spelled_in(fraction, 16);
            if fraction.len() == 0 || n > 0xffff_ffff_ffff_ffff_ffff_ffff_ffff_ffff || f
                > 0xffff_ffff_ffff_ffff_ffff_ffff_ffff_ffff {
                document(text, false) matches Err(e) && e.error == ErrorModel::Syntax(
                    ParseErrorCode::InvalidNumberValue,
                    text.len() as int,
                )
            } else {
                document(text, false) == Ok::<_, Refusal>(
                    JsonValue::Number(
                        NumberToken::Float(
                            FloatSource::Hexadecimal {
                                start: 0,
                                negative: sign == seq![0x2du8],
                                integer: n as u128,
                                fraction: f as u128,
                                fraction_digits: fraction.len() as usize,
                            },
                        ),
                    ),
                )
            }
        }),
{
    let text = hex_text(sign, x, figures, true, fraction);
    lemma_hex_text(sign, x, figures, true, fraction);
    lemma_spelled_in_hex(figures);
    lemma_spelled_in_hex(fraction);
    assert(unused_end(text, 0) == 0);
    if extended_number(text, 0) is Ok {
        let (token, end) = extended_number(text, 0)->Ok_0;
        lemma_scalar_document(text, false, JsonValue::Number(token));
    }
}

pub proof fn lemma_no_exponent_digits(
    number: Seq<u8>,
    e: u8,
    exponent_sign: Seq<u8>,
    rest: Seq<u8>,
)
    requires
        e == 0x65 || e == 0x45,
        is_sign(exponent_sign),
        rest.len() == 0 || !(0x30 <= rest[0] <= 0x39),
        rest.len() > 0 && exponent_sign.len() == 0 ==> rest[0] != 0x2b && rest[0] != 0x2d,
    ensures
        exponent_end(number + (seq![e] + exponent_sign + rest), number.len() as int) == refused::<
            int,
        >(ParseErrorCode::InvalidNumberValue, number.len() + 1 + exponent_sign.len() as int),
{
    let text = number + (seq![e] + exponent_sign + rest);
    let pos = number.len() as int;
    let first = pos + 1 + exponent_sign.len();
    assert(text[pos] == e);
    if exponent_sign.len() > 0 {
        assert(text[pos + 1] == exponent_sign[0]);
    } else if rest.len() > 0 {
        assert(text[pos + 1] == rest[0]);
    }
    if rest.len() > 0 {
        assert(text[first] == rest[0]);
    }
    assert(digits_end(text, first) == first);
}

/// In the extended dialect an exponent without digits is refused where they should stand.
#[verifier::spinoff_prover]
#[verifier::rlimit(30)]
pub proof fn law_extended_exponent_without_digits(
    sign: Seq<u8>,
    whole: Seq<u8>,
    point: bool,
    fraction: Seq<u8>,
    e: u8,
    exponent_sign: Seq<u8>,
    rest: Seq<u8>,
)
    requires
        is_sign(sign),
        decimal_figures(whole),
        decimal_figures(fraction),
        !point ==> fraction.len() == 0,
        whole.len() + fraction.len() > 0,
        e == 0x65 || e == 0x45,
        is_sign(exponent_sign),
        rest.len() == 0 || !(0x30 <= rest[0] <= 0x39),
        rest.len() > 0 && exponent_sign.len() == 0 ==> rest[0] != 0x2b && rest[0] != 0x2d,
    ensures
        ({
            let number = decimal_text(sign, whole, point, fraction);
            document(number + (seq![e] + exponent_sign + rest), false) matches Err(refusal)
                && refusal.error == ErrorModel::Syntax(
                ParseErrorCode::InvalidNumberValue,
                number.len() + 1 + exponent_sign.len() as int,
            )
        }),
{
    let number = decimal_text(sign, whole, point, fraction);
    let behind = seq![e] + exponent_sign + rest;
    let text = number + behind;
    let first = sign.len() as int;
    lemma_parts(sign, whole, point, fraction, behind);
    lemma_no_exponent_digits(number, e, exponent_sign, rest);
    lemma_zeros_within(text, first);
    let start = zeros_end(text, first);
    lemma_digits_end_from(text, first, start);
    assert(significant_digits(text, start).len() == first + whole.len() - start + fraction.len());
    assert(unused_end(text, 0) == 0);
}

/// In the extended dialect a sign is refused at its end where neither a digit, a point nor a letter
/// of a word stands behind it.
pub proof fn law_sign_without_number(s: u8, rest: Seq<u8>)
    requires
        s == 0x2b || s == 0x2d,
        rest.len() > 0 ==> {
            let b = rest[0];
            !(0x30 <= b <= 0x39) && b != 0x2e && b != 0x69 && b != 0x49 && b != 0x6e && b != 0x4e
        },
    ensures
        document(seq![s] + rest, false) matches Err(e) && e.error == ErrorModel::Syntax(
            ParseErrorCode::InvalidNumberValue,
            1,
        ),
{
    let text = seq![s] + rest;
    assert(text[0] == s);
    assert(rest.len() > 0 ==> text[1] == rest[0]);
    assert(digits_end(text, 1) == 1);
    assert(zeros_end(text, 1) == 1);
    assert(significant_digits(text, 1).len() == 0);
    assert(unused_end(text, 0) == 0);
}

/// In the extended dialect a point without a digit on either side is refused behind the point.
pub proof fn law_lone_point(sign: Seq<u8>, rest: Seq<u8>)
    requires
        is_sign(sign),
        rest.len() > 0 ==> !(0x30 <= rest[0] <= 0x39),
    ensures
        document(sign + seq![0x2eu8] + rest, false) matches Err(e) && e.error
            == ErrorModel::Syntax(ParseErrorCode::InvalidNumberValue, sign.len() as int + 1),
{
    let text = sign + seq![0x2eu8] + rest;
    let first = sign.len() as int;
    assert(text[first] == 0x2e);
    assert(first == 1 ==> text[0] == sign[0]);
    assert(rest.len() > 0 ==> text[first + 1] == rest[0]);
    assert(digits_end(text, first) == first);
    assert(zeros_end(text, first) == first);
    assert(digits_end(text, first + 1) == first + 1);
    assert(significant_digits(text, first).len() == 0);
    assert(sign_end(text, 0) == first);
    assert(unused_end(text, 0) == 0);
}

/// In the extended dialect a second point behind fewer than 76 digits is refused where it stands.
pub proof fn law_second_point(sign: Seq<u8>, whole: Seq<u8>, fraction: Seq<u8>, rest: Seq<u8>)
    requires
        is_sign(sign),
        decimal_figures(whole),
        decimal_figures(fraction),
        0 < whole.len() + fraction.len() < 76,
    ensures
        document(decimal_text(sign, whole, true, fraction) + (seq![0x2eu8] + rest), false) matches Err(
            e,
        ) && e.error == ErrorModel::Syntax(
            ParseErrorCode::InvalidNumberValue,
            decimal_text(sign, whole, true, fraction).len() as int,
        ),
{
    let number = decimal_text(sign, whole, true, fraction);
    let behind = seq![0x2eu8] + rest;
    let text = number + behind;
    let first = sign.len() as int;
    lemma_parts(sign, whole, true, fraction, behind);
    assert(text[number.len() as int] == 0x2e);
    lemma_zeros_within(text, first);
    let start = zeros_end(text, first);
    lemma_digits_end_from(text, first, start);
    assert(significant_digits(text, start).len() == first + whole.len() - start + fraction.len());
    assert(unused_end(text, 0) == 0);
}

} // verus!
