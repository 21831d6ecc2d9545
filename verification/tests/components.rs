use std::borrow::Cow;

use jsonb::canonical::is_ident;
use jsonb::error::{Error, ParseErrorCode};
use jsonb::floats::FloatTable;
use jsonb::int256::Int256;
use jsonb::number::{Decimal256, Decimal64, Number};
use jsonb::scan::{
    is_eight_digits, parse_eight_digits, scan_digits, scan_integer_digits_u64, scan_string,
    skip_ascii_whitespace, skip_escape, StringScan, StringScanError,
};
use jsonb::sort::{
    check_duplicate_keys, sort_object_order, sort_small_object_order, EncodedValue, ObjectEntry,
};

fn entry(key: &str, pos: usize) -> ObjectEntry<'_> {
    ObjectEntry {
        key: Cow::Borrowed(key),
        value: EncodedValue {
            jentry: 0,
            start: 0,
            len: 0,
        },
        pos,
    }
}

#[test]
fn digits_are_read_eight_at_a_time() {
    assert!(is_eight_digits(b"01234567"));
    assert!(!is_eight_digits(b"0123456:"));
    assert!(!is_eight_digits(b"/1234567"));
    assert!(!is_eight_digits(b"0123\xb0567"));
    assert_eq!(parse_eight_digits(b"12345678x"), 12345678);
    assert_eq!(parse_eight_digits(b"00000009"), 9);
    assert_eq!(parse_eight_digits(b"99999999"), 99999999);
}

#[test]
fn integers_are_read_with_their_overflow() {
    let scan = scan_integer_digits_u64(b"x18446744073709551615,", 1);
    assert_eq!((scan.end, scan.value, scan.digits), (21, u64::MAX, 20));
    assert!(!scan.overflow);
    let scan = scan_integer_digits_u64(b"18446744073709551616", 0);
    assert_eq!((scan.end, scan.digits), (20, 20));
    assert!(scan.overflow);
    let scan = scan_integer_digits_u64(b"", 0);
    assert_eq!((scan.end, scan.value, scan.digits), (0, 0, 0));
}

#[test]
fn runs_end_where_they_should() {
    assert_eq!(skip_ascii_whitespace(b" \n\r\t\x0c x", 0), 6);
    assert_eq!(skip_ascii_whitespace(b"\x0bx", 0), 0);
    assert_eq!(scan_digits(b"a12b", 1), 3);
}

#[test]
fn string_scans() {
    assert_eq!(
        scan_string::<false>(b"ab\"", 0, b'"'),
        Ok(StringScan {
            end: 2,
            has_escape: false
        })
    );
    assert_eq!(
        scan_string::<false>(b"a\\\"\n\"", 0, b'"'),
        Ok(StringScan {
            end: 4,
            has_escape: true
        })
    );
    assert_eq!(
        scan_string::<true>(b"a\n\"", 0, b'"'),
        Err(StringScanError::ControlCharacter(1))
    );
    assert_eq!(
        scan_string::<false>(b"abc", 0, b'"'),
        Err(StringScanError::Eof)
    );
    assert_eq!(skip_escape(b"\\u{0041}", 0), Ok(8));
    assert_eq!(skip_escape(b"\\u004", 0), Err(StringScanError::Eof));
}

#[test]
fn keys_are_sorted_and_equal_ones_stay_in_order() {
    let entries = vec![entry("b", 1), entry("a", 2), entry("b", 3), entry("", 4)];
    let mut order = vec![0, 1, 2, 3];
    sort_small_object_order(&entries, &mut order);
    assert_eq!(order, vec![3, 1, 0, 2]);
    assert_eq!(sort_object_order(&entries), vec![3, 1, 0, 2]);
    assert_eq!(
        check_duplicate_keys(&entries, &order),
        Err(Error::Syntax(
            ParseErrorCode::ObjectDuplicateKey("b".to_string()),
            3
        ))
    );
    assert_eq!(check_duplicate_keys(&entries[..2], &vec![1, 0]), Ok(()));
    assert_eq!(sort_object_order(&[]), Vec::<usize>::new());
    let mut some = vec![2, 1, 0];
    sort_small_object_order(&entries, &mut some);
    assert_eq!(some, vec![1, 2, 0]);
    let mut repeated = vec![0, 3, 2, 3, 0];
    sort_small_object_order(&entries, &mut repeated);
    assert_eq!(repeated, vec![3, 3, 0, 2, 0]);
}

#[test]
fn names_that_need_no_quotes() {
    assert!(is_ident("_"));
    assert!(is_ident("a1_"));
    assert!(is_ident("\u{3b1}\u{3b2}"));
    assert!(!is_ident(""));
    assert!(!is_ident("1a"));
    assert!(!is_ident("a-b"));
    assert!(!is_ident("\u{2014}"));
}

#[test]
fn a_float_table_holds_what_was_put_in_last() {
    let mut table = FloatTable::new();
    assert_eq!(table.get(3), None);
    table.insert(3, 30);
    table.insert(1, 10);
    table.insert(2, 20);
    table.insert(3, 31);
    assert_eq!(table.get(0), None);
    assert_eq!(table.get(1), Some(10));
    assert_eq!(table.get(2), Some(20));
    assert_eq!(table.get(3), Some(31));
    assert_eq!(table.get(4), None);
}

#[test]
fn numbers_in_their_compact_form() {
    let mut out = vec![0xaa];
    assert_eq!(Number::Float64(1.0_f64.to_bits()).compact_encode(&mut out), 9);
    assert_eq!(out, vec![0xaa, 0x60, 0x3f, 0xf0, 0, 0, 0, 0, 0, 0]);
    let mut out = vec![];
    assert_eq!(
        Number::Decimal64(Decimal64 {
            scale: 2,
            value: -2
        })
        .compact_encode(&mut out),
        10
    );
    assert_eq!(
        out,
        vec![0x70, 0xff, 0xff, 0xff, 0xff, 0xff, 0xff, 0xff, 0xfe, 2]
    );
    let mut out = vec![];
    assert_eq!(
        Number::Decimal256(Decimal256 {
            scale: 1,
            value: Int256 { high: -1, low: 5 }
        })
        .compact_encode(&mut out),
        34
    );
    let mut expected = vec![0x70];
    expected.extend_from_slice(&[0xff; 16]);
    expected.extend_from_slice(&5u128.to_be_bytes());
    expected.push(1);
    assert_eq!(out, expected);
}
