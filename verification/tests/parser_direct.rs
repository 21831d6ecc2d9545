use jsonb::error::{Error, ParseErrorCode};
use jsonb::floats::FloatTable;
use jsonb::parser_direct::{
    parse_owned_jsonb_direct, parse_owned_jsonb_standard_mode_direct, Parsed,
};
use jsonb::value::FloatSource;

fn float_bits(text: &[u8], source: &FloatSource) -> u64 {
    let value: f64 = match *source {
        FloatSource::Decimal { start, end } => fast_float2::parse(&text[start..end]).unwrap(),
        FloatSource::Hexadecimal {
            negative,
            integer,
            fraction,
            fraction_digits,
            ..
        } => {
            let value =
                integer as f64 + (fraction as f64 / 16.0_f64.powi(fraction_digits as i32));
            if negative {
                -value
            } else {
                value
            }
        }
    };
    value.to_bits()
}

fn parse(text: &[u8], standard: bool) -> Result<Vec<u8>, Error> {
    let mut floats = FloatTable::new();
    loop {
        let parsed = if standard {
            parse_owned_jsonb_standard_mode_direct(text, &floats)?
        } else {
            parse_owned_jsonb_direct(text, &floats)?
        };
        match parsed {
            Parsed::Jsonb(doc) => return Ok(doc.as_ref().to_vec()),
            Parsed::NeedsFloats(sources) => {
                assert!(!sources.is_empty());
                for source in &sources {
                    floats.insert(source.start(), float_bits(text, source));
                }
            }
        }
    }
}

fn extended(text: &str) -> Vec<u8> {
    parse(text.as_bytes(), false).unwrap()
}

fn standard(text: &str) -> Vec<u8> {
    parse(text.as_bytes(), true).unwrap()
}

fn extended_error(text: &[u8]) -> Error {
    parse(text, false).unwrap_err()
}

fn standard_error(text: &[u8]) -> Error {
    parse(text, true).unwrap_err()
}

fn syntax(code: ParseErrorCode, pos: usize) -> Error {
    Error::Syntax(code, pos)
}

#[derive(Clone)]
struct Node {
    jentry: u32,
    bytes: Vec<u8>,
}

fn word(jentry: u32) -> Node {
    Node {
        jentry,
        bytes: vec![],
    }
}

fn null() -> Node {
    word(0x0000_0000)
}

fn no() -> Node {
    word(0x3000_0000)
}

fn yes() -> Node {
    word(0x4000_0000)
}

fn text(s: &str) -> Node {
    Node {
        jentry: 0x1000_0000 | s.len() as u32,
        bytes: s.as_bytes().to_vec(),
    }
}

fn number(bytes: Vec<u8>) -> Node {
    Node {
        jentry: 0x2000_0000 | bytes.len() as u32,
        bytes,
    }
}

fn byte_number(kind: u8, value: u8) -> Node {
    number(vec![kind, value])
}

fn uint(value: u8) -> Node {
    byte_number(0x50, value)
}

fn zero() -> Node {
    number(vec![0x00])
}

fn float(value: f64) -> Node {
    let mut bytes = vec![0x60];
    bytes.extend_from_slice(&value.to_bits().to_be_bytes());
    number(bytes)
}

fn decimal(value: &[u8], scale: u8) -> Node {
    let mut bytes = vec![0x70];
    bytes.extend_from_slice(value);
    bytes.push(scale);
    number(bytes)
}

fn decimal64(value: i64, scale: u8) -> Node {
    decimal(&value.to_be_bytes(), scale)
}

fn decimal128(value: i128, scale: u8) -> Node {
    decimal(&value.to_be_bytes(), scale)
}

fn container(bytes: Vec<u8>) -> Node {
    Node {
        jentry: 0x5000_0000 | bytes.len() as u32,
        bytes,
    }
}

fn array(items: Vec<Node>) -> Node {
    let mut bytes = (0x8000_0000 | items.len() as u32).to_be_bytes().to_vec();
    for item in &items {
        bytes.extend_from_slice(&item.jentry.to_be_bytes());
    }
    for item in &items {
        bytes.extend_from_slice(&item.bytes);
    }
    container(bytes)
}

fn object(members: Vec<(&str, Node)>) -> Node {
    let mut bytes = (0x4000_0000 | members.len() as u32).to_be_bytes().to_vec();
    for (key, _) in &members {
        bytes.extend_from_slice(&(0x1000_0000 | key.len() as u32).to_be_bytes());
    }
    for (_, value) in &members {
        bytes.extend_from_slice(&value.jentry.to_be_bytes());
    }
    for (key, _) in &members {
        bytes.extend_from_slice(key.as_bytes());
    }
    for (_, value) in &members {
        bytes.extend_from_slice(&value.bytes);
    }
    container(bytes)
}

fn scalar_document(node: Node) -> Vec<u8> {
    let mut bytes = 0x2000_0000_u32.to_be_bytes().to_vec();
    bytes.extend_from_slice(&node.jentry.to_be_bytes());
    bytes.extend_from_slice(&node.bytes);
    bytes
}

#[test]
fn test_direct_writer_standard_values() {
    assert_eq!(standard("null"), scalar_document(null()));
    assert_eq!(standard("true"), scalar_document(yes()));
    assert_eq!(standard("false"), scalar_document(no()));
    assert_eq!(standard("123"), scalar_document(uint(123)));
    assert_eq!(standard("-42"), scalar_document(byte_number(0x40, 0xd6)));
    assert_eq!(standard("1.25"), scalar_document(float(1.25)));
    assert_eq!(
        standard(r#""hello\nworld""#),
        scalar_document(text("hello\nworld"))
    );
    assert_eq!(
        standard(r#""unicode:\u0041\uD834\uDD1E""#),
        scalar_document(text("unicode:A\u{1d11e}"))
    );
    assert_eq!(
        standard(r#"[1,2,3,{"b":true,"a":null}]"#),
        array(vec![
            uint(1),
            uint(2),
            uint(3),
            object(vec![("a", null()), ("b", yes())]),
        ])
        .bytes
    );
    assert_eq!(
        standard(r#"{"z":1,"a":[true,false,null],"s":"text"}"#),
        object(vec![
            ("a", array(vec![yes(), no(), null()])),
            ("s", text("text")),
            ("z", uint(1)),
        ])
        .bytes
    );
}

#[test]
fn test_direct_writer_standard_numbers() {
    assert_eq!(standard("0"), scalar_document(zero()));
    assert_eq!(standard("-0"), scalar_document(zero()));
    assert_eq!(
        standard("18446744073709551615"),
        scalar_document(number(vec![
            0x50, 0xff, 0xff, 0xff, 0xff, 0xff, 0xff, 0xff, 0xff
        ]))
    );
    assert_eq!(
        standard("18446744073709551616"),
        scalar_document(float(18446744073709551616.0))
    );
    assert_eq!(
        standard("-9223372036854775808"),
        scalar_document(number(vec![0x40, 0x80, 0, 0, 0, 0, 0, 0, 0]))
    );
    assert_eq!(
        standard("9223372036854775808"),
        scalar_document(number(vec![0x50, 0x80, 0, 0, 0, 0, 0, 0, 0]))
    );
    assert_eq!(standard("1.2345"), scalar_document(float(1.2345)));
    assert_eq!(standard("-0.001"), scalar_document(float(-0.001)));
    assert_eq!(standard("1e10"), scalar_document(float(1e10)));
    assert_eq!(standard("-2.5E-7"), scalar_document(float(-2.5e-7)));
    assert_eq!(
        standard("[0,-0,10.5,1e2]"),
        array(vec![zero(), zero(), float(10.5), float(1e2)]).bytes
    );
}

#[test]
fn test_direct_writer_simd_whitespace_and_delimiters() {
    let spaces = " \n\r\t\u{000c}".repeat(16);
    let input = format!(
        "{{{spaces}\"b\"{spaces}:{spaces}[1{spaces},{spaces}2]{spaces},{spaces}\"a\"{spaces}:{spaces}true{spaces}}}"
    );
    assert_eq!(
        standard(&input),
        object(vec![("a", yes()), ("b", array(vec![uint(1), uint(2)]))]).bytes
    );
}

#[test]
fn test_direct_writer_extended_values() {
    assert_eq!(extended(""), scalar_document(null()));
    assert_eq!(extended("NULL"), scalar_document(null()));
    assert_eq!(extended("True"), scalar_document(yes()));
    assert_eq!(extended("NaN"), scalar_document(number(vec![0x10])));
    assert_eq!(extended("Infinity"), scalar_document(number(vec![0x20])));
    assert_eq!(extended("-Infinity"), scalar_document(number(vec![0x30])));
    assert_eq!(extended("+42"), scalar_document(uint(42)));
    assert_eq!(extended("0x7f"), scalar_document(uint(0x7f)));
    assert_eq!(extended("-0x7f"), scalar_document(byte_number(0x40, 0x81)));
    assert_eq!(extended("0x1a.f"), scalar_document(float(26.9375)));
    assert_eq!(extended(".125"), scalar_document(decimal64(125, 3)));
    assert_eq!(extended("123."), scalar_document(uint(123)));
    assert_eq!(extended("000123"), scalar_document(uint(123)));
    assert_eq!(
        extended("18446744073709551616"),
        scalar_document(decimal128(18446744073709551616, 0))
    );
    assert_eq!(
        extended("-9223372036854775808"),
        scalar_document(number(vec![0x40, 0x80, 0, 0, 0, 0, 0, 0, 0]))
    );
    assert_eq!(
        extended("-9223372036854775809"),
        scalar_document(decimal128(-9223372036854775809, 0))
    );
    assert_eq!(
        extended(r#"'single quoted'"#),
        scalar_document(text("single quoted"))
    );
    assert_eq!(
        extended(r#"[1,,3,]"#),
        array(vec![uint(1), null(), uint(3), null()]).bytes
    );
    assert_eq!(
        extended(r#"[1 \n, \t, 3 \x0C,]"#),
        array(vec![uint(1), null(), uint(3), null()]).bytes
    );
    assert_eq!(
        extended(r#"{z: 1, a: 'value', nested: {beta: true, alpha: null}}"#),
        object(vec![
            ("a", text("value")),
            (
                "nested",
                object(vec![("alpha", null()), ("beta", yes())])
            ),
            ("z", uint(1)),
        ])
        .bytes
    );
}

#[test]
fn test_direct_writer_large_object_ordering() {
    let mut input = String::from("{");
    for idx in (0..48).rev() {
        if idx != 47 {
            input.push(',');
        }
        input.push_str(&format!(r#""key_{idx:02}":{idx}"#));
    }
    input.push('}');
    let keys: Vec<String> = (0..48).map(|idx| format!("key_{idx:02}")).collect();
    let members = keys
        .iter()
        .enumerate()
        .map(|(idx, key)| (key.as_str(), if idx == 0 { zero() } else { uint(idx as u8) }))
        .collect();
    assert_eq!(standard(&input), object(members).bytes);
}

#[test]
fn test_direct_writer_duplicate_key_error() {
    let floats = FloatTable::new();
    assert!(parse_owned_jsonb_direct(br#"{"a":1,"a":2}"#, &floats).is_err());
    assert!(parse_owned_jsonb_direct(br#"{a:1,a:2}"#, &floats).is_err());
}

#[test]
fn extended_texts_of_every_shape() {
    assert_eq!(extended("  "), scalar_document(null()));
    assert_eq!(extended("TRUE"), scalar_document(yes()));
    assert_eq!(extended("0x1A.B"), scalar_document(float(26.6875)));
    assert_eq!(extended("-0x1A.B"), scalar_document(float(-26.6875)));
    assert_eq!(extended(".25"), scalar_document(decimal64(25, 2)));
    assert_eq!(extended("00123"), scalar_document(uint(123)));
    assert_eq!(
        extended(r#""escaped\n\t\"\\string\u0041\uD83D\uDE04""#),
        scalar_document(text("escaped\n\t\"\\stringA\u{1f604}"))
    );
    assert_eq!(
        extended(r#"['single quoted', 'quoted value', {z: 1, a: [1,,3,]}]"#),
        array(vec![
            text("single quoted"),
            text("quoted value"),
            object(vec![
                ("a", array(vec![uint(1), null(), uint(3), null()])),
                ("z", uint(1)),
            ]),
        ])
        .bytes
    );
    assert_eq!(
        extended(
            r#"{
            unquoted: 'value',
            "escaped-key\n": "escaped-value\u0041",
            numbers: [1, 2.5, 123456789012345678901234567890.1234],
            empty_items: [1,,3,]
        }"#
        ),
        object(vec![
            (
                "empty_items",
                array(vec![uint(1), null(), uint(3), null()])
            ),
            ("escaped-key\n", text("escaped-valueA")),
            (
                "numbers",
                array(vec![
                    uint(1),
                    decimal64(25, 1),
                    decimal128(1234567890123456789012345678901234, 4),
                ])
            ),
            ("unquoted", text("value")),
        ])
        .bytes
    );
}

#[test]
fn standard_texts_of_every_shape() {
    assert_eq!(
        standard("123456789012345678901234567890.1234"),
        scalar_document(float(123456789012345678901234567890.1234))
    );
    assert_eq!(
        standard(r#""plain ascii string""#),
        scalar_document(text("plain ascii string"))
    );
    assert_eq!(
        standard(r#"{"z":1,"a":2,"nested":{"beta":true,"alpha":null}}"#),
        object(vec![
            ("a", uint(2)),
            (
                "nested",
                object(vec![("alpha", null()), ("beta", yes())])
            ),
            ("z", uint(1)),
        ])
        .bytes
    );
    assert_eq!(standard("[]"), array(vec![]).bytes);
    assert_eq!(standard("{ }"), object(vec![]).bytes);
    assert_eq!(standard(r#""""#), scalar_document(text("")));
}

#[test]
fn integers_take_as_few_bytes_as_they_can() {
    assert_eq!(extended("255"), scalar_document(uint(255)));
    assert_eq!(
        extended("256"),
        scalar_document(number(vec![0x50, 0x01, 0x00]))
    );
    assert_eq!(
        extended("65536"),
        scalar_document(number(vec![0x50, 0x00, 0x01, 0x00, 0x00]))
    );
    assert_eq!(
        extended("4294967296"),
        scalar_document(number(vec![0x50, 0, 0, 0, 1, 0, 0, 0, 0]))
    );
    assert_eq!(extended("-128"), scalar_document(byte_number(0x40, 0x80)));
    assert_eq!(
        extended("-129"),
        scalar_document(number(vec![0x40, 0xff, 0x7f]))
    );
    assert_eq!(
        extended("-32769"),
        scalar_document(number(vec![0x40, 0xff, 0xff, 0x7f, 0xff]))
    );
    assert_eq!(
        extended("-2147483649"),
        scalar_document(number(vec![
            0x40, 0xff, 0xff, 0xff, 0xff, 0x7f, 0xff, 0xff, 0xff
        ]))
    );
}

#[test]
fn decimals_keep_every_digit() {
    assert_eq!(
        extended("999999999999999999.9"),
        scalar_document(decimal128(9999999999999999999, 1))
    );
    assert_eq!(
        extended("-0.000000000000000001"),
        scalar_document(decimal64(-1, 18))
    );
    assert_eq!(
        extended("-0.0000000000000000001"),
        scalar_document(decimal128(-1, 19))
    );
    assert_eq!(
        extended("-1.5"),
        scalar_document(decimal64(-15, 1))
    );
    // 10^39 + 1 with one digit behind the point.
    let mut expected = vec![0u8; 32];
    expected[15] = 0x02;
    expected[16..32].copy_from_slice(
        &(0xf050_fe93_8943_acc4_5f65_5680_0000_0000_u128 + 1).to_be_bytes(),
    );
    assert_eq!(
        extended("100000000000000000000000000000000000000.1"),
        scalar_document(decimal(&expected, 1))
    );
    let mut negated: Vec<u8> = expected.iter().map(|byte| !byte).collect();
    *negated.last_mut().unwrap() += 1;
    assert_eq!(
        extended("-100000000000000000000000000000000000000.1"),
        scalar_document(decimal(&negated, 1))
    );
    let digits = "1".repeat(77);
    assert_eq!(
        extended(&digits),
        scalar_document(float(digits.parse::<f64>().unwrap()))
    );
}

#[test]
fn hexadecimal_integers_of_every_size() {
    assert_eq!(
        extended("0xffffffffffffffff"),
        scalar_document(number(vec![
            0x50, 0xff, 0xff, 0xff, 0xff, 0xff, 0xff, 0xff, 0xff
        ]))
    );
    assert_eq!(
        extended("-0x8000000000000000"),
        scalar_document(number(vec![0x40, 0x80, 0, 0, 0, 0, 0, 0, 0]))
    );
    assert_eq!(
        extended("0x10000000000000000"),
        scalar_document(decimal128(0x1_0000_0000_0000_0000, 0))
    );
    assert_eq!(
        extended("-0x8000000000000001"),
        scalar_document(decimal128(-0x8000_0000_0000_0001, 0))
    );
    let mut wide = vec![0u8; 16];
    wide.extend_from_slice(&u128::MAX.to_be_bytes());
    assert_eq!(
        extended("0xffffffffffffffffffffffffffffffff"),
        scalar_document(decimal(&wide, 0))
    );
    let mut negative = vec![0xffu8; 16];
    negative.extend_from_slice(&1u128.to_be_bytes());
    assert_eq!(
        extended("-0xffffffffffffffffffffffffffffffff"),
        scalar_document(decimal(&negative, 0))
    );
    assert_eq!(
        extended_error(b"0x100000000000000000000000000000000"),
        syntax(ParseErrorCode::InvalidNumberValue, 35)
    );
}

#[test]
fn escapes_in_strings() {
    assert_eq!(
        standard(r#""\b\f\n\r\t\/\"\\""#),
        scalar_document(text("\u{8}\u{c}\n\r\t/\"\\"))
    );
    assert_eq!(
        standard(r#""\u{0041}\u00e9""#),
        scalar_document(text("A\u{e9}"))
    );
    assert_eq!(
        standard(r#""\uDC00""#),
        scalar_document(text("\\uDC00"))
    );
    assert_eq!(
        standard(r#""\uD834x""#),
        scalar_document(text("\\uD834x"))
    );
}

#[test]
fn an_empty_text_is_null_or_too_short() {
    assert_eq!(extended(" \\n \\x0C "), scalar_document(null()));
    assert_eq!(
        standard_error(b" \t "),
        syntax(ParseErrorCode::InvalidEOF, 3)
    );
}

#[test]
fn members_are_stored_in_the_order_of_their_keys() {
    assert_eq!(
        standard(r#"{"b":1,"a":2,"ab":3,"":4}"#),
        object(vec![
            ("", uint(4)),
            ("a", uint(2)),
            ("ab", uint(3)),
            ("b", uint(1)),
        ])
        .bytes
    );
    assert_eq!(
        standard(r#"{"b":1,"a":2,"ab":3,"":4}"#),
        standard(r#"{"":4,"ab":3,"b":1,"a":2}"#)
    );
    let mut forward = String::from("{");
    let mut backward = String::from("{");
    for i in 0..100 {
        forward.push_str(&format!("k{i}:{i},"));
        backward.push_str(&format!("k{}:{},", 99 - i, 99 - i));
    }
    forward.push_str("last:[]}");
    backward.push_str("last:[]}");
    assert_eq!(extended(&forward), extended(&backward));
}

#[test]
fn equal_keys_are_refused_at_the_second_of_the_lowest() {
    assert_eq!(
        standard_error(br#"{"b":1,"a":2,"b":3,"a":4}"#),
        syntax(ParseErrorCode::ObjectDuplicateKey("a".to_string()), 22)
    );
    assert_eq!(
        extended_error(br#"{"nested":{"x":1,"x":2}}"#),
        syntax(ParseErrorCode::ObjectDuplicateKey("x".to_string()), 20)
    );
    let mut wide = String::from("{");
    for i in 0..40 {
        wide.push_str(&format!("k{i}:{i},"));
    }
    wide.push_str("k7:0}");
    assert_eq!(
        extended_error(wide.as_bytes()),
        syntax(
            ParseErrorCode::ObjectDuplicateKey("k7".to_string()),
            wide.len() - 3
        )
    );
}

#[test]
fn each_refusal_has_its_code_and_offset() {
    assert_eq!(
        standard_error(b"[1"),
        syntax(ParseErrorCode::InvalidEOF, 2)
    );
    assert_eq!(
        standard_error(b"\"abc"),
        syntax(ParseErrorCode::InvalidEOF, 4)
    );
    assert_eq!(
        standard_error(b"01"),
        syntax(ParseErrorCode::InvalidNumberValue, 2)
    );
    assert_eq!(
        standard_error(b"-"),
        syntax(ParseErrorCode::InvalidNumberValue, 1)
    );
    assert_eq!(
        standard_error(b"1."),
        syntax(ParseErrorCode::InvalidNumberValue, 3)
    );
    assert_eq!(
        standard_error(b"1e+"),
        syntax(ParseErrorCode::InvalidNumberValue, 3)
    );
    assert_eq!(
        extended_error(b"1.2.3"),
        syntax(ParseErrorCode::InvalidNumberValue, 3)
    );
    assert_eq!(
        extended_error(b"+."),
        syntax(ParseErrorCode::InvalidNumberValue, 2)
    );
    assert_eq!(
        extended_error(b"-nan"),
        syntax(ParseErrorCode::InvalidNumberValue, 4)
    );
    assert_eq!(
        extended_error(b"0x"),
        syntax(ParseErrorCode::InvalidNumberValue, 2)
    );
    assert_eq!(
        extended_error(b"0x1."),
        syntax(ParseErrorCode::InvalidNumberValue, 4)
    );
    assert_eq!(
        standard_error(b"\"\xff\""),
        syntax(ParseErrorCode::InvalidStringValue, 3)
    );
    assert_eq!(
        standard_error(b"nul!"),
        syntax(ParseErrorCode::ExpectedSomeIdent, 4)
    );
    assert_eq!(
        standard_error(br#"{"a" 1}"#),
        syntax(ParseErrorCode::ExpectedSomeIdent, 6)
    );
    assert_eq!(
        standard_error(b"NULL"),
        syntax(ParseErrorCode::ExpectedSomeValue, 1)
    );
    assert_eq!(
        standard_error(b"[1 2]"),
        syntax(ParseErrorCode::ExpectedArrayCommaOrEnd, 3)
    );
    assert_eq!(
        standard_error(br#"{"a":1 2}"#),
        syntax(ParseErrorCode::ExpectedObjectCommaOrEnd, 7)
    );
    assert_eq!(
        standard_error(b"1 x"),
        syntax(ParseErrorCode::UnexpectedTrailingCharacters, 3)
    );
    assert_eq!(
        standard_error(br#""\x""#),
        syntax(ParseErrorCode::InvalidEscaped(b'x'), 4)
    );
    assert_eq!(
        standard_error(br#""\u00g0""#),
        syntax(ParseErrorCode::InvalidHex(b'g'), 8)
    );
    assert_eq!(
        standard_error(br#""\u{00000""#),
        syntax(ParseErrorCode::UnexpectedEndOfHexEscape, 4)
    );
    assert_eq!(standard_error(b"\"\\n\xff\""), Error::InvalidUtf8);
    assert_eq!(
        extended_error(b"{1:2}"),
        syntax(ParseErrorCode::ObjectKeyInvalidNumber, 2)
    );
    assert_eq!(
        extended_error(b"{-:2}"),
        syntax(ParseErrorCode::ObjectKeyInvalidCharacter, 1)
    );
    assert_eq!(
        extended_error(b"{a\x80:2}"),
        syntax(ParseErrorCode::ObjectKeyInvalidCharacter, 2)
    );
    assert_eq!(
        extended_error(b"{a\xf0"),
        syntax(ParseErrorCode::InvalidEOF, 6)
    );
    assert_eq!(
        extended_error(b"{a\xc3\xc3:2}"),
        syntax(ParseErrorCode::InvalidStringValue, 4)
    );
}

#[test]
fn keys_without_quotes() {
    assert_eq!(
        extended("{_a$1: 1, 'b': 2, \u{e9}t\u{e9}: 3}"),
        object(vec![
            ("_a$1", uint(1)),
            ("b", uint(2)),
            ("\u{e9}t\u{e9}", uint(3)),
        ])
        .bytes
    );
    assert!(parse(b"{a: 1}", true).is_err());
}

#[test]
fn float_literals_are_asked_for_in_the_order_of_the_text() {
    let floats = FloatTable::new();
    let text = b"[1e1, {b: 2e2, a: 0x1.8}, 3]";
    let parsed = parse_owned_jsonb_direct(text, &floats).unwrap();
    assert_eq!(
        parsed,
        Parsed::NeedsFloats(vec![
            FloatSource::Decimal { start: 1, end: 4 },
            FloatSource::Decimal { start: 10, end: 13 },
            FloatSource::Hexadecimal {
                start: 18,
                negative: false,
                integer: 1,
                fraction: 8,
                fraction_digits: 1
            },
        ])
    );
    let mut some = FloatTable::new();
    some.insert(10, 200.0_f64.to_bits());
    match parse_owned_jsonb_direct(text, &some).unwrap() {
        Parsed::NeedsFloats(sources) => assert_eq!(
            sources.iter().map(|source| source.start()).collect::<Vec<_>>(),
            vec![1, 18]
        ),
        Parsed::Jsonb(_) => panic!("two literals are still unknown"),
    }
    assert_eq!(
        extended("[1e1, {b: 2e2, a: 0x1.8}, 3]"),
        array(vec![
            float(10.0),
            object(vec![("a", float(1.5)), ("b", float(200.0))]),
            uint(3),
        ])
        .bytes
    );
}

#[test]
fn a_text_is_refused_before_its_floats_are_asked_for() {
    let floats = FloatTable::new();
    assert_eq!(
        parse_owned_jsonb_standard_mode_direct(b"[1.5, x]", &floats),
        Err(syntax(ParseErrorCode::ExpectedSomeValue, 7))
    );
}

#[test]
fn standard_texts_are_extended_texts() {
    for input in [
        "null",
        " [true, false, {\"k\": \"v\\u0041\"}, -7, 0, 18446744073709551615]",
        r#"{"b": [], "a": {}, "": "x"}"#,
        "1e10",
    ] {
        assert_eq!(standard(input), extended(input));
    }
    assert_eq!(standard("-0.5e0"), extended("-0.5e0"));
    assert_eq!(standard("2.5"), scalar_document(float(2.5)));
    assert_eq!(extended("2.5"), scalar_document(decimal64(25, 1)));
}

#[test]
fn different_values_have_different_encodings() {
    let inputs = [
        "null",
        "false",
        "true",
        "0",
        "1",
        "-1",
        "256",
        "1e0",
        "1.0",
        "NaN",
        "Infinity",
        "-Infinity",
        "''",
        "'a'",
        "[]",
        "[null]",
        "[[]]",
        "['a', 'b']",
        "['ab', '']",
        "{}",
        "{a: null}",
        "{a: 'b'}",
        "{ab: ''}",
    ];
    let documents: Vec<Vec<u8>> = inputs.iter().map(|input| extended(input)).collect();
    for (i, a) in documents.iter().enumerate() {
        for (j, b) in documents.iter().enumerate() {
            assert_eq!(i == j, a == b, "{} {}", inputs[i], inputs[j]);
        }
    }
}

#[test]
fn white_space_between_tokens_does_not_matter() {
    let runs = ["", " ", "\n", "\r\n", "\t\u{000c}"];
    let long = " \n\r\t\u{000c}".repeat(20);
    let tokens = [
        "{", "\"b\"", ":", "[", "1", ",", "-2.5e3", ",", "\"x y\"", "]", ",", "\"a\"", ":", "true",
        "}",
    ];
    let expected = standard(&tokens.concat());
    for (shift, _) in runs.iter().enumerate() {
        let mut input = String::new();
        for (i, token) in tokens.iter().enumerate() {
            input.push_str(runs[(i + shift) % runs.len()]);
            input.push_str(token);
        }
        input.push_str(runs[shift]);
        assert_eq!(standard(&input), expected);
        assert_eq!(extended(&input), expected);
    }
    let mut input = long.clone();
    for token in tokens {
        input.push_str(token);
        input.push_str(&long);
    }
    assert_eq!(standard(&input), expected);
    assert_ne!(standard("\"x y\""), standard("\"x  y\""));
    assert_eq!(extended(" [ 0x1 , ] "), extended("[0x1,]"));
}

#[test]
fn spelling_and_order_leave_no_trace() {
    let spelled = extended("{z: 1, a: 'value', nested: {beta: true, alpha: null}}");
    let expected = r#"{"a":"value","nested":{"alpha":null,"beta":true},"z":1}"#;
    assert_eq!(spelled, extended(expected));
    assert_eq!(spelled, standard(expected));
    assert_eq!(
        extended("{k1:['a','\\u00e9'],'\u{e9}':\"it's\"}"),
        extended("{\"\u{e9}\":\"it's\",\"k1\":[\"a\",\"\\u00e9\"]}")
    );
    assert_eq!(extended("'a\\\"b'"), extended("\"a\\\"b\""));
}

#[test]
fn member_texts_may_come_in_any_order() {
    for count in [1, 2, 5, 31, 32, 33, 60] {
        let members: Vec<String> = (0..count)
            .map(|i| format!("\"k{}\":[{},{}.5]", i * 7 % count, i, i))
            .collect();
        let text = |members: &[String]| format!("{{{}}}", members.join(","));
        let expected = standard(&text(&members));
        let mut moved = members.clone();
        moved.reverse();
        assert_eq!(standard(&text(&moved)), expected);
        moved.rotate_left(count / 2);
        assert_eq!(standard(&text(&moved)), expected);
        assert_eq!(extended(&text(&moved)), extended(&text(&members)));
    }
    let duplicate = ParseErrorCode::ObjectDuplicateKey("a".to_string());
    assert_eq!(
        standard_error(b"{\"a\":1,\"b\":2,\"a\":3}"),
        syntax(duplicate.clone(), 16)
    );
    assert_eq!(
        standard_error(b"{\"b\":2,\"a\":3,\"a\":1}"),
        syntax(duplicate, 16)
    );
}
