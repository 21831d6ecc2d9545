use std::borrow::Cow;

use jsonb::error::Error;
use jsonb::keypath::{KeyPath, KeyPaths, OwnedKeyPath, OwnedKeyPaths};
use jsonb::keypath_parser::parse_key_paths;

fn name(s: &str) -> OwnedKeyPath {
    OwnedKeyPath::Name(s.to_string())
}

fn raw(s: &str) -> KeyPath<'_> {
    KeyPath::Name(Cow::Borrowed(s))
}

fn quoted(s: &str) -> KeyPath<'_> {
    KeyPath::QuotedName(Cow::Borrowed(s))
}

#[test]
fn test_owned_key_paths_canonical_roundtrip() {
    let paths = OwnedKeyPaths {
        paths: vec![
            OwnedKeyPath::Name("user".to_string()),
            OwnedKeyPath::Name("profile.name".to_string()),
            OwnedKeyPath::Index(0),
            OwnedKeyPath::Name("it's".to_string()),
        ],
    };
    let encoded = paths.to_canonical_path();
    assert_eq!(encoded, "user.'profile.name'[0].'it\\'s'");
    assert_eq!(OwnedKeyPaths::from_canonical_path(&encoded).unwrap(), paths);
}

#[test]
fn test_quoted_and_unquoted_paths_share_owned_identity() {
    let quoted = KeyPath::QuotedName(Cow::Borrowed("name")).to_owned();
    let unquoted = KeyPath::Name(Cow::Borrowed("name")).to_owned();
    assert_eq!(quoted, unquoted);
    assert_eq!(quoted, OwnedKeyPath::Name("name".to_string()));
}

#[test]
fn canonical_forms() {
    let cases = vec![
        (vec![name("user"), name("name")], "user.name"),
        (
            vec![name("users"), OwnedKeyPath::Index(0), name("id")],
            "users[0].id",
        ),
        (
            vec![name("user"), name("profile.name")],
            "user.'profile.name'",
        ),
        (
            vec![OwnedKeyPath::Index(i32::MIN), OwnedKeyPath::Index(i32::MAX)],
            "[-2147483648][2147483647]",
        ),
        (vec![name("")], "''"),
        (vec![name(""), name("")], "''.''"),
        (vec![name("a\\b'c")], "'a\\\\b\\'c'"),
        (vec![name("_x1"), name("1x")], "_x1.'1x'"),
        (
            vec![name("\u{e9}t\u{e9}"), name("\u{2192}")],
            "\u{e9}t\u{e9}.'\u{2192}'",
        ),
        // A letter, and a digit of another script that no name can start with.
        (vec![name("x\u{664}"), name("\u{664}x")], "x\u{664}.'\u{664}x'"),
        (vec![OwnedKeyPath::Index(7), name("a b")], "[7].'a b'"),
    ];
    for (paths, form) in cases {
        let paths = OwnedKeyPaths { paths };
        assert_eq!(paths.to_canonical_path(), form);
        assert_eq!(OwnedKeyPaths::from_canonical_path(form), Ok(paths));
    }
    assert_eq!(OwnedKeyPaths { paths: vec![] }.to_canonical_path(), "");
}

#[test]
fn canonical_forms_that_are_refused() {
    for form in [
        "",
        ".a",
        "a.",
        "a..b",
        "a b",
        "[",
        "[]",
        "[-]",
        "[+1]",
        "[1",
        "[1x]",
        "[2147483648]",
        "[-2147483649]",
        "[99999999999999999999]",
        "[0]a",
        "a.[0]",
        "1a",
        "'a",
        "'a\\",
        "'a\\b'",
        "'a'b",
    ] {
        assert_eq!(
            OwnedKeyPaths::from_canonical_path(form),
            Err(Error::InvalidKeyPath),
            "{form}"
        );
    }
}

#[test]
fn an_index_may_be_written_with_leading_zeros() {
    assert_eq!(
        OwnedKeyPaths::from_canonical_path("[-007]"),
        Ok(OwnedKeyPaths {
            paths: vec![OwnedKeyPath::Index(-7)]
        })
    );
}

#[test]
fn owned_paths_survive_borrowing() {
    let paths = OwnedKeyPaths {
        paths: vec![name("a"), OwnedKeyPath::Index(-3), name("")],
    };
    assert_eq!(paths.as_key_paths().to_owned(), paths);
    assert_eq!(
        OwnedKeyPaths::from_key_path_slice(&paths.as_key_paths().paths),
        paths
    );
    assert_eq!(name("a").as_key_path(), raw("a"));
}

#[test]
fn paths_as_they_are_shown() {
    let paths = KeyPaths {
        paths: vec![KeyPath::Index(-12), quoted("a b"), raw("c")],
    };
    assert_eq!(paths.to_string(), "{-12,\"a b\",c}");
    assert_eq!(paths.clone(), paths);
    assert_eq!(paths.to_owned().to_string(), "{-12,a b,c}");
    assert_eq!(KeyPaths { paths: vec![] }.to_string(), "{}");
    assert_eq!(KeyPath::Index(1234567890).to_string(), "1234567890");
    assert_eq!(OwnedKeyPath::Index(0).to_string(), "0");
}

#[test]
fn lists_of_key_paths() {
    let cases: Vec<(&[u8], Vec<KeyPath<'_>>)> = vec![
        (b"{}", vec![]),
        (b" {  }\t\n", vec![]),
        (b"{1}", vec![KeyPath::Index(1)]),
        (
            b" { +1 , -2,a ,\"b c\" } ",
            vec![KeyPath::Index(1), KeyPath::Index(-2), raw("a"), quoted("b c")],
        ),
        (b"{-2147483648}", vec![KeyPath::Index(i32::MIN)]),
        (b"{2147483648}", vec![raw("2147483648")]),
        (b"{\"\"}", vec![quoted("")]),
        (b"{\"1\"}", vec![quoted("1")]),
        (b"{\"a\\\"b\\u0041\"}", vec![quoted("a\"bA")]),
        (b"{a\\u0041b}", vec![raw("aAb")]),
        (b"{\xc3\xa9}", vec![raw("\u{e9}")]),
    ];
    for (text, paths) in cases {
        assert_eq!(parse_key_paths(text), Ok(KeyPaths { paths }));
    }
}

#[test]
fn lists_of_key_paths_that_are_refused() {
    let cases: Vec<&[u8]> = vec![
        b"",
        b"{",
        b"}",
        b"a",
        b"{,}",
        b"{a,}",
        b"{a b}",
        b"{1a}",
        b"{-}",
        b"{-2147483649}",
        b"{\"a}",
        b"{a} x",
        b"{} x",
        b"{a\\}",
        b"{\xff}",
        b"{\"\xff\"}",
        b"{\"\\q\"}",
        b"{a.b}",
    ];
    for text in cases {
        assert_eq!(parse_key_paths(text), Err(Error::InvalidKeyPath));
    }
}
