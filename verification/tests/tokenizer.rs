use core::ops::Range;

use rsn::tokenizer::{Balanced, Error, ErrorKind, Integer, Token, TokenKind, Tokenizer};

fn collect_minified(source: &str) -> Result<Vec<Token>, Error> {
    let mut tokenizer = Tokenizer::minified(source);
    let mut tokens = Vec::new();
    while let Some(token) = tokenizer.next() {
        tokens.push(token?);
    }
    Ok(tokens)
}

fn collect_full(source: &str) -> Result<Vec<Token>, Error> {
    let mut tokenizer = Tokenizer::full(source);
    let mut tokens = Vec::new();
    while let Some(token) = tokenizer.next() {
        tokens.push(token?);
    }
    Ok(tokens)
}

fn test_tokens(source: &str, tokens: &[Token]) {
    assert_eq!(&collect_minified(source).unwrap(), tokens);
}

fn test_tokens_full(source: &str, tokens: &[Token]) {
    assert_eq!(&collect_full(source).unwrap(), tokens);
}

fn test_tokens_err(source: &str, location: Range<usize>, kind: ErrorKind) {
    let err = collect_minified(source).expect_err("source did not error");
    assert_eq!(err.kind, kind);
    assert_eq!(err.location, location);
}

/// A floating point token holds its literal's text; it reads as `expected`.
fn test_float(source: &str, location: Range<usize>, expected: f64) {
    let tokens = collect_minified(source).unwrap();
    assert_eq!(tokens.len(), 1);
    assert_eq!(tokens[0].location, location);
    match &tokens[0].kind {
        TokenKind::Float(text) => {
            let value: f64 = text.parse().unwrap();
            if expected.is_nan() {
                assert!(value.is_nan());
                assert_eq!(value.is_sign_negative(), expected.is_sign_negative());
            } else {
                assert_eq!(value, expected);
            }
        }
        other => panic!("expected a float, found {other:?}"),
    }
}

fn test_string(source: &str, expected: &str) {
    test_tokens(
        source,
        &[Token::new(0..source.len(), TokenKind::String(expected.to_string()))],
    );
}

fn test_bytes(source: &str, expected: &[u8]) {
    test_tokens(
        source,
        &[Token::new(0..source.len(), TokenKind::Bytes(expected.to_vec()))],
    );
}

fn test_char(source: &str, expected: char) {
    test_tokens(source, &[Token::new(0..source.len(), TokenKind::Character(expected))]);
}

fn test_byte(source: &str, expected: u8) {
    test_tokens(source, &[Token::new(0..source.len(), TokenKind::Byte(expected))]);
}

fn test_comment(comment: &str) {
    test_tokens_full(
        comment,
        &[Token::new(0..comment.len(), TokenKind::Comment(comment.to_string()))],
    );
}

#[test]
fn identifiers() {
    test_tokens("true", &[Token::new(0..4, TokenKind::Bool(true))]);
    test_tokens("false", &[Token::new(0..5, TokenKind::Bool(false))]);

    test_tokens("r#true", &[Token::new(0..6, TokenKind::Identifier("true".to_string()))]);
    test_tokens(
        "r#false",
        &[Token::new(0..7, TokenKind::Identifier("false".to_string()))],
    );

    test_tokens("_", &[Token::new(0..1, TokenKind::Identifier("_".to_string()))]);

    test_tokens("_0", &[Token::new(0..2, TokenKind::Identifier("_0".to_string()))]);

    test_tokens_err("=", 0..1, ErrorKind::Unexpected('='));
}

#[test]
fn integers() {
    test_tokens(
        "0",
        &[Token::new(0..1, TokenKind::Integer(Integer::Usize(0)))],
    );
    test_tokens(
        "9",
        &[Token::new(0..1, TokenKind::Integer(Integer::Usize(9)))],
    );
    test_tokens(
        "10",
        &[Token::new(0..2, TokenKind::Integer(Integer::Usize(10)))],
    );
    test_tokens(
        "99",
        &[Token::new(0..2, TokenKind::Integer(Integer::Usize(99)))],
    );
    test_tokens(
        "+0",
        &[Token::new(0..2, TokenKind::Integer(Integer::Isize(0)))],
    );
    test_tokens(
        "+9",
        &[Token::new(0..2, TokenKind::Integer(Integer::Isize(9)))],
    );
    test_tokens(
        "-0",
        &[Token::new(0..2, TokenKind::Integer(Integer::Isize(0)))],
    );
    test_tokens(
        "-9",
        &[Token::new(0..2, TokenKind::Integer(Integer::Isize(-9)))],
    );
    test_tokens(
        "-10",
        &[Token::new(0..3, TokenKind::Integer(Integer::Isize(-10)))],
    );
    test_tokens(
        "-99",
        &[Token::new(0..3, TokenKind::Integer(Integer::Isize(-99)))],
    );

    // Test 16-bit integer maximums
    test_tokens(
        "+32_767",
        &[Token::new(0..7, TokenKind::Integer(Integer::Isize(32_767)))],
    );
    test_tokens(
        "-32_768",
        &[Token::new(
            0..7,
            TokenKind::Integer(Integer::Isize(-32_768)),
        )],
    );
    test_tokens(
        "65_535",
        &[Token::new(0..6, TokenKind::Integer(Integer::Usize(65_535)))],
    );

    // Test 32-bit integer maximums
    test_tokens(
        "+2_147_483_647",
        &[Token::new(
            0..14,
            TokenKind::Integer(Integer::Isize(2_147_483_647)),
        )],
    );
    test_tokens(
        "-2_147_483_648",
        &[Token::new(
            0..14,
            TokenKind::Integer(Integer::Isize(-2_147_483_648)),
        )],
    );
    test_tokens(
        "4_294_967_295",
        &[Token::new(
            0..13,
            TokenKind::Integer(Integer::Usize(4_294_967_295)),
        )],
    );

    // Test 64-bit integer maximums
    test_tokens(
        "+9_223_372_036_854_775_807",
        &[Token::new(
            0..26,
            TokenKind::Integer(Integer::Isize(9_223_372_036_854_775_807)),
        )],
    );
    test_tokens(
        "-9_223_372_036_854_775_808",
        &[Token::new(
            0..26,
            TokenKind::Integer(Integer::Isize(-9_223_372_036_854_775_808)),
        )],
    );
    test_tokens(
        "18_446_744_073_709_551_615",
        &[Token::new(
            0..26,
            TokenKind::Integer(Integer::Usize(18_446_744_073_709_551_615)),
        )],
    );

}

#[test]
fn hex_integers() {
    test_tokens(
        "0x1",
        &[Token::new(0..3, TokenKind::Integer(Integer::Usize(1)))],
    );
    test_tokens(
        "0X12",
        &[Token::new(0..4, TokenKind::Integer(Integer::Usize(0x12)))],
    );
    test_tokens(
        "0x12_3",
        &[Token::new(0..6, TokenKind::Integer(Integer::Usize(0x123)))],
    );
    test_tokens(
        "0xaBc",
        &[Token::new(0..5, TokenKind::Integer(Integer::Usize(0xabc)))],
    );

    // Test 16-bit integer maximums
    test_tokens(
        "+0xFFFF",
        &[Token::new(0..7, TokenKind::Integer(Integer::Isize(0xFFFF)))],
    );
    test_tokens(
        "-0xFFFF",
        &[Token::new(
            0..7,
            TokenKind::Integer(Integer::Isize(-0xFFFF)),
        )],
    );
    test_tokens(
        "0xFFFF",
        &[Token::new(0..6, TokenKind::Integer(Integer::Usize(0xFFFF)))],
    );

    // Test 32-bit integer maximums
    test_tokens(
        "+0xFFFF_FFFF",
        &[Token::new(
            0..12,
            TokenKind::Integer(Integer::Isize(0xFFFF_FFFF)),
        )],
    );
    test_tokens(
        "-0xFFFF_FFFF",
        &[Token::new(
            0..12,
            TokenKind::Integer(Integer::Isize(-0xFFFF_FFFF)),
        )],
    );
    test_tokens(
        "0xFFFF_FFFF",
        &[Token::new(
            0..11,
            TokenKind::Integer(Integer::Usize(0xFFFF_FFFF)),
        )],
    );

    // Test 64-bit integer maximums
    #[allow(overflowing_literals)]
    test_tokens(
        "+0xFFFF_FFFF_FFFF_FFFF",
        &[Token::new(
            0..22,
            TokenKind::Integer(Integer::Isize(0xFFFF_FFFF_FFFF_FFFF)),
        )],
    );
    #[allow(overflowing_literals)]
    test_tokens(
        "-0xFFFF_FFFF_FFFF_FFFF",
        &[Token::new(
            0..22,
            TokenKind::Integer(Integer::Isize(-0xFFFF_FFFF_FFFF_FFFF)),
        )],
    );
    test_tokens(
        "0xFFFF_FFFF_FFFF_FFFF",
        &[Token::new(
            0..21,
            TokenKind::Integer(Integer::Usize(0xFFFF_FFFF_FFFF_FFFF)),
        )],
    );

}

#[test]
#[allow(overflowing_literals)]
fn octal_integers() {
    test_tokens(
        "0o1",
        &[Token::new(0..3, TokenKind::Integer(Integer::Usize(1)))],
    );
    test_tokens(
        "0O12",
        &[Token::new(0..4, TokenKind::Integer(Integer::Usize(0o12)))],
    );
    test_tokens(
        "0o12_3",
        &[Token::new(0..6, TokenKind::Integer(Integer::Usize(0o123)))],
    );

    // Test 16-bit integer maximums
    test_tokens(
        "+0o177_777",
        &[Token::new(
            0..10,
            TokenKind::Integer(Integer::Isize(0o177_777)),
        )],
    );
    test_tokens(
        "-0o177_777",
        &[Token::new(
            0..10,
            TokenKind::Integer(Integer::Isize(-0o177_777)),
        )],
    );
    test_tokens(
        "0o177_777",
        &[Token::new(
            0..9,
            TokenKind::Integer(Integer::Usize(0o177_777)),
        )],
    );

    // Test 32-bit integer maximums
    test_tokens(
        "+0o37_777_777_777",
        &[Token::new(
            0..17,
            TokenKind::Integer(Integer::Isize(0o37_777_777_777)),
        )],
    );
    test_tokens(
        "-0o37_777_777_777",
        &[Token::new(
            0..17,
            TokenKind::Integer(Integer::Isize(-0o37_777_777_777)),
        )],
    );
    test_tokens(
        "0o37_777_777_777",
        &[Token::new(
            0..16,
            TokenKind::Integer(Integer::Usize(0o37_777_777_777)),
        )],
    );

    // Test 64-bit integer maximums
    test_tokens(
        "+0o1_777_777_777_777_777_777_777",
        &[Token::new(
            0..32,
            TokenKind::Integer(Integer::Isize(0o1_777_777_777_777_777_777_777)),
        )],
    );
    test_tokens(
        "-0o1_777_777_777_777_777_777_777",
        &[Token::new(
            0..32,
            TokenKind::Integer(Integer::Isize(-0o1_777_777_777_777_777_777_777)),
        )],
    );
    test_tokens(
        "0o1_777_777_777_777_777_777_777",
        &[Token::new(
            0..31,
            TokenKind::Integer(Integer::Usize(0o1_777_777_777_777_777_777_777)),
        )],
    );

}

#[test]
#[allow(overflowing_literals)]
fn binary_integers() {
    test_tokens(
        "0b1",
        &[Token::new(0..3, TokenKind::Integer(Integer::Usize(1)))],
    );
    test_tokens(
        "0B10",
        &[Token::new(0..4, TokenKind::Integer(Integer::Usize(0b10)))],
    );
    test_tokens(
        "0b10_1",
        &[Token::new(0..6, TokenKind::Integer(Integer::Usize(0b101)))],
    );

    // Test 16-bit integer maximums
    test_tokens(
        "+0b1111_1111_1111_1111",
        &[Token::new(
            0..22,
            TokenKind::Integer(Integer::Isize(0b1111_1111_1111_1111)),
        )],
    );
    test_tokens(
        "-0b1111_1111_1111_1111",
        &[Token::new(
            0..22,
            TokenKind::Integer(Integer::Isize(-0b1111_1111_1111_1111)),
        )],
    );
    test_tokens(
        "0b1111_1111_1111_1111",
        &[Token::new(
            0..21,
            TokenKind::Integer(Integer::Usize(0b1111_1111_1111_1111)),
        )],
    );

    // Test 32-bit integer maximums
    test_tokens(
        "+0b1111_1111_1111_1111_1111_1111_1111_1111",
        &[Token::new(
            0..42,
            TokenKind::Integer(Integer::Isize(0b1111_1111_1111_1111_1111_1111_1111_1111)),
        )],
    );
    test_tokens(
        "-0b1111_1111_1111_1111_1111_1111_1111_1111",
        &[Token::new(
            0..42,
            TokenKind::Integer(Integer::Isize(-0b1111_1111_1111_1111_1111_1111_1111_1111)),
        )],
    );
    test_tokens(
        "0b1111_1111_1111_1111_1111_1111_1111_1111",
        &[Token::new(
            0..41,
            TokenKind::Integer(Integer::Usize(0b1111_1111_1111_1111_1111_1111_1111_1111)),
        )],
    );

    // Test 64-bit integer maximums
    test_tokens(
        "+0b1111_1111_1111_1111_1111_1111_1111_1111_1111_1111_1111_1111_1111_1111_1111_1111",
        &[Token::new(
            0..82,
            TokenKind::Integer(Integer::Isize(0b1111_1111_1111_1111_1111_1111_1111_1111_1111_1111_1111_1111_1111_1111_1111_1111)),
        )],
    );
    test_tokens(
        "-0b1111_1111_1111_1111_1111_1111_1111_1111_1111_1111_1111_1111_1111_1111_1111_1111",
        &[Token::new(
            0..82,
            TokenKind::Integer(Integer::Isize(-0b1111_1111_1111_1111_1111_1111_1111_1111_1111_1111_1111_1111_1111_1111_1111_1111)),
        )],
    );
    test_tokens(
        "0b1111_1111_1111_1111_1111_1111_1111_1111_1111_1111_1111_1111_1111_1111_1111_1111",
        &[Token::new(
            0..81,
            TokenKind::Integer(Integer::Usize(0b1111_1111_1111_1111_1111_1111_1111_1111_1111_1111_1111_1111_1111_1111_1111_1111)),
        )],
    );

}


#[test]
fn floats() {
    test_float("0.", 0..2, 0.);
    test_float("1.0", 0..3, 1.);
    test_float("-1.0", 0..4, -1.);
    test_float("+1.0", 0..4, 1.);
    test_float("-1.0e1", 0..6, -10.);
    test_float("+1.0e1", 0..6, 10.);
    test_float("-1.0e+1", 0..7, -10.);
    test_float("+1.0e+1", 0..7, 10.);
    test_float("-10.0e-1", 0..8, -1.);
    test_float("+10.0e-1", 0..8, 1.);
    test_float("-1.0e10", 0..7, -1e10);
    test_float("+1.0e10", 0..7, 1.0e10);
    test_float("-1e10", 0..5, -1e10);
    test_float("+1e10", 0..5, 1e10);
    test_float("inf", 0..3, f64::INFINITY);
    test_float("NaN", 0..3, f64::NAN);
    test_float("-inf", 0..4, -f64::INFINITY);
    test_float("-NaN", 0..4, -f64::NAN);
    test_float("+inf", 0..4, f64::INFINITY);
    test_float("+NaN", 0..4, f64::NAN);
}

#[test]
fn maps() {
    test_tokens(
        "{a:1,b:2}",
        &[
            Token::new(0..1, TokenKind::Open(Balanced::Brace)),
            Token::new(1..2, TokenKind::Identifier("a".to_string())),
            Token::new(2..3, TokenKind::Colon),
            Token::new(3..4, TokenKind::Integer(Integer::Usize(1))),
            Token::new(4..5, TokenKind::Comma),
            Token::new(5..6, TokenKind::Identifier("b".to_string())),
            Token::new(6..7, TokenKind::Colon),
            Token::new(7..8, TokenKind::Integer(Integer::Usize(2))),
            Token::new(8..9, TokenKind::Close(Balanced::Brace)),
        ],
    );
}

#[test]
fn strings() {
    test_string(r#""""#, "");
    test_string(r#""abc""#, "abc");
    test_string(r#""\r\t\n\0\x41\u{1_F980}\\\"""#, "\r\t\n\0\x41\u{1_F980}\\\"");
    // string-continue, better tested with an escaped literal than trust the
    // line endings being preserved in git.
    test_tokens(
        "\"a\\\n \t \r \n  b\"",
        &[Token::new(0..14, TokenKind::String("ab".to_string()))],
    );
}

#[test]
fn raw_strings() {
    test_string(r####"r###""##"###"####, r###""##"###);
    test_string(r##"r#"abc"#"##, r#"abc"#);
    test_string(
        r###"r#""\r\t\n\0\x41\u{1_F980}\\\"""#"###,
        r#""\r\t\n\0\x41\u{1_F980}\\\"""#,
    );
}

#[test]
fn chars() {
    test_char(r"'\0'", '\0');
    test_char(r"'\r'", '\r');
    test_char(r"'\t'", '\t');
    test_char(r"'\\'", '\\');
    test_char(r"'\''", '\'');
    test_char(r#"'\"'"#, '\"');
    test_char(r"'\x42'", '\x42');
    test_char(r"'\u{1_F980}'", '\u{1_F980}');
}

#[test]
fn bytes() {
    test_byte(r"b'\0'", b'\0');
    test_byte(r"b'\r'", b'\r');
    test_byte(r"b'\t'", b'\t');
    test_byte(r"b'\\'", b'\\');
    test_byte(r"b'\''", b'\'');
    test_byte(r#"b'\"'"#, b'\"');
    test_byte(r"b'\x42'", b'\x42');
}

#[test]
fn byte_strings() {
    test_bytes(r#"b"hello world""#, b"hello world");
    test_bytes(r#"b"\0""#, b"\0");
    test_bytes(r#"b"\r""#, b"\r");
    test_bytes(r#"b"\t""#, b"\t");
    test_bytes(r#"b"\\""#, b"\\");
    test_bytes(r#"b"\'""#, b"\'");
    test_bytes(r#"b"\"""#, b"\"");
    test_bytes(r#"b"\x42""#, b"\x42");
    // string-continue, better tested with an escaped literal than trust the
    // line endings being preserved in git.
    test_tokens(
        "b\"a\\\n \t \r \n  b\"",
        &[Token::new(0..15, TokenKind::Bytes(b"ab".to_vec()))],
    );
}

#[test]
fn raw_byte_strings() {
    test_bytes(r####"br###""##"###"####, br###""##"###);
    test_bytes(r##"br#"abc"#"##, br#"abc"#);
    test_bytes(
        r###"br#""\r\t\n\0\x41\u{1_F980}\\\"""#"###,
        br#""\r\t\n\0\x41\u{1_F980}\\\"""#,
    );
}

#[test]
fn block_comments() {
    test_comment("/* hello */");
    test_comment("/*** /* hello */ **/");
}

#[test]
fn single_line_comments() {
    test_tokens_full(
        "// test",
        &[Token::new(0..7, TokenKind::Comment("// test".to_string()))],
    );
    test_tokens_full(
        "// test\n",
        &[
            Token::new(0..7, TokenKind::Comment("// test".to_string())),
            Token::new(7..8, TokenKind::Whitespace("\n".to_string())),
        ],
    );
}

#[test]
fn raw_forms_without_pounds() {
    assert_eq!(
        collect_minified(r#"r"\""#).unwrap(),
        vec![Token { location: 0..4, kind: TokenKind::String("\\".to_string()) }]
    );
    assert_eq!(
        collect_minified("bread").unwrap(),
        vec![Token { location: 0..5, kind: TokenKind::Identifier("bread".to_string()) }]
    );
    assert_eq!(
        collect_minified(r#"br"abc""#).unwrap(),
        vec![Token { location: 0..7, kind: TokenKind::Bytes(b"abc".to_vec()) }]
    );
    assert_eq!(
        collect_minified("r").unwrap(),
        vec![Token { location: 0..1, kind: TokenKind::Identifier("r".to_string()) }]
    );
}

#[test]
fn numbers_read_as_far_as_they_go() {
    test_tokens(
        "1_000",
        &[Token { location: 0..5, kind: TokenKind::Integer(Integer::Usize(1000)) }],
    );
    test_tokens(
        "-1_0",
        &[Token { location: 0..4, kind: TokenKind::Integer(Integer::Isize(-10)) }],
    );
    test_tokens(
        "1.0_1",
        &[Token { location: 0..5, kind: TokenKind::Float("1.01".to_string()) }],
    );
    test_tokens(
        "-2_000.123_456",
        &[Token { location: 0..14, kind: TokenKind::Float("-2000.123456".to_string()) }],
    );
    test_tokens(
        "42.",
        &[Token { location: 0..3, kind: TokenKind::Float("42.".to_string()) }],
    );
    test_tokens(
        "0xF_F",
        &[Token { location: 0..5, kind: TokenKind::Integer(Integer::Usize(255)) }],
    );
    test_tokens(
        "0o77",
        &[Token { location: 0..4, kind: TokenKind::Integer(Integer::Usize(63)) }],
    );
    test_tokens(
        "-0b101",
        &[Token { location: 0..6, kind: TokenKind::Integer(Integer::Isize(-5)) }],
    );
    test_tokens(
        "0b102",
        &[
            Token { location: 0..4, kind: TokenKind::Integer(Integer::Usize(2)) },
            Token { location: 4..5, kind: TokenKind::Integer(Integer::Usize(2)) },
        ],
    );
}

#[test]
fn raw_identifiers_and_stray_characters() {
    test_tokens(
        "r#true",
        &[Token { location: 0..6, kind: TokenKind::Identifier("true".to_string()) }],
    );
    test_tokens_err("=", 0..1, ErrorKind::Unexpected('='));
    test_tokens_err("a =", 2..3, ErrorKind::Unexpected('='));
}

#[test]
fn full_tokenizer_keeps_comments_and_whitespace() {
    test_tokens_full(
        " // one\n1",
        &[
            Token { location: 0..1, kind: TokenKind::Whitespace(" ".to_string()) },
            Token { location: 1..7, kind: TokenKind::Comment("// one".to_string()) },
            Token { location: 7..8, kind: TokenKind::Whitespace("\n".to_string()) },
            Token { location: 8..9, kind: TokenKind::Integer(Integer::Usize(1)) },
        ],
    );
}

#[test]
fn floats_with_exponents() {
    test_tokens(
        "1e10",
        &[Token { location: 0..4, kind: TokenKind::Float("1e10".to_string()) }],
    );
    test_tokens(
        "-1.5E+3",
        &[Token { location: 0..7, kind: TokenKind::Float("-1.5E+3".to_string()) }],
    );
    test_tokens(
        "3.14 2.5e-1",
        &[
            Token { location: 0..4, kind: TokenKind::Float("3.14".to_string()) },
            Token { location: 5..11, kind: TokenKind::Float("2.5e-1".to_string()) },
        ],
    );
    test_tokens_err("1e", 2..2, ErrorKind::ExpectedDigit);
}

#[test]
fn radix_literals_beyond_the_large_size() {
    let err = collect_minified("0x1_0000_0000_0000_0000").unwrap_err();
    assert_eq!(err.kind, ErrorKind::IntegerTooLarge);
    let mut binary = String::from("0b1");
    for _ in 0..64 {
        binary.push('0');
    }
    binary.push('2');
    let err = collect_minified(&binary).unwrap_err();
    assert_eq!(err.kind, ErrorKind::IntegerTooLarge);
    test_tokens(
        "0xFFFF_FFFF_FFFF_FFFF",
        &[Token { location: 0..21, kind: TokenKind::Integer(Integer::Usize(usize::MAX)) }],
    );
}

#[test]
fn tokens_end_where_their_literal_ends() {
    test_tokens_full(
        "// test\n-10.0e-1 0o17 /* a /* b */ c */",
        &[
            Token { location: 0..7, kind: TokenKind::Comment("// test".to_string()) },
            Token { location: 7..8, kind: TokenKind::Whitespace("\n".to_string()) },
            Token { location: 8..16, kind: TokenKind::Float("-10.0e-1".to_string()) },
            Token { location: 16..17, kind: TokenKind::Whitespace(" ".to_string()) },
            Token { location: 17..21, kind: TokenKind::Integer(Integer::Usize(15)) },
            Token { location: 21..22, kind: TokenKind::Whitespace(" ".to_string()) },
            Token {
                location: 22..39,
                kind: TokenKind::Comment("/* a /* b */ c */".to_string()),
            },
        ],
    );
}

#[test]
fn trailing_whitespace_ends_the_tokens() {
    assert_eq!(
        collect_minified("// test\n").unwrap(),
        vec![Token { location: 0..7, kind: TokenKind::Comment("// test".to_string()) }]
    );
    assert_eq!(collect_minified(" \t\n").unwrap(), Vec::<Token>::new());
    let mut tokenizer = Tokenizer::minified("1  ");
    assert!(matches!(tokenizer.next(), Some(Ok(_))));
    assert!(tokenizer.next().is_none());
}

#[test]
fn radix_prefix_starts_a_radix_literal() {
    test_tokens(
        "0x10",
        &[Token { location: 0..4, kind: TokenKind::Integer(Integer::Usize(16)) }],
    );
    test_tokens(
        "-0o10",
        &[Token { location: 0..5, kind: TokenKind::Integer(Integer::Isize(-8)) }],
    );
    let err = collect_minified("18446744073709551616").unwrap_err();
    assert_eq!(err.kind, ErrorKind::IntegerTooLarge);
    let err = collect_minified("-9223372036854775809").unwrap_err();
    assert_eq!(err.kind, ErrorKind::IntegerTooLarge);
}
