use rsn::tokenizer::{Token, TokenKind, Tokenizer};
use rsn::value::{List, Mapping, Named, StructContents, Value};
use rsn::writer::{Config, Primitive, Writer};

#[test]
fn string_rendering() {
    let mut to_encode = String::new();
    for ch in 0_u8..128 {
        to_encode.push(ch as char);
    }
    to_encode.push('\u{1_F980}');
    let mut rendered = String::new();
    to_encode.as_str().render_to(&mut rendered);
    assert_eq!(
        rendered,
        "\"\\0\\x01\\x02\\x03\\x04\\x05\\x06\\x07\\x08\\t\\n\\x0b\\x0c\\r\\x0e\\x0f\\x10\\x11\\x12\\x13\\x14\\x15\\x16\\x17\\x18\\x19\\x1a\\x1b\\x1c\\x1d\\x1e\\x1f !\\\"#$%&'()*+,-./0123456789:;<=>?@ABCDEFGHIJKLMNOPQRSTUVWXYZ[\\\\]^_`abcdefghijklmnopqrstuvwxyz{|}~\\x7f🦀\""
    );
    let Some(Ok(Token { kind: TokenKind::String(parsed), .. })) = Tokenizer::full(&rendered).next() else {
        unreachable!("failed to parse rendered string")
    };
    assert_eq!(parsed, to_encode);
}

#[test]
fn byte_rendering() {
    let mut to_encode = Vec::new();
    for ch in 0_u8..255 {
        to_encode.push(ch);
    }
    let mut rendered = String::new();
    to_encode.as_slice().render_to(&mut rendered);
    assert_eq!(
        rendered,
        "b\"\\0\\x01\\x02\\x03\\x04\\x05\\x06\\x07\\x08\\t\\n\\x0b\\x0c\\r\\x0e\\x0f\\x10\\x11\\x12\\x13\\x14\\x15\\x16\\x17\\x18\\x19\\x1a\\x1b\\x1c\\x1d\\x1e\\x1f !\\\"#$%&'()*+,-./0123456789:;<=>?@ABCDEFGHIJKLMNOPQRSTUVWXYZ[\\\\]^_`abcdefghijklmnopqrstuvwxyz{|}~\\x7f\\x80\\x81\\x82\\x83\\x84\\x85\\x86\\x87\\x88\\x89\\x8a\\x8b\\x8c\\x8d\\x8e\\x8f\\x90\\x91\\x92\\x93\\x94\\x95\\x96\\x97\\x98\\x99\\x9a\\x9b\\x9c\\x9d\\x9e\\x9f\\xa0\\xa1\\xa2\\xa3\\xa4\\xa5\\xa6\\xa7\\xa8\\xa9\\xaa\\xab\\xac\\xad\\xae\\xaf\\xb0\\xb1\\xb2\\xb3\\xb4\\xb5\\xb6\\xb7\\xb8\\xb9\\xba\\xbb\\xbc\\xbd\\xbe\\xbf\\xc0\\xc1\\xc2\\xc3\\xc4\\xc5\\xc6\\xc7\\xc8\\xc9\\xca\\xcb\\xcc\\xcd\\xce\\xcf\\xd0\\xd1\\xd2\\xd3\\xd4\\xd5\\xd6\\xd7\\xd8\\xd9\\xda\\xdb\\xdc\\xdd\\xde\\xdf\\xe0\\xe1\\xe2\\xe3\\xe4\\xe5\\xe6\\xe7\\xe8\\xe9\\xea\\xeb\\xec\\xed\\xee\\xef\\xf0\\xf1\\xf2\\xf3\\xf4\\xf5\\xf6\\xf7\\xf8\\xf9\\xfa\\xfb\\xfc\\xfd\\xfe\""
    );
    let Some(Ok(Token { kind: TokenKind::Bytes(parsed), .. })) = Tokenizer::full(&rendered).next() else {
        unreachable!("failed to parse rendered bytes")
    };
    assert_eq!(parsed, to_encode);
}

#[test]
fn char_rendering_reads_back() {
    for ch in ['a', '\'', '"', '\\', '\0', '\n', '\u{7f}', '\u{1}', '🦀'] {
        let mut rendered = String::new();
        ch.render_to(&mut rendered);
        let Some(Ok(Token { kind: TokenKind::Character(parsed), .. })) = Tokenizer::full(&rendered).next() else {
            unreachable!("failed to parse rendered char {rendered}")
        };
        assert_eq!(parsed, ch);
    }
    let mut rendered = String::new();
    '\''.render_to(&mut rendered);
    assert_eq!(rendered, "'''");
}

#[test]
fn integers_and_bools_render_as_decimal_text() {
    let mut rendered = String::new();
    (-42_i64).render_to(&mut rendered);
    0_u8.render_to(&mut rendered);
    i128::MIN.render_to(&mut rendered);
    u128::MAX.render_to(&mut rendered);
    true.render_to(&mut rendered);
    false.render_to(&mut rendered);
    assert_eq!(
        rendered,
        "-420-170141183460469231731687303715884105728340282366920938463463374607431768211455truefalse"
    );
}

fn sample() -> Value {
    Value::Named(Named {
        name: "Foo".to_string(),
        contents: StructContents::Mapping(Mapping(vec![
            (Value::Identifier("a".to_string()), Value::Array(List(vec![Value::Bool(true), Value::Char('x')]))),
            (Value::Identifier("b".to_string()), Value::Tuple(List(vec![]))),
            (Value::Identifier("c".to_string()), Value::Bytes(vec![0, 200])),
        ])),
    })
}

#[test]
fn compact_and_pretty_layouts() {
    assert_eq!(
        sample().to_string(),
        "Foo{\"a\":[true,'x'],\"b\":(),\"c\":b\"\\0\\xc8\"}"
    );
    assert_eq!(
        sample().to_string_pretty(),
        "Foo {\n  \"a\": [\n    true,\n    'x'\n  ],\n  \"b\": (),\n  \"c\": b\"\\0\\xc8\"\n}"
    );
}

#[test]
fn writer_methods() {
    let mut writer = Writer::new(String::new(), &Config::Compact);
    writer.begin_named_tuple("Point");
    writer.write_primitive(&1_u32);
    writer.write_raw_value("None");
    writer.begin_map();
    writer.write_primitive("k");
    writer.write_primitive(&-1_i8);
    writer.finish_nested();
    writer.begin_list();
    writer.finish_nested();
    writer.finish_nested();
    assert_eq!(writer.finish(), "Point(1,None,{\"k\":-1},[])");

    let mut writer = Writer::new(
        String::new(),
        &Config::Pretty { indentation: "\t".to_string(), newline: "\r\n".to_string() },
    );
    writer.begin_named_map("A");
    writer.write_raw_value("x");
    writer.write_primitive(&2_u64);
    writer.finish_nested();
    assert_eq!(writer.finish(), "A {\r\n\tx: 2\r\n}");
}

#[test]
fn integers_read_back_as_one_token() {
    for value in [0_i64, 7, -7, 42, i64::MIN, i64::MAX, -1_000_000] {
        let mut rendered = String::new();
        value.render_to(&mut rendered);
        let mut tokenizer = Tokenizer::minified(&rendered);
        let Some(Ok(Token { kind: TokenKind::Integer(parsed), location })) = tokenizer.next() else {
            unreachable!("failed to parse rendered integer {rendered}")
        };
        assert_eq!(location, 0..rendered.len());
        assert_eq!(parsed.to_i128(), i128::from(value));
        assert!(tokenizer.next().is_none());
    }
    let mut rendered = String::new();
    u64::MAX.render_to(&mut rendered);
    let Some(Ok(Token { kind: TokenKind::Integer(parsed), .. })) = Tokenizer::minified(&rendered).next() else {
        unreachable!("failed to parse rendered integer {rendered}")
    };
    assert_eq!(parsed.as_u64(), Some(u64::MAX));
}

#[test]
fn floats_and_integers_are_told_apart() {
    let tokens: Vec<TokenKind> = {
        let mut tokenizer = Tokenizer::minified("1 1.5 2e3 0x10");
        let mut kinds = Vec::new();
        while let Some(token) = tokenizer.next() {
            kinds.push(token.unwrap().kind);
        }
        kinds
    };
    assert!(matches!(tokens[0], TokenKind::Integer(_)));
    assert_eq!(tokens[1], TokenKind::Float("1.5".to_string()));
    assert_eq!(tokens[2], TokenKind::Float("2e3".to_string()));
    assert!(matches!(tokens[3], TokenKind::Integer(i) if i.to_i128() == 16));
}

#[test]
fn bools_read_back_as_one_token() {
    for value in [true, false] {
        let mut rendered = String::new();
        value.render_to(&mut rendered);
        let mut tokenizer = Tokenizer::minified(&rendered);
        let Some(Ok(Token { kind, location })) = tokenizer.next() else {
            unreachable!("failed to parse rendered bool {rendered}")
        };
        assert_eq!(kind, TokenKind::Bool(value));
        assert_eq!(location, 0..rendered.len());
        assert!(tokenizer.next().is_none());
    }
}

#[test]
fn finish_keeps_what_the_output_held() {
    assert_eq!(Writer::new(String::from("x"), &Config::Compact).finish(), "x");
}
