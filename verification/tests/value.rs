use rsn::parser::{Config, ErrorKind, Nested};
use rsn::tokenizer::Integer;
use rsn::value::{List, Mapping, Named, StructContents, Value};

fn named_map(name: &str, entries: Vec<(Value, Value)>) -> Value {
    Value::Named(Named { name: name.to_string(), contents: StructContents::Mapping(Mapping(entries)) })
}

fn ident(name: &str) -> Value {
    Value::Identifier(name.to_string())
}

fn basic_named() -> Value {
    named_map(
        "BasicNamed",
        vec![(ident("a"), Value::Integer(Integer::Usize(1))), (ident("b"), Value::Integer(Integer::Isize(-1)))],
    )
}

#[test]
fn display() {
    let value = Value::Named(Named {
        name: "Hello".to_string(),
        contents: StructContents::Tuple(List(vec![Value::String("World".to_string())])),
    });
    assert_eq!(value.to_string(), "Hello(\"World\")");
    assert_eq!(value.to_string_pretty(), "Hello(\n  \"World\"\n)");
}

#[test]
fn values_parse_from_text() {
    let parsed = Value::from_str("BasicNamed{ a: 1, b: -1 }", Config::default()).unwrap();
    assert_eq!(parsed, basic_named());
    let parsed = Value::from_str("[1, (2, 0x3), {\"k\": b\"v\"}, 'c', r#raw, 1.5]", Config::default()).unwrap();
    assert_eq!(
        parsed,
        Value::Array(List(vec![
            Value::Integer(Integer::Usize(1)),
            Value::Tuple(List(vec![Value::Integer(Integer::Usize(2)), Value::Integer(Integer::Usize(3))])),
            Value::Mapping(Mapping(vec![(Value::String("k".to_string()), Value::Bytes(b"v".to_vec()))])),
            Value::Char('c'),
            ident("raw"),
            Value::Float("1.5".to_string()),
        ]))
    );
    let parsed = Value::from_str("a: 1\nb: -1", Config::default().allow_implicit_map_at_root(true)).unwrap();
    assert_eq!(
        parsed,
        Value::Mapping(Mapping(vec![
            (ident("a"), Value::Integer(Integer::Usize(1))),
            (ident("b"), Value::Integer(Integer::Isize(-1))),
        ]))
    );
    assert_eq!(Value::from_str("b'x'", Config::default()).unwrap(), Value::Integer(Integer::Usize(120)));
}

#[test]
fn value_errors() {
    let err = Value::from_str("", Config::default()).unwrap_err();
    assert_eq!(err.kind, ErrorKind::UnexpectedEof);
    assert_eq!(err.location, 0..0);
    let err = Value::from_str("[1, 2", Config::default()).unwrap_err();
    assert_eq!(err.kind, ErrorKind::ExpectedCommaOrEnd(Nested::List));
    let err = Value::from_str("{a: }", Config::default()).unwrap_err();
    assert_eq!(err.kind, ErrorKind::ExpectedValue);
}

#[test]
fn rendered_values_parse_back() {
    let value = basic_named();
    let text = value.to_string();
    assert_eq!(text, "BasicNamed{\"a\":1,\"b\":-1}");
    let reparsed = Value::from_str(&text, Config::default()).unwrap();
    assert_eq!(
        reparsed,
        named_map(
            "BasicNamed",
            vec![
                (Value::String("a".to_string()), Value::Integer(Integer::Usize(1))),
                (Value::String("b".to_string()), Value::Integer(Integer::Isize(-1))),
            ],
        )
    );
}

#[test]
fn integer_accessors() {
    let value = Value::Integer(Integer::Isize(-1));
    assert_eq!(value.as_i8(), Some(-1));
    assert_eq!(value.as_u8(), None);
    assert_eq!(value.as_u128(), None);
    assert_eq!(value.as_i128(), Some(-1));
    let value = Value::Integer(Integer::Usize(300));
    assert_eq!(value.as_u8(), None);
    assert_eq!(value.as_u16(), Some(300));
    assert_eq!(value.as_i16(), Some(300));
    assert_eq!(value.as_u32(), Some(300));
    assert_eq!(value.as_u64(), Some(300));
    assert_eq!(value.as_usize(), Some(300));
    assert_eq!(value.as_i32(), Some(300));
    assert_eq!(value.as_i64(), Some(300));
    assert_eq!(value.as_isize(), Some(300));
    assert_eq!(Value::Integer(Integer::UnsignedLarge(u64::MAX)).as_i64(), None);
    assert_eq!(Value::Integer(Integer::SignedLarge(i64::MIN)).as_u64(), None);
    assert_eq!(Value::Bool(true).as_u8(), None);
    assert_eq!(Integer::Usize(255).as_u8(), Some(255));
    assert!(Integer::Isize(0).is_zero());
}

#[test]
fn text_accessors() {
    assert_eq!(Value::String("hi".to_string()).as_str(), Some("hi"));
    assert_eq!(ident("hi").as_str(), Some("hi"));
    assert_eq!(Value::Bytes(b"hi".to_vec()).as_str(), Some("hi"));
    assert_eq!(Value::Bytes(vec![0xff, 0xfe]).as_str(), None);
    assert_eq!(Value::Bool(true).as_str(), None);
    assert_eq!(Value::String("hi".to_string()).as_bytes(), Some(&b"hi"[..]));
    assert_eq!(Value::Bytes(vec![1, 2]).as_bytes(), Some(&[1_u8, 2][..]));
    assert_eq!(Value::Char('c').as_bytes(), None);
    assert_eq!(Value::unit(), Value::Tuple(List::new()));
}

#[test]
fn scalar_values_read_back() {
    for integer in [Integer::Usize(0), Integer::Isize(-7), Integer::Usize(u64::MAX as usize), Integer::Isize(i64::MIN as isize)] {
        let text = Value::Integer(integer).to_string();
        let read = Value::from_str(&text, Config::default()).unwrap();
        match read {
            Value::Integer(i) => assert_eq!(i.to_i128(), integer.to_i128()),
            other => panic!("read {other:?} from {text}"),
        }
    }
    for b in [true, false] {
        let text = Value::Bool(b).to_string();
        assert_eq!(Value::from_str(&text, Config::default()).unwrap(), Value::Bool(b));
    }
    for s in ["", "hello \"world\"\n", "tab\there", "\u{1F980}"] {
        let text = Value::String(s.to_string()).to_string();
        assert_eq!(Value::from_str(&text, Config::default()).unwrap(), Value::String(s.to_string()));
    }
    for c in ['a', '\'', '\n', '\u{1F980}', '\0'] {
        let text = Value::Char(c).to_string();
        assert_eq!(Value::from_str(&text, Config::default()).unwrap(), Value::Char(c));
    }
    for bytes in [vec![], vec![0u8, 255, b'"', b'\\'], b"hello".to_vec()] {
        let text = Value::Bytes(bytes.clone()).to_string();
        assert_eq!(Value::from_str(&text, Config::default()).unwrap(), Value::Bytes(bytes));
    }
}

#[test]
fn scalar_values_read_back_with_implicit_maps_allowed() {
    let config = Config::default().allow_implicit_map_at_root(true);
    assert_eq!(Value::from_str("42", config).unwrap(), Value::Integer(Integer::Usize(42)));
    assert_eq!(Value::from_str("true", config).unwrap(), Value::Bool(true));
}
