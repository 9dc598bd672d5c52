use rsn::parser::Nested;
use rsn::tokenizer::Integer;
use rsn::value::convert::{
    EnumVariantAccessor, ExpectedKind, FromValueError, MapSerializer, NewtypeContents,
    OptionContents, SequenceSerializer, ToValueError, ValueDeserializer, ValueSerializer,
    VariantItems, VariantKey,
};
use rsn::value::{List, Mapping, Named, StructContents, Value};

fn ident(name: &str) -> Value {
    Value::Identifier(name.to_string())
}

fn num(value: usize) -> Value {
    Value::Integer(Integer::Usize(value))
}

fn named_tuple(name: &str, items: Vec<Value>) -> Value {
    Value::Named(Named { name: name.to_string(), contents: StructContents::Tuple(List(items)) })
}

fn named_map(name: &str, entries: Vec<(Value, Value)>) -> Value {
    Value::Named(Named { name: name.to_string(), contents: StructContents::Mapping(Mapping(entries)) })
}

#[test]
fn integer_conversions() {
    assert_eq!(Integer::from(7_u8), Integer::Usize(7));
    assert_eq!(Integer::from(-7_i8), Integer::Isize(-7));
    assert_eq!(Integer::from(u64::MAX), Integer::Usize(usize::MAX));
    assert_eq!(Integer::from(i64::MIN), Integer::Isize(isize::MIN));
    assert_eq!(Integer::try_from(5_u128), Ok(Integer::Usize(5)));
    assert_eq!(Integer::try_from(-5_i128), Ok(Integer::Isize(-5)));
    assert!(Integer::try_from(u128::from(u64::MAX) + 1).is_err());
    assert!(Integer::try_from(i128::from(i64::MIN) - 1).is_err());
}

#[test]
fn value_serializer_builds_values() {
    assert_eq!(ValueSerializer.serialize_none(), ident("None"));
    assert_eq!(ValueSerializer.serialize_some(num(1)), named_tuple("Some", vec![num(1)]));
    assert_eq!(ValueSerializer.serialize_unit(), Value::Tuple(List(Vec::new())));
    assert_eq!(ValueSerializer.serialize_unit_struct("Marker"), ident("Marker"));
    assert_eq!(ValueSerializer.serialize_unit_variant("Off"), ident("Off"));
    assert_eq!(ValueSerializer.serialize_newtype("Meters", num(3)), named_tuple("Meters", vec![num(3)]));
    assert_eq!(ValueSerializer.serialize_u128(42), Ok(num(42)));
    assert_eq!(ValueSerializer.serialize_i128(-42), Ok(Value::Integer(Integer::Isize(-42))));
    assert!(matches!(ValueSerializer.serialize_u128(u128::MAX), Err(ToValueError::IntegerTooLarge(_))));
    assert!(matches!(ValueSerializer.serialize_i128(i128::MIN), Err(ToValueError::IntegerTooLarge(_))));
}

#[test]
fn sequence_serializer() {
    let mut list = SequenceSerializer::new(None, Nested::List);
    list.serialize_element(num(1));
    list.serialize_element(num(2));
    assert_eq!(list.end(), Value::Array(List(vec![num(1), num(2)])));

    let mut tuple = SequenceSerializer::new(None, Nested::Tuple);
    tuple.serialize_element(num(1));
    assert_eq!(tuple.end(), Value::Tuple(List(vec![num(1)])));

    let mut named = SequenceSerializer::new(Some("Pair".to_string()), Nested::Tuple);
    named.serialize_element(num(1));
    named.serialize_element(Value::Bool(true));
    assert_eq!(named.end(), named_tuple("Pair", vec![num(1), Value::Bool(true)]));
}

#[test]
fn map_serializer() {
    let mut map = MapSerializer::new(None);
    map.serialize_key(ident("a"));
    map.serialize_value(num(1));
    map.serialize_key(ident("b"));
    assert_eq!(
        map.end(),
        Value::Mapping(Mapping(vec![(ident("a"), num(1)), (ident("b"), Value::Tuple(List(Vec::new())))]))
    );

    let mut named = MapSerializer::new(Some("Point".to_string()));
    named.serialize_key(ident("x"));
    named.serialize_value(num(4));
    assert_eq!(named.end(), named_map("Point", vec![(ident("x"), num(4))]));
}

#[test]
fn value_deserializer_primitives() {
    assert_eq!(ValueDeserializer(&Value::Bool(true)).deserialize_bool(), Ok(true));
    assert_eq!(ValueDeserializer(&num(0)).deserialize_bool(), Ok(false));
    assert_eq!(ValueDeserializer(&num(3)).deserialize_bool(), Ok(true));
    assert_eq!(
        ValueDeserializer(&Value::Char('c')).deserialize_bool(),
        Err(FromValueError::Expected(ExpectedKind::Bool))
    );
    assert_eq!(ValueDeserializer(&Value::Char('c')).deserialize_char(), Ok('c'));
    assert_eq!(ValueDeserializer(&num(1)).deserialize_char(), Err(FromValueError::Expected(ExpectedKind::Char)));

    assert_eq!(ValueDeserializer(&Value::String("s".to_string())).deserialize_str(), Ok("s"));
    assert_eq!(ValueDeserializer(&ident("id")).deserialize_str(), Ok("id"));
    assert_eq!(ValueDeserializer(&named_tuple("Name", vec![])).deserialize_str(), Ok("Name"));
    assert_eq!(ValueDeserializer(&Value::Bytes(b"ok".to_vec())).deserialize_str(), Ok("ok"));
    assert_eq!(
        ValueDeserializer(&Value::Bytes(vec![0xff])).deserialize_str(),
        Err(FromValueError::InvalidUtf8)
    );
    assert_eq!(ValueDeserializer(&num(1)).deserialize_str(), Err(FromValueError::Expected(ExpectedKind::String)));

    assert_eq!(ValueDeserializer(&Value::Bytes(vec![1, 2])).deserialize_bytes(), Ok(&[1_u8, 2][..]));
    assert_eq!(ValueDeserializer(&Value::String("hi".to_string())).deserialize_bytes(), Ok(&b"hi"[..]));
    assert_eq!(ValueDeserializer(&num(1)).deserialize_bytes(), Err(FromValueError::Expected(ExpectedKind::Bytes)));
}

#[test]
fn value_deserializer_options_and_units() {
    assert!(matches!(ValueDeserializer(&ident("None")).deserialize_option(), OptionContents::Absent));
    assert!(matches!(
        ValueDeserializer(&Value::String("None".to_string())).deserialize_option(),
        OptionContents::Absent
    ));
    let some = named_tuple("Some", vec![num(5)]);
    match ValueDeserializer(&some).deserialize_option() {
        OptionContents::Present(value) => assert_eq!(value, &num(5)),
        OptionContents::Absent => panic!("expected a value"),
    }
    let bare = num(6);
    match ValueDeserializer(&bare).deserialize_option() {
        OptionContents::Present(value) => assert_eq!(value, &num(6)),
        OptionContents::Absent => panic!("expected a value"),
    }
    let empty_some = named_tuple("Some", vec![]);
    match ValueDeserializer(&empty_some).deserialize_option() {
        OptionContents::Present(value) => assert_eq!(value, &empty_some),
        OptionContents::Absent => panic!("expected a value"),
    }

    assert_eq!(ValueDeserializer(&Value::Tuple(List(vec![]))).deserialize_unit(), Ok(()));
    assert_eq!(ValueDeserializer(&named_tuple("U", vec![num(1)])).deserialize_unit(), Ok(()));
    assert_eq!(ValueDeserializer(&num(1)).deserialize_unit(), Err(FromValueError::Expected(ExpectedKind::Unit)));
}

#[test]
fn value_deserializer_structures() {
    let newtype = named_tuple("Meters", vec![num(3)]);
    assert!(matches!(
        ValueDeserializer(&newtype).deserialize_newtype_struct("Meters"),
        NewtypeContents::Inner(v) if v == &num(3)
    ));
    assert!(matches!(
        ValueDeserializer(&newtype).deserialize_newtype_struct("Feet"),
        NewtypeContents::Inner(v) if v == &newtype
    ));
    let empty = named_tuple("Meters", vec![]);
    assert!(matches!(ValueDeserializer(&empty).deserialize_newtype_struct("Meters"), NewtypeContents::Unit));
    let fields = named_map("Meters", vec![(ident("v"), num(9))]);
    assert!(matches!(
        ValueDeserializer(&fields).deserialize_newtype_struct("Meters"),
        NewtypeContents::Inner(v) if v == &num(9)
    ));

    let array = Value::Array(List(vec![num(1), num(2)]));
    assert_eq!(ValueDeserializer(&array).deserialize_seq().map(|s| s.len()), Ok(2));
    assert_eq!(
        ValueDeserializer(&fields).deserialize_seq().map(|s| s.len()),
        Err(FromValueError::Expected(ExpectedKind::Sequence))
    );
    assert_eq!(ValueDeserializer(&fields).deserialize_map().map(|s| s.len()), Ok(1));
    assert_eq!(
        ValueDeserializer(&array).deserialize_map().map(|s| s.len()),
        Err(FromValueError::Expected(ExpectedKind::Mapping))
    );
}

#[test]
fn value_deserializer_enums() {
    let unit = ident("Off");
    match ValueDeserializer(&unit).variant() {
        Ok((VariantKey::Itself(v), EnumVariantAccessor::Unit)) => assert_eq!(v, &unit),
        _ => panic!("expected a unit variant"),
    }
    let tuple = named_tuple("Rgb", vec![num(1), num(2), num(3)]);
    match ValueDeserializer(&tuple).variant() {
        Ok((VariantKey::Name(name), accessor)) => {
            assert_eq!(name, "Rgb");
            match accessor.contents() {
                Some(VariantItems::Sequence(items)) => assert_eq!(items.len(), 3),
                _ => panic!("expected items"),
            }
        }
        _ => panic!("expected a tuple variant"),
    }
    match ValueDeserializer(&tuple).variant() {
        Ok((_, accessor)) => assert!(matches!(accessor.newtype_variant(), Ok(NewtypeContents::Inner(v)) if v == &num(1))),
        Err(_) => panic!("expected a variant"),
    }
    let fields = named_map("Point", vec![(ident("x"), num(1))]);
    match ValueDeserializer(&fields).variant() {
        Ok((_, accessor)) => assert!(matches!(
            accessor.newtype_variant(),
            Err(FromValueError::Expected(ExpectedKind::Newtype))
        )),
        Err(_) => panic!("expected a variant"),
    }
    match ValueDeserializer(&fields).variant() {
        Ok((_, accessor)) => assert!(matches!(accessor.contents(), Some(VariantItems::Entries(e)) if e.len() == 1)),
        Err(_) => panic!("expected a variant"),
    }
    assert!(matches!(EnumVariantAccessor::Unit.contents(), None));
    assert!(matches!(EnumVariantAccessor::Unit.newtype_variant(), Ok(NewtypeContents::Unit)));
    assert!(matches!(
        ValueDeserializer(&num(1)).variant(),
        Err(FromValueError::Expected(ExpectedKind::Enum))
    ));
}

#[derive(Debug, PartialEq, Default)]
struct StructOfEverything {
    str: String,
    bytes: Vec<u8>,
    char: char,
    u8: u8,
    u16: u16,
    u32: u32,
    u64: u64,
    u128: u128,
    usize: usize,
    i8: i8,
    i16: i16,
    i32: i32,
    i64: i64,
    i128: i128,
    isize: isize,
    bool: bool,
}

fn field(map: &mut MapSerializer, name: &str, value: Value) {
    map.serialize_key(Value::String(name.to_string()));
    map.serialize_value(value);
}

/// Builds the value of `v` the way its derived `Serialize` drives the value
/// serializer.
fn everything_value(v: &StructOfEverything) -> Value {
    let mut map = MapSerializer::new(Some("StructOfEverything".to_string()));
    field(&mut map, "str", Value::String(v.str.clone()));
    field(&mut map, "bytes", Value::Bytes(v.bytes.clone()));
    field(&mut map, "char", Value::Char(v.char));
    field(&mut map, "u8", Value::Integer(Integer::from(v.u8)));
    field(&mut map, "u16", Value::Integer(Integer::from(v.u16)));
    field(&mut map, "u32", Value::Integer(Integer::from(v.u32)));
    field(&mut map, "u64", Value::Integer(Integer::from(v.u64)));
    field(&mut map, "u128", ValueSerializer.serialize_u128(v.u128).unwrap());
    field(&mut map, "usize", Value::Integer(Integer::from(v.usize as u64)));
    field(&mut map, "i8", Value::Integer(Integer::from(v.i8)));
    field(&mut map, "i16", Value::Integer(Integer::from(v.i16)));
    field(&mut map, "i32", Value::Integer(Integer::from(v.i32)));
    field(&mut map, "i64", Value::Integer(Integer::from(v.i64)));
    field(&mut map, "i128", ValueSerializer.serialize_i128(v.i128).unwrap());
    field(&mut map, "isize", Value::Integer(Integer::from(v.isize as i64)));
    field(&mut map, "bool", Value::Bool(v.bool));
    map.end()
}

/// Reads a `StructOfEverything` out of `value` the way its derived
/// `Deserialize` drives the value deserializer.
fn everything_from_value(value: &Value) -> StructOfEverything {
    let mut v = StructOfEverything::default();
    for (key, item) in ValueDeserializer(value).deserialize_map().unwrap() {
        let item = ValueDeserializer(item);
        match ValueDeserializer(key).deserialize_str().unwrap() {
            "str" => v.str = item.deserialize_str().unwrap().to_string(),
            "bytes" => v.bytes = item.deserialize_bytes().unwrap().to_vec(),
            "char" => v.char = item.deserialize_char().unwrap(),
            "u8" => v.u8 = item.0.as_u8().unwrap(),
            "u16" => v.u16 = item.0.as_u16().unwrap(),
            "u32" => v.u32 = item.0.as_u32().unwrap(),
            "u64" => v.u64 = item.0.as_u64().unwrap(),
            "u128" => v.u128 = item.0.as_u128().unwrap(),
            "usize" => v.usize = item.0.as_u64().unwrap() as usize,
            "i8" => v.i8 = item.0.as_i8().unwrap(),
            "i16" => v.i16 = item.0.as_i16().unwrap(),
            "i32" => v.i32 = item.0.as_i32().unwrap(),
            "i64" => v.i64 = item.0.as_i64().unwrap(),
            "i128" => v.i128 = item.0.as_i128().unwrap(),
            "isize" => v.isize = item.0.as_i64().unwrap() as isize,
            "bool" => v.bool = item.deserialize_bool().unwrap(),
            other => panic!("unexpected field {other}"),
        }
    }
    v
}

#[test]
fn value_from_serialize() {
    let original = StructOfEverything::default();
    let value = everything_value(&original);
    let from_value = everything_from_value(&value);
    assert_eq!(original, from_value);

    let large = StructOfEverything {
        str: "hello \u{1_F980}".to_string(),
        bytes: b"hello, world".to_vec(),
        char: '\u{1_F980}',
        u8: u8::MAX,
        u16: u16::MAX,
        u32: u32::MAX,
        u64: u64::MAX,
        u128: u128::from(u64::MAX),
        usize: usize::MAX,
        i8: i8::MIN,
        i16: i16::MIN,
        i32: i32::MIN,
        i64: i64::MIN,
        i128: i128::from(i64::MIN),
        isize: isize::MIN,
        bool: true,
    };
    assert_eq!(everything_from_value(&everything_value(&large)), large);
}
