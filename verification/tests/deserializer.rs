use rsn::de::{
    AnyStep, Deserializer, DeserializerError, ElementStep, Error, ErrorKind, OptionStep,
    VariantStep,
};
use rsn::parser::Config;

// These helpers drive the deserializer the way the `Deserialize`
// implementations that serde derives for the types below do.

#[derive(Debug, PartialEq, Eq)]
struct BasicNamed {
    a: u32,
    b: i32,
}

fn missing(field: &str) -> DeserializerError {
    DeserializerError::custom(format!("missing field `{field}`"))
}

fn read_basic_named_fields(de: &mut Deserializer) -> Result<BasicNamed, DeserializerError> {
    let (mut a, mut b) = (None, None);
    while let ElementStep::Next(_) = de.next_element()? {
        match de.next_str()?.as_str() {
            "a" => a = Some(de.next_u32()?),
            "b" => b = Some(de.next_i32()?),
            _ => de.skip_value()?,
        }
    }
    Ok(BasicNamed { a: a.ok_or_else(|| missing("a"))?, b: b.ok_or_else(|| missing("b"))? })
}

fn read_basic_named(de: &mut Deserializer) -> Result<BasicNamed, DeserializerError> {
    de.begin_struct("BasicNamed")?;
    read_basic_named_fields(de)
}

fn read_all<T>(
    source: &str,
    config: Config,
    read: impl FnOnce(&mut Deserializer) -> Result<T, DeserializerError>,
) -> Result<T, Error> {
    let mut de = Deserializer::new(source, config);
    let value = match read(&mut de) {
        Ok(value) => value,
        Err(err) => return Err(de.finish_error(err)),
    };
    de.ensure_eof()?;
    Ok(value)
}

fn read_option<T>(
    de: &mut Deserializer,
    read: impl FnOnce(&mut Deserializer) -> Result<T, DeserializerError>,
) -> Result<Option<T>, DeserializerError> {
    match de.option_step()? {
        OptionStep::Absent => Ok(None),
        OptionStep::Present => {
            let value = read(de)?;
            de.finish_some()?;
            Ok(Some(value))
        }
        OptionStep::Inline => Ok(Some(read(de)?)),
    }
}

#[test]
fn basic_named() {
    let parsed = read_all(r#"BasicNamed{ a: 1, b: -1 }"#, Config::default(), read_basic_named).unwrap();
    assert_eq!(parsed, BasicNamed { a: 1, b: -1 });
}

#[test]
fn implicit_map() {
    let config = Config::default().allow_implicit_map_at_root(true);
    let parsed = read_all(r#"a: 1 b: -1"#, config, read_basic_named).unwrap();
    assert_eq!(parsed, BasicNamed { a: 1, b: -1 });
    let parsed = read_all(r#"a: 1, b: -1,"#, config, read_basic_named).unwrap();
    assert_eq!(parsed, BasicNamed { a: 1, b: -1 });
}

#[test]
fn optional() {
    let read = |de: &mut Deserializer| read_option(de, read_basic_named);
    assert_eq!(read_all(r#"None"#, Config::default(), read).unwrap(), None);

    let parsed = read_all(r#"Some(BasicNamed{ a: 1, b: -1 })"#, Config::default(), read).unwrap();
    assert_eq!(parsed, Some(BasicNamed { a: 1, b: -1 }));

    let parsed = read_all(r#"BasicNamed{ a: 1, b: -1 }"#, Config::default(), read).unwrap();
    assert_eq!(parsed, Some(BasicNamed { a: 1, b: -1 }));
}

/// `#[serde(untagged)] enum Untagged { A(u64) }`: the value is read as a
/// self-describing value and then matched against the variants.
fn read_untagged_a(de: &mut Deserializer) -> Result<u64, DeserializerError> {
    match de.any_step()? {
        AnyStep::Integer(value) => value
            .as_u64()
            .ok_or_else(|| DeserializerError::custom("data did not match any variant of untagged enum Untagged".to_string())),
        _ => Err(DeserializerError::custom(
            "data did not match any variant of untagged enum Untagged".to_string(),
        )),
    }
}

#[test]
fn error_locality() {
    let source = r#"[1, "hello"]"#;
    let err = read_all(source, Config::default(), |de| {
        de.begin_seq()?;
        let mut items = Vec::new();
        while let ElementStep::Next(start) = de.next_element()? {
            let item = read_untagged_a(de);
            let item = match start {
                Some(start) => de.with_error_start(start, item),
                None => item,
            };
            items.push(item?);
        }
        Ok(items)
    })
    .unwrap_err();
    assert_eq!(&source[err.location], r#""hello""#);
}

#[derive(Debug, PartialEq, Eq)]
enum BasicEnums {
    Unit,
    NewType(u32),
    Struct { a: u32 },
    Tuple(u32, u32),
}

/// Reads the items of a tuple variant of `len` items, then drops the rest
/// of the tuple as the sequence access does.
fn read_tuple_items<T>(
    de: &mut Deserializer,
    len: usize,
    mut read: impl FnMut(&mut Deserializer) -> Result<T, DeserializerError>,
) -> Result<Vec<T>, DeserializerError> {
    let mut items = Vec::new();
    let mut ended = false;
    while items.len() < len {
        match de.next_element()? {
            ElementStep::End => {
                ended = true;
                break;
            }
            ElementStep::Next(_) => items.push(read(de)?),
        }
    }
    if !ended {
        de.skip_sequence_rest();
    }
    if items.len() < len {
        return Err(DeserializerError::custom(format!("invalid length {}", items.len())));
    }
    Ok(items)
}

fn read_basic_enum(de: &mut Deserializer) -> Result<BasicEnums, DeserializerError> {
    let name = match de.variant_step()? {
        VariantStep::Unit => de.next_str()?,
        VariantStep::Nested(name) => name,
    };
    match name.as_str() {
        "Unit" => Ok(BasicEnums::Unit),
        "NewType" => {
            let modification = de.begin_newtype_variant();
            let value = de.next_u32()?;
            de.end_newtype_variant(modification);
            Ok(BasicEnums::NewType(value))
        }
        "Struct" => {
            de.begin_variant_contents()?;
            let mut a = None;
            while let ElementStep::Next(_) = de.next_element()? {
                match de.next_str()?.as_str() {
                    "a" => a = Some(de.next_u32()?),
                    _ => de.skip_value()?,
                }
            }
            Ok(BasicEnums::Struct { a: a.ok_or_else(|| missing("a"))? })
        }
        "Tuple" => {
            de.begin_variant_contents()?;
            let items = read_tuple_items(de, 2, |de| de.next_u32())?;
            Ok(BasicEnums::Tuple(items[0], items[1]))
        }
        other => Err(DeserializerError::custom(format!("unknown variant `{other}`"))),
    }
}

#[test]
fn enums() {
    let read = |source: &str| read_all(source, Config::default(), read_basic_enum).unwrap();
    assert_eq!(read(r#"Unit"#), BasicEnums::Unit);
    assert_eq!(read(r#"NewType(1)"#), BasicEnums::NewType(1));
    assert_eq!(read(r#"Struct{ a: 1}"#), BasicEnums::Struct { a: 1 });
    assert_eq!(read(r#"Tuple(1,2)"#), BasicEnums::Tuple(1, 2));
    assert_eq!(read(r#"Tuple(1,2,3)"#), BasicEnums::Tuple(1, 2));
}

#[derive(Debug, PartialEq, Eq)]
struct SimpleStruct {
    a: u64,
}

#[derive(Debug, PartialEq, Eq)]
struct SimpleTuple(u64, bool);

#[derive(Debug, PartialEq, Eq)]
struct NewtypeBool(bool);

#[derive(Debug, PartialEq, Eq)]
struct UnitStruct;

#[derive(Debug, PartialEq, Eq)]
enum UntaggedEnum {
    Simple(SimpleStruct),
    NewtypeBool(NewtypeBool),
    Unit(UnitStruct),
}

/// `#[serde(untagged)]`: the value is read as a self-describing value and
/// matched against the variants in order.
fn read_untagged(de: &mut Deserializer) -> Result<UntaggedEnum, DeserializerError> {
    match de.any_step()? {
        AnyStep::Unit => Ok(UntaggedEnum::Unit(UnitStruct)),
        AnyStep::Bool(value) => Ok(UntaggedEnum::NewtypeBool(NewtypeBool(value))),
        AnyStep::Mapping => {
            let mut a = None;
            while let ElementStep::Next(_) = de.next_element()? {
                match de.any_step()? {
                    AnyStep::Identifier(key) | AnyStep::String(key) if key == "a" => match de.any_step()? {
                        AnyStep::Integer(value) => a = value.as_u64(),
                        _ => return Err(DeserializerError::custom("invalid a".to_string())),
                    },
                    _ => de.skip_value()?,
                }
            }
            match a {
                Some(a) => Ok(UntaggedEnum::Simple(SimpleStruct { a })),
                None => Err(missing("a")),
            }
        }
        _ => Err(DeserializerError::custom(
            "data did not match any variant of untagged enum UntaggedEnum".to_string(),
        )),
    }
}

#[test]
fn deserialize_any() {
    let read = |source: &str| read_all(source, Config::default(), read_untagged).unwrap();
    assert_eq!(read("()"), UntaggedEnum::Unit(UnitStruct));
    assert_eq!(read("true"), UntaggedEnum::NewtypeBool(NewtypeBool(true)));
    assert_eq!(read("{a:0}"), UntaggedEnum::Simple(SimpleStruct { a: 0 }));
    assert_eq!(read("C{a:0}"), UntaggedEnum::Simple(SimpleStruct { a: 0 }));

    let read_optional = |source: &str| {
        read_all(source, Config::default(), |de| read_option(de, read_untagged)).unwrap()
    };
    assert_eq!(read_optional("None"), None);
    assert_eq!(read_optional("Some(())"), Some(UntaggedEnum::Unit(UnitStruct)));
}

#[derive(Debug, PartialEq, Eq)]
enum TaggedEnum {
    Tuple(bool, bool),
    Struct { a: u64 },
    NewtypeStruct(SimpleStruct),
    NewtypeTuple(SimpleTuple),
    NewtypeBool(bool),
    Unit,
}

fn read_simple_struct(de: &mut Deserializer) -> Result<SimpleStruct, DeserializerError> {
    de.begin_struct("SimpleStruct")?;
    let mut a = None;
    while let ElementStep::Next(_) = de.next_element()? {
        match de.next_str()?.as_str() {
            "a" => a = Some(de.next_u64()?),
            _ => de.skip_value()?,
        }
    }
    Ok(SimpleStruct { a: a.ok_or_else(|| missing("a"))? })
}

fn read_simple_tuple(de: &mut Deserializer) -> Result<SimpleTuple, DeserializerError> {
    de.begin_tuple_struct("SimpleTuple")?;
    let mut first = None;
    let mut second = None;
    let mut ended = false;
    for index in 0..2 {
        match de.next_element()? {
            ElementStep::End => {
                ended = true;
                break;
            }
            ElementStep::Next(_) => {
                if index == 0 {
                    first = Some(de.next_u64()?);
                } else {
                    second = Some(de.next_bool()?);
                }
            }
        }
    }
    if !ended {
        de.skip_sequence_rest();
    }
    match (first, second) {
        (Some(first), Some(second)) => Ok(SimpleTuple(first, second)),
        _ => Err(DeserializerError::custom("invalid length".to_string())),
    }
}

fn read_tagged(de: &mut Deserializer) -> Result<TaggedEnum, DeserializerError> {
    let name = match de.variant_step()? {
        VariantStep::Unit => de.next_str()?,
        VariantStep::Nested(name) => name,
    };
    match name.as_str() {
        "Tuple" => {
            de.begin_variant_contents()?;
            let items = read_tuple_items(de, 2, |de| de.next_bool())?;
            Ok(TaggedEnum::Tuple(items[0], items[1]))
        }
        "Struct" => {
            de.begin_variant_contents()?;
            let mut a = None;
            while let ElementStep::Next(_) = de.next_element()? {
                match de.next_str()?.as_str() {
                    "a" => a = Some(de.next_u64()?),
                    _ => de.skip_value()?,
                }
            }
            Ok(TaggedEnum::Struct { a: a.ok_or_else(|| missing("a"))? })
        }
        "NewtypeStruct" => {
            let modification = de.begin_newtype_variant();
            let value = read_simple_struct(de)?;
            de.end_newtype_variant(modification);
            Ok(TaggedEnum::NewtypeStruct(value))
        }
        "NewtypeTuple" => {
            let modification = de.begin_newtype_variant();
            let value = read_simple_tuple(de)?;
            de.end_newtype_variant(modification);
            Ok(TaggedEnum::NewtypeTuple(value))
        }
        "NewtypeBool" => {
            let modification = de.begin_newtype_variant();
            let value = de.next_bool()?;
            de.end_newtype_variant(modification);
            Ok(TaggedEnum::NewtypeBool(value))
        }
        "Unit" => Ok(TaggedEnum::Unit),
        other => Err(DeserializerError::custom(format!("unknown variant `{other}`"))),
    }
}

#[test]
fn deserialize_tagged() {
    let read = |source: &str| read_all(source, Config::default(), read_tagged).unwrap();
    assert_eq!(read("Tuple (true, false)"), TaggedEnum::Tuple(true, false));
    assert_eq!(read("Struct {a: 1}"), TaggedEnum::Struct { a: 1 });
    assert_eq!(read("NewtypeStruct {a: 1}"), TaggedEnum::NewtypeStruct(SimpleStruct { a: 1 }));
    assert_eq!(read("NewtypeStruct({a: 1})"), TaggedEnum::NewtypeStruct(SimpleStruct { a: 1 }));
    assert_eq!(read("NewtypeTuple(1, false)"), TaggedEnum::NewtypeTuple(SimpleTuple(1, false)));
    assert_eq!(read("NewtypeTuple((1, false))"), TaggedEnum::NewtypeTuple(SimpleTuple(1, false)));
    assert_eq!(read("NewtypeBool(true)"), TaggedEnum::NewtypeBool(true));
    assert_eq!(read("Unit"), TaggedEnum::Unit);
}

#[test]
fn deserializer_errors() {
    let err = read_all("BasicNamed{ a: 1, b: true }", Config::default(), read_basic_named).unwrap_err();
    assert_eq!(err.kind, ErrorKind::ExpectedInteger);
    assert_eq!(err.location, 21..25);
    let err = read_all("Other{ a: 1, b: 2 }", Config::default(), read_basic_named).unwrap_err();
    assert_eq!(err.kind, ErrorKind::NameMismatch("BasicNamed".to_string()));
    let err = read_all("[1]", Config::default(), read_basic_named).unwrap_err();
    assert_eq!(err.kind, ErrorKind::ExpectedMapStruct);
    let err = read_all("300", Config::default(), |de| de.next_u8()).unwrap_err();
    assert_eq!(
        err.kind,
        ErrorKind::Parser(rsn::parser::ErrorKind::Tokenizer(rsn::tokenizer::ErrorKind::IntegerTooLarge))
    );
    assert_eq!(err.location, 0..3);
    let err = read_all("1 2", Config::default(), |de| de.next_u8()).unwrap_err();
    assert_eq!(err.kind, ErrorKind::Parser(rsn::parser::ErrorKind::TrailingData));
    let err = read_all("Some(1, 2)", Config::default(), |de| read_option(de, |de| de.next_u8())).unwrap_err();
    assert_eq!(err.kind, ErrorKind::SomeCanOnlyContainOneValue);
    let err = read_all("", Config::default(), |de| de.option_step()).unwrap_err();
    assert_eq!(err.kind, ErrorKind::ExpectedOption);
    let err = read_all("1", Config::default(), |de| de.handle_unit()).unwrap_err();
    assert_eq!(err.kind, ErrorKind::ExpectedUnit);
    let err = read_all("b\"\\xff\"", Config::default(), |de| de.next_str()).unwrap_err();
    assert_eq!(err.kind, ErrorKind::InvalidUtf8);
    let err = read_all("1", Config::default(), |de| de.variant_step()).unwrap_err();
    assert_eq!(err.kind, ErrorKind::ExpectedEnum);
    let err = read_all("'c'", Config::default(), |de| de.next_bool()).unwrap_err();
    assert_eq!(err.kind, ErrorKind::ExpectedInteger);
    let err = read_all("true", Config::default(), |de| de.next_char()).unwrap_err();
    assert_eq!(err.kind, ErrorKind::ExpectedChar);
    let err = read_all("true", Config::default(), |de| de.next_float()).unwrap_err();
    assert_eq!(err.kind, ErrorKind::ExpectedFloat);
    let err = read_all("true", Config::default(), |de| de.next_bytes()).unwrap_err();
    assert_eq!(err.kind, ErrorKind::ExpectedBytes);
    let err = read_all("true", Config::default(), |de| de.begin_seq()).unwrap_err();
    assert_eq!(err.kind, ErrorKind::ExpectedSequence);
    let err = read_all("[]", Config::default(), |de| de.begin_map()).unwrap_err();
    assert_eq!(err.kind, ErrorKind::ExpectedMap);
    let err = read_all("{}", Config::default(), |de| de.begin_tuple_struct("T")).unwrap_err();
    assert_eq!(err.kind, ErrorKind::ExpectedTupleStruct);
}

#[test]
fn primitives_and_units() {
    assert_eq!(read_all("( (1), [] )", Config::default(), |de| de.handle_unit()), Ok(()));
    assert_eq!(read_all("5", Config::default(), |de| de.next_bool()), Ok(true));
    assert_eq!(read_all("0", Config::default(), |de| de.next_bool()), Ok(false));
    assert_eq!(
        read_all("1.5", Config::default(), |de| de.next_float()),
        Ok(rsn::de::FloatSource::Text("1.5".to_string()))
    );
    assert_eq!(read_all("r#ident", Config::default(), |de| de.next_str()), Ok("ident".to_string()));
    assert_eq!(read_all("b\"ok\"", Config::default(), |de| de.next_str()), Ok("ok".to_string()));
    assert_eq!(read_all("-128", Config::default(), |de| de.next_i8()), Ok(-128));
    assert_eq!(read_all("65535", Config::default(), |de| de.next_u16()), Ok(65535));
    assert_eq!(read_all("-1", Config::default(), |de| de.next_i16()), Ok(-1));
    assert_eq!(read_all("4294967295", Config::default(), |de| de.next_u32()), Ok(u32::MAX));
    assert_eq!(read_all("-9223372036854775808", Config::default(), |de| de.next_i64()), Ok(i64::MIN));
    assert_eq!(read_all("-1", Config::default(), |de| de.next_i128()), Ok(-1));
    assert_eq!(read_all("7", Config::default(), |de| de.next_u128()), Ok(7));
    assert_eq!(read_all("-1", Config::default(), |de| de.next_u128()).unwrap_err().location, 0..2);
    assert_eq!(
        read_all("[1, [2, 3], {a: 4}] ", Config::default(), |de| de.skip_value()),
        Ok(())
    );
    assert_eq!(read_all("r#None", Config::default(), |de| de.any_step()), Ok(AnyStep::Identifier("None".to_string())));
    assert_eq!(read_all("None", Config::default(), |de| de.any_step()), Ok(AnyStep::Absent));
    assert_eq!(read_all("[]", Config::default(), |de| de.any_step()), Ok(AnyStep::Unit));
}

#[test]
fn invalid_utf8_slices() {
    assert_eq!(rsn::de::source_from_slice(b"abc"), Ok("abc"));
    let err = rsn::de::source_from_slice(b"ab\xffcd").unwrap_err();
    assert_eq!(err, Error::new(3..3, ErrorKind::InvalidUtf8));
    let err = rsn::de::source_from_slice(b"ab\xe2\x82").unwrap_err();
    assert_eq!(err, Error::new(3..4, ErrorKind::InvalidUtf8));
    let err = rsn::de::source_from_slice(b"a\xe2\x82z").unwrap_err();
    assert_eq!(err, Error::new(2..3, ErrorKind::InvalidUtf8));

    let failure = rsn::text::Utf8Failure { valid_up_to: 2, error_len: Some(1) };
    assert_eq!(rsn::de::invalid_utf8_error(&failure, 5), Error::new(3..3, ErrorKind::InvalidUtf8));
    let failure = rsn::text::Utf8Failure { valid_up_to: 2, error_len: None };
    assert_eq!(rsn::de::invalid_utf8_error(&failure, 4), Error::new(3..4, ErrorKind::InvalidUtf8));
}

#[test]
fn trailing_comment_is_not_trailing_data() {
    assert_eq!(read_all("1 // one", Config::default(), |de| de.next_u32()), Ok(1));
    assert_eq!(read_all("1 /* one */", Config::default(), |de| de.next_u32()), Ok(1));
    let err = read_all("1 2", Config::default(), |de| de.next_u32()).unwrap_err();
    assert_eq!(err.location, 2..3);
    assert_eq!(err.kind, ErrorKind::Parser(rsn::parser::ErrorKind::TrailingData));
}
