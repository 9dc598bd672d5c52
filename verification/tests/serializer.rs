use rsn::ser::{Config, Serializer};
use rsn::de::{BytesSource, Deserializer, ElementStep};
use rsn::writer::Primitive;

/// Writes `BasicNamed { a: 1, b: -1 }` the way its derived `Serialize` drives
/// a serializer.
fn write_basic_named(serializer: &mut Serializer, a: u32, b: i32) {
    let implicit = serializer.begin_struct("BasicNamed");
    serializer.begin_struct_field("a", implicit);
    serializer.serialize_primitive(&a);
    serializer.end_struct_field(implicit);
    serializer.begin_struct_field("b", implicit);
    serializer.serialize_primitive(&b);
    serializer.end_struct_field(implicit);
    serializer.end_struct(implicit);
}

#[test]
fn serialization_test() {
    let mut serializer = Serializer::new(String::new(), &Config::default());
    write_basic_named(&mut serializer, 1, -1);
    let rendered = serializer.finish();
    assert_eq!(rendered, r#"BasicNamed{a:1,b:-1}"#);
}

#[test]
fn implicit_btree_map() {
    let entries = [("Hello", 1_i32), ("World", 2)];
    let mut serializer = Serializer::new(String::new(), &Config::pretty().implicit_map_at_root(true));
    let implicit = serializer.begin_map();
    assert!(implicit);
    for (key, value) in entries {
        serializer.serialize_primitive(key);
        serializer.begin_map_value(implicit);
        serializer.serialize_primitive(&value);
        serializer.end_map_value(implicit);
    }
    serializer.end_struct(implicit);
    let rendered = serializer.finish();
    assert_eq!(rendered, "\"Hello\": 1\n\"World\": 2\n");

    let mut de = rsn::de::Deserializer::new(
        &rendered,
        rsn::parser::Config::default().allow_implicit_map_at_root(true),
    );
    de.begin_map().unwrap();
    let mut restored = Vec::new();
    while let rsn::de::ElementStep::Next(_) = de.next_element().unwrap() {
        let key = de.next_str().unwrap();
        let value = de.next_i32().unwrap();
        restored.push((key, value));
    }
    de.ensure_eof().unwrap();
    assert_eq!(restored, vec![("Hello".to_string(), 1), ("World".to_string(), 2)]);
}

#[test]
fn pretty_and_implicit_structures() {
    let mut serializer = Serializer::new(String::new(), &Config::pretty());
    write_basic_named(&mut serializer, 1, -1);
    assert_eq!(serializer.finish(), "BasicNamed {\n  a: 1,\n  b: -1\n}");

    let mut serializer = Serializer::new(String::new(), &Config::pretty().implicit_map_at_root(true));
    write_basic_named(&mut serializer, 1, -1);
    assert_eq!(serializer.finish(), "a: 1\nb: -1\n");
}

#[test]
fn options_units_and_variants() {
    let mut serializer = Serializer::default();
    serializer.begin_list();
    serializer.serialize_raw("None");
    serializer.begin_named_tuple("Some");
    serializer.serialize_primitive(&'x');
    serializer.finish_nested();
    serializer.serialize_raw("()");
    serializer.begin_tuple();
    serializer.serialize_primitive(&true);
    serializer.serialize_primitive(&b"\x01"[..]);
    serializer.finish_nested();
    serializer.begin_struct_variant("Variant");
    serializer.begin_struct_field("x", false);
    serializer.serialize_primitive(&2_u8);
    serializer.end_struct_field(false);
    serializer.finish_nested();
    let implicit = serializer.begin_map();
    assert!(!implicit);
    serializer.serialize_primitive("k");
    serializer.begin_map_value(implicit);
    serializer.serialize_primitive(&0_u64);
    serializer.end_map_value(implicit);
    serializer.end_struct(implicit);
    serializer.finish_nested();
    assert_eq!(
        serializer.finish(),
        "[None,Some('x'),(),(true,b\"\\x01\"),Variant{x:2},{\"k\":0}]"
    );
}

#[derive(Debug, PartialEq, Default)]
struct StructOfEverything {
    str: String,
    bytes: Vec<u8>,
    char: char,
    u8: u8,
    u16: u16,
    u32: u32,
    u64: u64,
    u128: u128,
    usize: usize,
    i8: i8,
    i16: i16,
    i32: i32,
    i64: i64,
    i128: i128,
    isize: isize,
    bool: bool,
}

impl StructOfEverything {
    fn min() -> Self {
        Self {
            str: "\0".to_string(),
            bytes: vec![0],
            char: '\0',
            u8: 0,
            u16: 0,
            u32: 0,
            u64: 0,
            u128: 0,
            usize: 0,
            i8: i8::MIN,
            i16: i16::MIN,
            i32: i32::MIN,
            i64: i64::MIN,
            i128: i128::from(i64::MIN),
            isize: isize::MIN,
            bool: false,
        }
    }

    fn max() -> Self {
        Self {
            str: "hello \u{1_F980}".to_string(),
            bytes: b"hello, world".to_vec(),
            char: '\u{1_F980}',
            u8: u8::MAX,
            u16: u16::MAX,
            u32: u32::MAX,
            u64: u64::MAX,
            u128: u128::from(u64::MAX),
            usize: usize::MAX,
            i8: i8::MAX,
            i16: i16::MAX,
            i32: i32::MAX,
            i64: i64::MAX,
            i128: i128::from(i64::MAX),
            isize: isize::MAX,
            bool: true,
        }
    }
}

/// Writes one field of a structure, as `SerializeStruct::serialize_field` does.
fn field<P: Primitive + ?Sized>(serializer: &mut Serializer, name: &str, implicit: bool, value: &P) {
    serializer.begin_struct_field(name, implicit);
    serializer.serialize_primitive(value);
    serializer.end_struct_field(implicit);
}

/// Writes `value` the way its derived `Serialize` drives a serializer.
fn write_everything(serializer: &mut Serializer, value: &StructOfEverything) {
    let implicit = serializer.begin_struct("StructOfEverything");
    field(serializer, "str", implicit, value.str.as_str());
    field(serializer, "bytes", implicit, value.bytes.as_slice());
    field(serializer, "char", implicit, &value.char);
    field(serializer, "u8", implicit, &value.u8);
    field(serializer, "u16", implicit, &value.u16);
    field(serializer, "u32", implicit, &value.u32);
    field(serializer, "u64", implicit, &value.u64);
    field(serializer, "u128", implicit, &value.u128);
    field(serializer, "usize", implicit, &value.usize);
    field(serializer, "i8", implicit, &value.i8);
    field(serializer, "i16", implicit, &value.i16);
    field(serializer, "i32", implicit, &value.i32);
    field(serializer, "i64", implicit, &value.i64);
    field(serializer, "i128", implicit, &value.i128);
    field(serializer, "isize", implicit, &value.isize);
    field(serializer, "bool", implicit, &value.bool);
    serializer.end_struct(implicit);
}

/// Reads a `StructOfEverything` the way its derived `Deserialize` drives a
/// deserializer.
fn read_everything(source: &str, config: rsn::parser::Config) -> StructOfEverything {
    let mut de = Deserializer::new(source, config);
    de.begin_struct("StructOfEverything").unwrap();
    let mut value = StructOfEverything::default();
    while let ElementStep::Next(_) = de.next_element().unwrap() {
        match de.next_str().unwrap().as_str() {
            "str" => value.str = de.next_str().unwrap(),
            "bytes" => {
                value.bytes = match de.next_bytes().unwrap() {
                    BytesSource::Text(text) => text.into_bytes(),
                    BytesSource::Bytes(bytes) => bytes,
                }
            }
            "char" => value.char = de.next_char().unwrap(),
            "u8" => value.u8 = de.next_u8().unwrap(),
            "u16" => value.u16 = de.next_u16().unwrap(),
            "u32" => value.u32 = de.next_u32().unwrap(),
            "u64" => value.u64 = de.next_u64().unwrap(),
            "u128" => value.u128 = de.next_u128().unwrap(),
            "usize" => value.usize = de.next_u64().unwrap() as usize,
            "i8" => value.i8 = de.next_i8().unwrap(),
            "i16" => value.i16 = de.next_i16().unwrap(),
            "i32" => value.i32 = de.next_i32().unwrap(),
            "i64" => value.i64 = de.next_i64().unwrap(),
            "i128" => value.i128 = de.next_i128().unwrap(),
            "isize" => value.isize = de.next_i64().unwrap() as isize,
            "bool" => value.bool = de.next_bool().unwrap(),
            other => panic!("unexpected field {other}"),
        }
    }
    de.ensure_eof().unwrap();
    value
}

fn roundtrip_with(value: &StructOfEverything, config: &Config, parse: rsn::parser::Config, check: &str) {
    let mut serializer = Serializer::new(String::new(), config);
    write_everything(&mut serializer, value);
    let rendered = serializer.finish();
    assert_eq!(rendered, check);
    assert_eq!(&read_everything(&rendered, parse), value);
}

#[test]
fn struct_of_everything() {
    let roundtrip = |value: &StructOfEverything, check: &str| {
        roundtrip_with(value, &Config::default(), rsn::parser::Config::default(), check)
    };
    roundtrip(&StructOfEverything::default(), "StructOfEverything{str:\"\",bytes:b\"\",char:'\\0',u8:0,u16:0,u32:0,u64:0,u128:0,usize:0,i8:0,i16:0,i32:0,i64:0,i128:0,isize:0,bool:false}");
    roundtrip(&StructOfEverything::min(), "StructOfEverything{str:\"\\0\",bytes:b\"\\0\",char:'\\0',u8:0,u16:0,u32:0,u64:0,u128:0,usize:0,i8:-128,i16:-32768,i32:-2147483648,i64:-9223372036854775808,i128:-9223372036854775808,isize:-9223372036854775808,bool:false}");
    roundtrip(&StructOfEverything::max(), "StructOfEverything{str:\"hello 🦀\",bytes:b\"hello, world\",char:'🦀',u8:255,u16:65535,u32:4294967295,u64:18446744073709551615,u128:18446744073709551615,usize:18446744073709551615,i8:127,i16:32767,i32:2147483647,i64:9223372036854775807,i128:9223372036854775807,isize:9223372036854775807,bool:true}");
}

#[test]
fn struct_of_everything_pretty() {
    let roundtrip = |value: &StructOfEverything, check: &str| {
        roundtrip_with(value, &Config::pretty(), rsn::parser::Config::default(), check)
    };
    roundtrip(&StructOfEverything::default(), "StructOfEverything {\n  str: \"\",\n  bytes: b\"\",\n  char: '\\0',\n  u8: 0,\n  u16: 0,\n  u32: 0,\n  u64: 0,\n  u128: 0,\n  usize: 0,\n  i8: 0,\n  i16: 0,\n  i32: 0,\n  i64: 0,\n  i128: 0,\n  isize: 0,\n  bool: false\n}");
    roundtrip(&StructOfEverything::min(), "StructOfEverything {\n  str: \"\\0\",\n  bytes: b\"\\0\",\n  char: '\\0',\n  u8: 0,\n  u16: 0,\n  u32: 0,\n  u64: 0,\n  u128: 0,\n  usize: 0,\n  i8: -128,\n  i16: -32768,\n  i32: -2147483648,\n  i64: -9223372036854775808,\n  i128: -9223372036854775808,\n  isize: -9223372036854775808,\n  bool: false\n}");
    roundtrip(&StructOfEverything::max(), "StructOfEverything {\n  str: \"hello 🦀\",\n  bytes: b\"hello, world\",\n  char: '🦀',\n  u8: 255,\n  u16: 65535,\n  u32: 4294967295,\n  u64: 18446744073709551615,\n  u128: 18446744073709551615,\n  usize: 18446744073709551615,\n  i8: 127,\n  i16: 32767,\n  i32: 2147483647,\n  i64: 9223372036854775807,\n  i128: 9223372036854775807,\n  isize: 9223372036854775807,\n  bool: true\n}");
}

#[test]
fn struct_of_everything_implicit() {
    let roundtrip = |value: &StructOfEverything, check: &str| {
        roundtrip_with(
            value,
            &Config::pretty().implicit_map_at_root(true),
            rsn::parser::Config::default().allow_implicit_map_at_root(true),
            check,
        )
    };
    roundtrip(&StructOfEverything::default(), "str: \"\"\nbytes: b\"\"\nchar: '\\0'\nu8: 0\nu16: 0\nu32: 0\nu64: 0\nu128: 0\nusize: 0\ni8: 0\ni16: 0\ni32: 0\ni64: 0\ni128: 0\nisize: 0\nbool: false\n");
    roundtrip(&StructOfEverything::min(), "str: \"\\0\"\nbytes: b\"\\0\"\nchar: '\\0'\nu8: 0\nu16: 0\nu32: 0\nu64: 0\nu128: 0\nusize: 0\ni8: -128\ni16: -32768\ni32: -2147483648\ni64: -9223372036854775808\ni128: -9223372036854775808\nisize: -9223372036854775808\nbool: false\n");
    roundtrip(&StructOfEverything::max(), "str: \"hello 🦀\"\nbytes: b\"hello, world\"\nchar: '🦀'\nu8: 255\nu16: 65535\nu32: 4294967295\nu64: 18446744073709551615\nu128: 18446744073709551615\nusize: 18446744073709551615\ni8: 127\ni16: 32767\ni32: 2147483647\ni64: 9223372036854775807\ni128: 9223372036854775807\nisize: 9223372036854775807\nbool: true\n");
}

#[test]
fn struct_variant_is_not_an_implicit_root() {
    let mut serializer = Serializer::new(String::new(), &Config::default().implicit_map_at_root(true));
    serializer.begin_struct_variant("V");
    serializer.begin_struct_field("a", false);
    let implicit = serializer.begin_struct("S");
    assert!(!implicit);
    serializer.begin_struct_field("x", implicit);
    serializer.serialize_primitive(&1_u32);
    serializer.end_struct_field(implicit);
    serializer.end_struct(implicit);
    serializer.end_struct_field(false);
    serializer.finish_nested();
    assert_eq!(serializer.finish(), "V{a:S{x:1}}");
}
