use core::num::TryFromIntError;

use vstd::prelude::*;

use crate::parser::Nested;
use crate::text::{push_str, same_text, str_from_utf8};
use crate::tokenizer::Integer;
use crate::value::{List, Mapping, Named, StructContents, Value};

verus! {

/// The kinds of data that a value may be expected to hold.
#[derive(Debug, Clone, Copy, PartialEq, Eq, Structural)]
pub enum ExpectedKind {
    I8,
    I16,
    I32,
    I64,
    I128,
    U8,
    U16,
    U32,
    U64,
    U128,
    Bool,
    Char,
    String,
    Bytes,
    Float,
    Enum,
    Mapping,
    Sequence,
    Unit,
    Newtype,
}

impl ExpectedKind {
    /// How this kind reads in a message.
    pub open spec fn text(self) -> Seq<char> {
        match self {
            ExpectedKind::I8 => "i8"@,
            ExpectedKind::I16 => "i16"@,
            ExpectedKind::I32 => "i32"@,
            ExpectedKind::I64 => "i64"@,
            ExpectedKind::I128 => "i128"@,
            ExpectedKind::U8 => "u8"@,
            ExpectedKind::U16 => "u16"@,
            ExpectedKind::U32 => "u32"@,
            ExpectedKind::U64 => "u64"@,
            ExpectedKind::U128 => "u128"@,
            ExpectedKind::Bool => "bool"@,
            ExpectedKind::Char => "char"@,
            ExpectedKind::String => "String"@,
            ExpectedKind::Bytes => "Bytes"@,
            ExpectedKind::Float => "Float"@,
            ExpectedKind::Enum => "Enum"@,
            ExpectedKind::Mapping => "Map"@,
            ExpectedKind::Sequence => "Sequence"@,
            ExpectedKind::Unit => "()"@,
            ExpectedKind::Newtype => "Newtype"@,
        }
    }

    /// The name of this kind, for messages.
    pub fn name(&self) -> (name: &'static str)
        ensures
            name@ == self.text(),
    {
        match self {
            ExpectedKind::I8 => "i8",
            ExpectedKind::I16 => "i16",
            ExpectedKind::I32 => "i32",
            ExpectedKind::I64 => "i64",
            ExpectedKind::I128 => "i128",
            ExpectedKind::U8 => "u8",
            ExpectedKind::U16 => "u16",
            ExpectedKind::U32 => "u32",
            ExpectedKind::U64 => "u64",
            ExpectedKind::U128 => "u128",
            ExpectedKind::Bool => "bool",
            ExpectedKind::Char => "char",
            ExpectedKind::String => "String",
            ExpectedKind::Bytes => "Bytes",
            ExpectedKind::Float => "Float",
            ExpectedKind::Enum => "Enum",
            ExpectedKind::Mapping => "Map",
            ExpectedKind::Sequence => "Sequence",
            ExpectedKind::Unit => "()",
            ExpectedKind::Newtype => "Newtype",
        }
    }
}

/// An error from deserializing from a [`Value`](crate::value::Value).
#[derive(Debug, PartialEq)]
pub enum FromValueError {
    /// A message from the type being deserialized.
    Message(String),
    /// Expected a kind of data, but encountered another kind.
    Expected(ExpectedKind),
    /// A byte string that had to be read as text was not valid UTF-8.
    InvalidUtf8,
}

impl FromValueError {
    /// How this error reads in a message.
    pub open spec fn text(self) -> Seq<char> {
        match self {
            FromValueError::Message(message) => message@,
            FromValueError::Expected(kind) => "expected "@ + kind.text(),
            FromValueError::InvalidUtf8 => "invalid utf8 when interpreting bytes as a string"@,
        }
    }

    /// A description of this error.
    pub fn message(&self) -> (message: String)
        ensures
            message@ == self.text(),
    {
        match self {
            FromValueError::Message(message) => message.clone(),
            FromValueError::Expected(kind) => {
                let mut s = "expected ".to_owned();
                push_str(&mut s, kind.name());
                s
            },
            FromValueError::InvalidUtf8 => "invalid utf8 when interpreting bytes as a string".to_owned(),
        }
    }
}

/// An error from serializing to a [`Value`](crate::value::Value).
#[derive(Debug, PartialEq)]
pub enum ToValueError {
    /// A message from the type being serialized.
    Message(String),
    /// An integer was too large to represent.
    IntegerTooLarge(TryFromIntError),
}

} // verus!

verus! {

/// The text of a conversion error (`TryFromIntError`'s `Display`), which its
/// documentation does not give.
#[verifier::external_body]
fn int_error_text(err: &TryFromIntError) -> String {
    err.to_string()
}

impl ToValueError {
    /// A description of this error: a message as it is; for an integer that
    /// was too large, the text of the conversion error.
    pub fn message(&self) -> (message: String)
        ensures
            self matches ToValueError::Message(m) ==> message@ == m@,
    {
        match self {
            ToValueError::Message(message) => message.clone(),
            ToValueError::IntegerTooLarge(err) => int_error_text(err),
        }
    }
}

impl From<TryFromIntError> for ToValueError {
    fn from(err: TryFromIntError) -> (e: Self) {
        ToValueError::IntegerTooLarge(err)
    }
}

impl vstd::std_specs::convert::FromSpecImpl<TryFromIntError> for ToValueError {
    open spec fn obeys_from_spec() -> bool {
        true
    }

    open spec fn from_spec(v: TryFromIntError) -> Self {
        ToValueError::IntegerTooLarge(v)
    }
}

/// Builds [`Value`]s out of the parts of the serialization data model.
pub struct ValueSerializer;

/// `v` is the identifier `text`.
pub open spec fn is_identifier(v: Value, text: Seq<char>) -> bool {
    match v {
        Value::Identifier(name) => name@ == text,
        _ => false,
    }
}

/// `v` is the structure `name` whose contents are the tuple `items`.
pub open spec fn is_named_tuple(v: Value, name: Seq<char>, items: Seq<Value>) -> bool {
    match v {
        Value::Named(n) => n.name@ == name && match n.contents {
            StructContents::Tuple(l) => l.0@ == items,
            StructContents::Mapping(_) => false,
        },
        _ => false,
    }
}

/// `v` is the structure `name` whose contents are the fields `entries`.
pub open spec fn is_named_map(v: Value, name: Seq<char>, entries: Seq<(Value, Value)>) -> bool {
    match v {
        Value::Named(n) => n.name@ == name && match n.contents {
            StructContents::Mapping(m) => m.0@ == entries,
            StructContents::Tuple(_) => false,
        },
        _ => false,
    }
}

/// `v` is the integer `n`.
pub open spec fn is_integer(v: Value, n: int) -> bool {
    match v {
        Value::Integer(i) => i.value() == n,
        _ => false,
    }
}

impl ValueSerializer {
    /// The absent option: the identifier `None`.
    pub fn serialize_none(self) -> (r: Value)
        ensures
            is_identifier(r, "None"@),
    {
        Value::Identifier("None".to_owned())
    }

    /// A present option: `Some` holding `value`.
    pub fn serialize_some(self, value: Value) -> (r: Value)
        ensures
            is_named_tuple(r, "Some"@, seq![value]),
    {
        self.serialize_newtype("Some", value)
    }

    /// The unit value: an empty tuple.
    pub fn serialize_unit(self) -> (r: Value)
        ensures
            r matches Value::Tuple(l) && l.0@.len() == 0,
    {
        Value::unit()
    }

    /// A unit struct: its name as an identifier.
    pub fn serialize_unit_struct(self, name: &str) -> (r: Value)
        ensures
            is_identifier(r, name@),
    {
        Value::Identifier(name.to_owned())
    }

    /// A unit variant: the variant's name as an identifier.
    pub fn serialize_unit_variant(self, variant: &str) -> (r: Value)
        ensures
            is_identifier(r, variant@),
    {
        Value::Identifier(variant.to_owned())
    }

    /// A newtype struct or variant: `name` holding `value` in a tuple.
    pub fn serialize_newtype(self, name: &str, value: Value) -> (r: Value)
        ensures
            is_named_tuple(r, name@, seq![value]),
    {
        let mut items = Vec::new();
        items.push(value);
        assert(items@ =~= seq![value]);
        Value::Named(Named { name: name.to_owned(), contents: StructContents::Tuple(List(items)) })
    }

    /// A `u128`, in the smallest representation of [`Integer`] that holds it.
    pub fn serialize_u128(self, v: u128) -> (r: Result<Value, ToValueError>)
        ensures
            v <= u64::MAX ==> (r matches Ok(i) && is_integer(i, v as int)),
            v > u64::MAX ==> r is Err && r->Err_0 is IntegerTooLarge,
    {
        match Integer::try_from(v) {
            Ok(i) => Ok(Value::Integer(i)),
            Err(e) => Err(ToValueError::IntegerTooLarge(e)),
        }
    }

    /// An `i128`, in the smallest representation of [`Integer`] that holds it.
    pub fn serialize_i128(self, v: i128) -> (r: Result<Value, ToValueError>)
        ensures
            i64::MIN <= v <= i64::MAX ==> (r matches Ok(i) && is_integer(i, v as int)),
            !(i64::MIN <= v <= i64::MAX) ==> r is Err && r->Err_0 is IntegerTooLarge,
    {
        match Integer::try_from(v) {
            Ok(i) => Ok(Value::Integer(i)),
            Err(e) => Err(ToValueError::IntegerTooLarge(e)),
        }
    }
}

/// Collects the items of a sequence, a tuple, or a tuple struct or variant.
pub struct SequenceSerializer {
    name: Option<String>,
    kind: Nested,
    contents: List,
}

impl SequenceSerializer {
    /// The name of the structure being built, if it has one.
    pub closed spec fn name(&self) -> Option<String> {
        self.name
    }

    /// Whether the items form a list or a tuple.
    pub closed spec fn kind(&self) -> Nested {
        self.kind
    }

    /// The items collected so far.
    pub closed spec fn items(&self) -> Seq<Value> {
        self.contents.0@
    }

    /// Starts a sequence of `kind`, with `name` if it is a named structure.
    pub fn new(name: Option<String>, kind: Nested) -> (s: Self)
        ensures
            s.name() == name,
            s.kind() == kind,
            s.items().len() == 0,
    {
        SequenceSerializer { name, kind, contents: List::new() }
    }

    /// Adds `value` as the next item.
    pub fn serialize_element(&mut self, value: Value)
        ensures
            final(self).name() == old(self).name(),
            final(self).kind() == old(self).kind(),
            final(self).items() == old(self).items().push(value),
    {
        self.contents.0.push(value);
    }

    /// The value built: a named tuple when there is a name, else an array for
    /// a list and a tuple for a tuple.
    pub fn end(self) -> (r: Value)
        requires
            self.kind() != Nested::Mapping,
        ensures
            match self.name() {
                Some(name) => is_named_tuple(r, name@, self.items()),
                None => if self.kind() == Nested::List {
                    r matches Value::Array(l) && l.0@ == self.items()
                } else {
                    r matches Value::Tuple(l) && l.0@ == self.items()
                },
            },
    {
        match self.name {
            Some(name) => Value::Named(Named { name, contents: StructContents::Tuple(self.contents) }),
            None => match self.kind {
                Nested::List => Value::Array(self.contents),
                _ => Value::Tuple(self.contents),
            },
        }
    }
}

/// Collects the entries of a map, or the fields of a struct or struct variant.
pub struct MapSerializer {
    name: Option<String>,
    contents: Mapping,
}

impl MapSerializer {
    /// The name of the structure being built, if it has one.
    pub closed spec fn name(&self) -> Option<String> {
        self.name
    }

    /// The entries collected so far.
    pub closed spec fn entries(&self) -> Seq<(Value, Value)> {
        self.contents.0@
    }

    /// Starts a map, with `name` if it is a named structure.
    pub fn new(name: Option<String>) -> (s: Self)
        ensures
            s.name() == name,
            s.entries().len() == 0,
    {
        MapSerializer { name, contents: Mapping::default() }
    }

    /// Adds an entry with `key`, whose value is unit until
    /// [`MapSerializer::serialize_value`] sets it.
    pub fn serialize_key(&mut self, key: Value)
        ensures
            final(self).name() == old(self).name(),
            final(self).entries().len() == old(self).entries().len() + 1,
            final(self).entries().drop_last() == old(self).entries(),
            final(self).entries().last().0 == key,
            final(self).entries().last().1 matches Value::Tuple(l) && l.0@.len() == 0,
    {
        self.contents.0.push((key, Value::unit()));
    }

    /// Sets the value of the last entry.
    pub fn serialize_value(&mut self, value: Value)
        requires
            old(self).entries().len() > 0,
        ensures
            final(self).name() == old(self).name(),
            final(self).entries() == old(self).entries().update(
                old(self).entries().len() - 1,
                (old(self).entries().last().0, value),
            ),
    {
        let last = self.contents.0.len() - 1;
        let (key, _) = self.contents.0.remove(last);
        self.contents.0.push((key, value));
    }

    /// The value built: a named struct when there is a name, else a map.
    pub fn end(self) -> (r: Value)
        ensures
            match self.name() {
                Some(name) => is_named_map(r, name@, self.entries()),
                None => r matches Value::Mapping(m) && m.0@ == self.entries(),
            },
    {
        match self.name {
            Some(name) => Value::Named(Named { name, contents: StructContents::Mapping(self.contents) }),
            None => Value::Mapping(self.contents),
        }
    }
}

} // verus!

verus! {

/// Reads the parts of the serialization data model out of a [`Value`].
pub struct ValueDeserializer<'a>(pub &'a Value);

/// What an option holds.
pub enum OptionContents<'a> {
    /// The option is absent.
    Absent,
    /// The option is present and holds this value.
    Present(&'a Value),
}

/// The value that a newtype holds.
pub enum NewtypeContents<'a> {
    /// This value.
    Inner(&'a Value),
    /// The unit value, which an empty newtype holds.
    Unit,
}

/// Where the name of an enum variant is read from.
pub enum VariantKey<'a> {
    /// The value itself names the variant.
    Itself(&'a Value),
    /// The variant is named by this text.
    Name(&'a str),
}

/// What follows the name of an enum variant.
pub enum EnumVariantAccessor<'a> {
    /// Nothing: a unit variant.
    Unit,
    /// A tuple of values.
    Tuple(&'a List),
    /// Named fields.
    Mapping(&'a Mapping),
}

/// The items that a variant's contents are read as.
pub enum VariantItems<'a> {
    /// A sequence of values.
    Sequence(&'a [Value]),
    /// A map of entries.
    Entries(&'a [(Value, Value)]),
}

/// The items of `v` when it is read as a sequence: those of a tuple, an array
/// or a named tuple.
pub open spec fn sequence_of(v: Value) -> Option<Seq<Value>> {
    match v {
        Value::Named(n) => match n.contents {
            StructContents::Tuple(l) => Some(l.0@),
            StructContents::Mapping(_) => None,
        },
        Value::Tuple(l) => Some(l.0@),
        Value::Array(l) => Some(l.0@),
        _ => None,
    }
}

/// The entries of `v` when it is read as a map: those of a map or a named
/// struct.
pub open spec fn entries_of(v: Value) -> Option<Seq<(Value, Value)>> {
    match v {
        Value::Named(n) => match n.contents {
            StructContents::Mapping(m) => Some(m.0@),
            StructContents::Tuple(_) => None,
        },
        Value::Mapping(m) => Some(m.0@),
        _ => None,
    }
}

impl<'a> ValueDeserializer<'a> {
    /// A boolean: a boolean as it is, an integer as whether it is not zero.
    pub fn deserialize_bool(self) -> (r: Result<bool, FromValueError>)
        ensures
            match *self.0 {
                Value::Bool(b) => r == Ok::<bool, FromValueError>(b),
                Value::Integer(i) => r == Ok::<bool, FromValueError>(i.value() != 0),
                _ => r == Err::<bool, FromValueError>(FromValueError::Expected(ExpectedKind::Bool)),
            },
    {
        match self.0 {
            Value::Integer(number) => Ok(!number.is_zero()),
            Value::Bool(b) => Ok(*b),
            _ => Err(FromValueError::Expected(ExpectedKind::Bool)),
        }
    }

    /// A character.
    pub fn deserialize_char(self) -> (r: Result<char, FromValueError>)
        ensures
            match *self.0 {
                Value::Char(c) => r == Ok::<char, FromValueError>(c),
                _ => r == Err::<char, FromValueError>(FromValueError::Expected(ExpectedKind::Char)),
            },
    {
        match self.0 {
            Value::Char(ch) => Ok(*ch),
            _ => Err(FromValueError::Expected(ExpectedKind::Char)),
        }
    }

    /// Text: a string or an identifier as it is, a byte string decoded as
    /// UTF-8, the name of a named structure.
    pub fn deserialize_str(self) -> (r: Result<&'a str, FromValueError>)
        ensures
            match *self.0 {
                Value::String(s) => r matches Ok(t) && t@ == s@,
                Value::Identifier(s) => r matches Ok(t) && t@ == s@,
                Value::Named(n) => r matches Ok(t) && t@ == n.name@,
                Value::Bytes(b) => if vstd::utf8::valid_utf8(b@) {
                    r matches Ok(t) && t@ == vstd::utf8::decode_utf8(b@)
                } else {
                    r == Err::<&str, FromValueError>(FromValueError::InvalidUtf8)
                },
                _ => r == Err::<&str, FromValueError>(FromValueError::Expected(ExpectedKind::String)),
            },
    {
        match self.0 {
            Value::String(text) => Ok(text.as_str()),
            Value::Identifier(text) => Ok(text.as_str()),
            Value::Bytes(bytes) => match str_from_utf8(bytes.as_slice()) {
                Ok(text) => Ok(text),
                Err(_) => Err(FromValueError::InvalidUtf8),
            },
            Value::Named(named) => Ok(named.name.as_str()),
            _ => Err(FromValueError::Expected(ExpectedKind::String)),
        }
    }

    /// Bytes: a byte string as it is, the UTF-8 encoding of a string or an
    /// identifier.
    pub fn deserialize_bytes(self) -> (r: Result<&'a [u8], FromValueError>)
        ensures
            match *self.0 {
                Value::Bytes(b) => r matches Ok(t) && t@ == b@,
                Value::String(s) => r matches Ok(t) && t@ == vstd::utf8::encode_utf8(s@),
                Value::Identifier(s) => r matches Ok(t) && t@ == vstd::utf8::encode_utf8(s@),
                _ => r == Err::<&[u8], FromValueError>(FromValueError::Expected(ExpectedKind::Bytes)),
            },
    {
        match self.0 {
            Value::Bytes(bytes) => Ok(bytes.as_slice()),
            Value::String(text) => Ok(text.as_str().as_bytes()),
            Value::Identifier(text) => Ok(text.as_str().as_bytes()),
            _ => Err(FromValueError::Expected(ExpectedKind::Bytes)),
        }
    }

    /// An option: `None` (as a string or an identifier) is absent, `Some`
    /// with at least one item holds its first item, and any other value is
    /// taken as present and holding itself.
    pub fn deserialize_option(self) -> (r: OptionContents<'a>)
        ensures
            match *self.0 {
                Value::String(s) => if s@ == "None"@ { r is Absent } else { r == OptionContents::Present(self.0) },
                Value::Identifier(s) => if s@ == "None"@ { r is Absent } else { r == OptionContents::Present(self.0) },
                Value::Named(n) => match n.contents {
                    StructContents::Tuple(l) => if n.name@ == "Some"@ && l.0@.len() > 0 {
                        r == OptionContents::Present(&l.0@[0])
                    } else {
                        r == OptionContents::Present(self.0)
                    },
                    StructContents::Mapping(_) => r == OptionContents::Present(self.0),
                },
                _ => r == OptionContents::Present(self.0),
            },
    {
        match self.0 {
            Value::String(name) => {
                if same_text(name.as_str(), "None") {
                    OptionContents::Absent
                } else {
                    OptionContents::Present(self.0)
                }
            },
            Value::Identifier(name) => {
                if same_text(name.as_str(), "None") {
                    OptionContents::Absent
                } else {
                    OptionContents::Present(self.0)
                }
            },
            Value::Named(named) => match &named.contents {
                StructContents::Tuple(list) => {
                    if same_text(named.name.as_str(), "Some") && list.0.len() > 0 {
                        OptionContents::Present(&list.0[0])
                    } else {
                        OptionContents::Present(self.0)
                    }
                },
                StructContents::Mapping(_) => OptionContents::Present(self.0),
            },
            _ => OptionContents::Present(self.0),
        }
    }

    /// Unit: a tuple, an array or a named tuple, whatever it holds.
    pub fn deserialize_unit(self) -> (r: Result<(), FromValueError>)
        ensures
            r is Ok <==> sequence_of(*self.0) is Some,
            r is Err ==> r == Err::<(), FromValueError>(FromValueError::Expected(ExpectedKind::Unit)),
    {
        match self.0 {
            Value::Named(named) => match &named.contents {
                StructContents::Tuple(_) => Ok(()),
                StructContents::Mapping(_) => Err(FromValueError::Expected(ExpectedKind::Unit)),
            },
            Value::Tuple(_) => Ok(()),
            Value::Array(_) => Ok(()),
            _ => Err(FromValueError::Expected(ExpectedKind::Unit)),
        }
    }

    /// The value that the newtype struct `name` holds: for a structure of
    /// that name, its first item or the value of its first field, or unit
    /// when it is empty; for any other value, the value itself.
    pub fn deserialize_newtype_struct(self, name: &str) -> (r: NewtypeContents<'a>)
        ensures
            match *self.0 {
                Value::Named(n) => if n.name@ == name@ {
                    match n.contents {
                        StructContents::Tuple(l) => if l.0@.len() > 0 {
                            r == NewtypeContents::Inner(&l.0@[0])
                        } else {
                            r is Unit
                        },
                        StructContents::Mapping(m) => if m.0@.len() > 0 {
                            r == NewtypeContents::Inner(&m.0@[0].1)
                        } else {
                            r is Unit
                        },
                    }
                } else {
                    r == NewtypeContents::Inner(self.0)
                },
                _ => r == NewtypeContents::Inner(self.0),
            },
    {
        match self.0 {
            Value::Named(named) => {
                if same_text(named.name.as_str(), name) {
                    match &named.contents {
                        StructContents::Tuple(contents) => {
                            if contents.0.len() > 0 {
                                NewtypeContents::Inner(&contents.0[0])
                            } else {
                                NewtypeContents::Unit
                            }
                        },
                        StructContents::Mapping(map) => {
                            if map.0.len() > 0 {
                                NewtypeContents::Inner(&map.0[0].1)
                            } else {
                                NewtypeContents::Unit
                            }
                        },
                    }
                } else {
                    NewtypeContents::Inner(self.0)
                }
            },
            _ => NewtypeContents::Inner(self.0),
        }
    }

    /// The items of a sequence: those of a tuple, an array or a named tuple.
    pub fn deserialize_seq(self) -> (r: Result<&'a [Value], FromValueError>)
        ensures
            match sequence_of(*self.0) {
                Some(items) => r matches Ok(s) && s@ == items,
                None => r == Err::<&[Value], FromValueError>(FromValueError::Expected(ExpectedKind::Sequence)),
            },
    {
        match self.0 {
            Value::Named(named) => match &named.contents {
                StructContents::Tuple(list) => Ok(list.0.as_slice()),
                StructContents::Mapping(_) => Err(FromValueError::Expected(ExpectedKind::Sequence)),
            },
            Value::Tuple(list) => Ok(list.0.as_slice()),
            Value::Array(list) => Ok(list.0.as_slice()),
            _ => Err(FromValueError::Expected(ExpectedKind::Sequence)),
        }
    }

    /// The entries of a map: those of a map or a named struct.
    pub fn deserialize_map(self) -> (r: Result<&'a [(Value, Value)], FromValueError>)
        ensures
            match entries_of(*self.0) {
                Some(entries) => r matches Ok(s) && s@ == entries,
                None => r == Err::<&[(Value, Value)], FromValueError>(FromValueError::Expected(ExpectedKind::Mapping)),
            },
    {
        match self.0 {
            Value::Named(named) => match &named.contents {
                StructContents::Mapping(map) => Ok(map.0.as_slice()),
                StructContents::Tuple(_) => Err(FromValueError::Expected(ExpectedKind::Mapping)),
            },
            Value::Mapping(map) => Ok(map.0.as_slice()),
            _ => Err(FromValueError::Expected(ExpectedKind::Mapping)),
        }
    }

    /// An enum variant: an identifier or a string names a unit variant; a
    /// named structure names the variant by its name and holds its contents.
    pub fn variant(self) -> (r: Result<(VariantKey<'a>, EnumVariantAccessor<'a>), FromValueError>)
        ensures
            match *self.0 {
                Value::Identifier(_) => r matches Ok((k, a)) && k == VariantKey::Itself(self.0) && a is Unit,
                Value::String(_) => r matches Ok((k, a)) && k == VariantKey::Itself(self.0) && a is Unit,
                Value::Named(n) => r matches Ok((k, a)) && (k matches VariantKey::Name(t) && t@ == n.name@)
                    && match n.contents {
                        StructContents::Tuple(l) => a == EnumVariantAccessor::Tuple(&l),
                        StructContents::Mapping(m) => a == EnumVariantAccessor::Mapping(&m),
                    },
                _ => r is Err && r->Err_0 == FromValueError::Expected(ExpectedKind::Enum),
            },
    {
        match self.0 {
            Value::Identifier(_) => Ok((VariantKey::Itself(self.0), EnumVariantAccessor::Unit)),
            Value::String(_) => Ok((VariantKey::Itself(self.0), EnumVariantAccessor::Unit)),
            Value::Named(named) => {
                let accessor = match &named.contents {
                    StructContents::Mapping(map) => EnumVariantAccessor::Mapping(map),
                    StructContents::Tuple(list) => EnumVariantAccessor::Tuple(list),
                };
                Ok((VariantKey::Name(named.name.as_str()), accessor))
            },
            _ => Err(FromValueError::Expected(ExpectedKind::Enum)),
        }
    }
}

impl<'a> EnumVariantAccessor<'a> {
    /// The value of a newtype variant: the first item of a tuple, or unit when
    /// there is none; named fields are refused.
    pub fn newtype_variant(self) -> (r: Result<NewtypeContents<'a>, FromValueError>)
        ensures
            match self {
                EnumVariantAccessor::Unit => r matches Ok(c) && c is Unit,
                EnumVariantAccessor::Tuple(l) => if l.0@.len() > 0 {
                    r matches Ok(c) && c == NewtypeContents::Inner(&l.0@[0])
                } else {
                    r matches Ok(c) && c is Unit
                },
                EnumVariantAccessor::Mapping(_) => r is Err && r->Err_0 == FromValueError::Expected(
                    ExpectedKind::Newtype,
                ),
            },
    {
        match self {
            EnumVariantAccessor::Unit => Ok(NewtypeContents::Unit),
            EnumVariantAccessor::Tuple(list) => {
                if list.0.len() > 0 {
                    Ok(NewtypeContents::Inner(&list.0[0]))
                } else {
                    Ok(NewtypeContents::Unit)
                }
            },
            EnumVariantAccessor::Mapping(_) => Err(FromValueError::Expected(ExpectedKind::Newtype)),
        }
    }

    /// The contents of a tuple or struct variant: the items of a tuple, the
    /// entries of named fields, or nothing for a unit variant.
    pub fn contents(self) -> (r: Option<VariantItems<'a>>)
        ensures
            match self {
                EnumVariantAccessor::Unit => r is None,
                EnumVariantAccessor::Tuple(l) => r matches Some(VariantItems::Sequence(s)) && s@ == l.0@,
                EnumVariantAccessor::Mapping(m) => r matches Some(VariantItems::Entries(s)) && s@ == m.0@,
            },
    {
        match self {
            EnumVariantAccessor::Unit => None,
            EnumVariantAccessor::Tuple(list) => Some(VariantItems::Sequence(list.0.as_slice())),
            EnumVariantAccessor::Mapping(map) => Some(VariantItems::Entries(map.0.as_slice())),
        }
    }
}

} // verus!
