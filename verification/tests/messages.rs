use rsn::de::{Deserializer, DeserializerError, Error as DeError, ErrorKind as DeErrorKind};
use rsn::parser::{Config, Error as ParserError, ErrorKind as ParserErrorKind, Nested};
use rsn::tokenizer::{Error as TokenizerError, ErrorKind as TokenizerErrorKind, Tokenizer};
use rsn::value::convert::{ExpectedKind, FromValueError, ToValueError};

fn first_tokenizer_error(source: &str) -> TokenizerError {
    let mut tokenizer = Tokenizer::minified(source);
    loop {
        match tokenizer.next() {
            Some(Err(err)) => return err,
            Some(Ok(_)) => {}
            None => panic!("no error in {source:?}"),
        }
    }
}

#[test]
fn tokenizer_error_kinds() {
    let cases = [
        ("\"abc", TokenizerErrorKind::UnexpectedEof),
        ("=", TokenizerErrorKind::Unexpected('=')),
        ("0x", TokenizerErrorKind::ExpectedDigit),
        ("18446744073709551616", TokenizerErrorKind::IntegerTooLarge),
        ("'\\u{110000}'", TokenizerErrorKind::InvalidUnicode),
        ("'\\x80'", TokenizerErrorKind::InvalidAscii),
        ("1e", TokenizerErrorKind::ExpectedDigit),
        ("1e1_", TokenizerErrorKind::InvalidFloat),
    ];
    for (source, kind) in cases {
        assert_eq!(first_tokenizer_error(source).kind, kind, "{source:?}");
    }
}

#[test]
fn tokenizer_messages() {
    assert_eq!(TokenizerErrorKind::UnexpectedEof.message(), "unexpected eof");
    assert_eq!(TokenizerErrorKind::Unexpected('x').message(), "unexpected `x`");
    assert_eq!(TokenizerErrorKind::ExpectedDigit.message(), "expected digit");
    assert_eq!(TokenizerErrorKind::IntegerTooLarge.message(), "value overflowed the maximum size");
    assert_eq!(TokenizerErrorKind::InvalidUnicode.message(), "invalid unicode escape sequence");
    assert_eq!(TokenizerErrorKind::InvalidAscii.message(), "invalid ascii escape sequence");
    assert_eq!(TokenizerErrorKind::InvalidFloat.message(), "invalid floating point literal");
    assert_eq!(
        TokenizerErrorKind::IsolatedCarriageReturn.message(),
        "unexpected isolated carriage return"
    );
    let err = TokenizerError::new(3..14, TokenizerErrorKind::Unexpected('='));
    assert_eq!(err.message(), "unexpected `=` at 3..14");
    assert_eq!(first_tokenizer_error("=").message(), "unexpected `=` at 0..1");
}

#[test]
fn parser_messages() {
    assert_eq!(ParserErrorKind::UnexpectedEof.message(), "unexpected end of file");
    assert_eq!(ParserErrorKind::ExpectedValue.message(), "a value was expected");
    assert_eq!(ParserErrorKind::ExpectedCommaOrEnd(Nested::Tuple).message(), "expected `,` or `)`");
    assert_eq!(ParserErrorKind::ExpectedCommaOrEnd(Nested::Mapping).message(), "expected `,` or `}`");
    assert_eq!(ParserErrorKind::ExpectedCommaOrEnd(Nested::List).message(), "expected `,` or `]`");
    assert_eq!(ParserErrorKind::ExpectedColon.message(), "expected `:`");
    assert_eq!(ParserErrorKind::ExpectedKey.message(), "expected map key");
    assert_eq!(
        ParserErrorKind::TrailingData.message(),
        "source contained extra trailing data after a value was completely read"
    );
    assert_eq!(
        ParserErrorKind::ExpectedMapOrTuple.message(),
        "[ is not valid for a named value, expected { or ("
    );
    assert_eq!(
        ParserErrorKind::Tokenizer(TokenizerErrorKind::ExpectedDigit).message(),
        "expected digit"
    );
    assert_eq!(ParserError::new(0..1, ParserErrorKind::ExpectedColon).message(), "expected `:`");
    assert_eq!(Nested::List.err_display(), "`]`");
}

#[test]
fn deserializer_messages() {
    let cases = [
        (DeErrorKind::ExpectedInteger, "expected integer"),
        (DeErrorKind::ExpectedFloat, "expected float"),
        (DeErrorKind::ExpectedBool, "expected bool"),
        (DeErrorKind::ExpectedUnit, "expected unit"),
        (DeErrorKind::ExpectedOption, "expected option"),
        (DeErrorKind::ExpectedChar, "expected char"),
        (DeErrorKind::ExpectedString, "expected string"),
        (DeErrorKind::ExpectedBytes, "expected bytes"),
        (DeErrorKind::SomeCanOnlyContainOneValue, "Some(_) can only contain one value"),
        (DeErrorKind::ExpectedSequence, "expected sequence"),
        (DeErrorKind::ExpectedMap, "expected map"),
        (DeErrorKind::ExpectedTupleStruct, "expected tuple struct"),
        (DeErrorKind::ExpectedMapStruct, "expected map struct"),
        (DeErrorKind::ExpectedEnum, "expected enum"),
        (DeErrorKind::InvalidUtf8, "invalid utf-8"),
        (DeErrorKind::NameMismatch("Point".to_string()), "name mismatch, expected Point"),
        (DeErrorKind::Message("custom".to_string()), "custom"),
        (DeErrorKind::Parser(ParserErrorKind::ExpectedKey), "expected map key"),
    ];
    for (kind, text) in cases {
        assert_eq!(kind.message(), text);
    }
    assert_eq!(DeError::new(2..5, DeErrorKind::ExpectedBool).message(), "expected bool at 2..5");
    assert_eq!(
        DeserializerError::new(Some(10..12), DeErrorKind::ExpectedChar).message(),
        "expected char at 10..12"
    );
    assert_eq!(DeserializerError::custom("oops".to_string()).message(), "oops");

    let mut de = Deserializer::new("true", Config::default());
    let err = de.next_char().unwrap_err();
    assert_eq!(de.finish_error(err).message(), "expected char at 0..4");
}

#[test]
fn value_conversion_messages() {
    assert_eq!(FromValueError::Expected(ExpectedKind::I8).message(), "expected i8");
    assert_eq!(FromValueError::Expected(ExpectedKind::Unit).message(), "expected ()");
    assert_eq!(FromValueError::Expected(ExpectedKind::Mapping).message(), "expected Map");
    assert_eq!(FromValueError::Expected(ExpectedKind::String).message(), "expected String");
    assert_eq!(
        FromValueError::InvalidUtf8.message(),
        "invalid utf8 when interpreting bytes as a string"
    );
    assert_eq!(FromValueError::Message("m".to_string()).message(), "m");
    assert_eq!(ToValueError::Message("too big".to_string()).message(), "too big");
    let err = u64::try_from(u128::MAX).unwrap_err();
    assert_eq!(ToValueError::IntegerTooLarge(err).message(), err.to_string());
}
