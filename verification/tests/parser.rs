use rsn::parser::{Config, Error, ErrorKind, Event, EventKind, Nested, Parser, Primitive};
use rsn::tokenizer::Integer;

fn events(source: &str, config: Config) -> Result<Vec<Event>, Error> {
    let mut parser = Parser::new(source, config);
    let mut events = Vec::new();
    while let Some(event) = parser.next() {
        events.push(event?);
    }
    Ok(events)
}

fn event(location: core::ops::Range<usize>, kind: EventKind) -> Event {
    Event { location, kind }
}

fn begin(location: core::ops::Range<usize>, kind: Nested) -> Event {
    event(location, EventKind::BeginNested { name: None, kind })
}

fn integer(location: core::ops::Range<usize>, value: usize) -> Event {
    event(location, EventKind::Primitive(Primitive::Integer(Integer::Usize(value))))
}

fn identifier(location: core::ops::Range<usize>, name: &str) -> Event {
    event(location, EventKind::Primitive(Primitive::Identifier(name.to_string())))
}

fn comment(location: core::ops::Range<usize>) -> Event {
    event(location, EventKind::Comment("/**/".to_string()))
}

#[test]
fn number_array() {
    let events_read = events("[1,2,3]", Config::default()).unwrap();
    assert_eq!(
        &events_read,
        &[
            begin(0..1, Nested::List),
            integer(1..2, 1),
            integer(3..4, 2),
            integer(5..6, 3),
            event(6..7, EventKind::EndNested),
        ]
    );
    let events_read = events("[1,2,3,]", Config::default()).unwrap();
    assert_eq!(
        &events_read,
        &[
            begin(0..1, Nested::List),
            integer(1..2, 1),
            integer(3..4, 2),
            integer(5..6, 3),
            event(7..8, EventKind::EndNested),
        ]
    );
}

#[test]
fn number_tuple() {
    let events_read = events("(1,2,3)", Config::default()).unwrap();
    assert_eq!(
        &events_read,
        &[
            begin(0..1, Nested::Tuple),
            integer(1..2, 1),
            integer(3..4, 2),
            integer(5..6, 3),
            event(6..7, EventKind::EndNested),
        ]
    );
    let events_read = events("(1,2,3,)", Config::default()).unwrap();
    assert_eq!(
        &events_read,
        &[
            begin(0..1, Nested::Tuple),
            integer(1..2, 1),
            integer(3..4, 2),
            integer(5..6, 3),
            event(7..8, EventKind::EndNested),
        ]
    );
}

#[test]
fn number_map() {
    let events_read = events("{a:1,b:2}", Config::default()).unwrap();
    assert_eq!(
        &events_read,
        &[
            begin(0..1, Nested::Mapping),
            identifier(1..2, "a"),
            integer(3..4, 1),
            identifier(5..6, "b"),
            integer(7..8, 2),
            event(8..9, EventKind::EndNested),
        ]
    );
    let events_read = events("{a:1,b:2,}", Config::default()).unwrap();
    assert_eq!(
        &events_read,
        &[
            begin(0..1, Nested::Mapping),
            identifier(1..2, "a"),
            integer(3..4, 1),
            identifier(5..6, "b"),
            integer(7..8, 2),
            event(9..10, EventKind::EndNested),
        ]
    );
}

#[test]
fn commented() {
    let events_read = events(
        "/**/{/**/a/**/:/**/1/**/,/**/b/**/:/**/[/**/2/**/,/**/3/**/]/**/}/**/",
        Config::default().include_comments(true),
    )
    .unwrap();
    assert_eq!(
        &events_read,
        &[
            comment(0..4),
            begin(4..5, Nested::Mapping),
            comment(5..9),
            identifier(9..10, "a"),
            comment(10..14),
            comment(15..19),
            integer(19..20, 1),
            comment(20..24),
            comment(25..29),
            identifier(29..30, "b"),
            comment(30..34),
            comment(35..39),
            begin(39..40, Nested::List),
            comment(40..44),
            integer(44..45, 2),
            comment(45..49),
            comment(50..54),
            integer(54..55, 3),
            comment(55..59),
            event(59..60, EventKind::EndNested),
            comment(60..64),
            event(64..65, EventKind::EndNested),
            comment(65..69),
        ]
    );
}

#[test]
fn array_named_error() {
    let err = Parser::new("Foo[]", Config::default())
        .next()
        .unwrap()
        .unwrap_err();
    assert_eq!(err, Error::new(3..4, ErrorKind::ExpectedMapOrTuple));
}

#[test]
fn comments_left_out_by_default() {
    let events_read = events("/* a */ 1 // b", Config::default()).unwrap();
    assert_eq!(&events_read, &[integer(8..9, 1)]);
}

#[test]
fn named_values_and_implicit_map() {
    let events_read = events("a: 1\nb: Foo(2)", Config::default().allow_implicit_map_at_root(true)).unwrap();
    assert_eq!(
        &events_read,
        &[
            begin(0..0, Nested::Mapping),
            identifier(0..1, "a"),
            integer(3..4, 1),
            identifier(5..6, "b"),
            event(
                11..12,
                EventKind::BeginNested {
                    name: Some(rsn::parser::Name { location: 8..11, name: "Foo".to_string() }),
                    kind: Nested::Tuple,
                },
            ),
            integer(12..13, 2),
            event(13..14, EventKind::EndNested),
            event(0..14, EventKind::EndNested),
        ]
    );
}

#[test]
fn parser_errors() {
    assert_eq!(events("[1 2]", Config::default()).unwrap_err().kind, ErrorKind::ExpectedCommaOrEnd(Nested::List));
    assert_eq!(events("(1 2)", Config::default()).unwrap_err().kind, ErrorKind::ExpectedCommaOrEnd(Nested::Tuple));
    assert_eq!(events("{a 1}", Config::default()).unwrap_err().kind, ErrorKind::ExpectedColon);
    assert_eq!(events("{a:1 b:2}", Config::default()).unwrap_err().kind, ErrorKind::ExpectedCommaOrEnd(Nested::Mapping));
    assert_eq!(events("[,]", Config::default()).unwrap_err().kind, ErrorKind::ExpectedValue);
    assert_eq!(events("[", Config::default()).unwrap_err(), Error::new(1..1, ErrorKind::UnexpectedEof));
    assert_eq!(events("[1", Config::default()).unwrap_err(), Error::new(2..2, ErrorKind::ExpectedCommaOrEnd(Nested::List)));
    assert_eq!(events("{", Config::default()).unwrap_err(), Error::new(1..1, ErrorKind::ExpectedKey));
    assert_eq!(events("{a:", Config::default()).unwrap_err(), Error::new(3..3, ErrorKind::ExpectedValue));
    assert_eq!(events("1 2", Config::default()).unwrap_err(), Error::new(2..3, ErrorKind::TrailingData));
    assert_eq!(
        events("a: (1): 2", Config::default().allow_implicit_map_at_root(true)).unwrap_err().kind,
        ErrorKind::ExpectedValue
    );
    assert_eq!(
        events("a: 1 [2]: 3", Config::default().allow_implicit_map_at_root(true)).unwrap_err().kind,
        ErrorKind::ExpectedKey
    );
    assert_eq!(
        events("\"abc", Config::default()).unwrap_err().kind,
        ErrorKind::Tokenizer(rsn::tokenizer::ErrorKind::UnexpectedEof)
    );
}

#[test]
fn validate_reports_success() {
    assert!(Parser::validate("{a: [1, 2], b: Foo(3)}", Config::default()));
    assert!(!Parser::validate("{a: [1, 2}", Config::default()));
    assert!(Parser::validate("", Config::default()));
}

#[test]
fn current_range_follows_the_reads() {
    let mut p = Parser::new("[1,[2]]", Config::default());
    assert_eq!(p.current_range(), 0..0);
    for _ in 0..4 {
        assert!(matches!(p.next(), Some(Ok(_))));
    }
    assert_eq!(p.current_range(), 3..5);
    assert!(matches!(p.next(), Some(Ok(_))));
    assert_eq!(p.current_range(), 0..6);
}
