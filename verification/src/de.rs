use core::ops::Range;

use vstd::prelude::*;

use crate::parser::grammar::{next_kept, Machine, TokenRead};
use crate::parser::{
    self, depth_after, depth_delta, depth_step, event_reads, within, Event, EventKind, Nested, Parser,
    Primitive,
};
use crate::text::{
    byte_len, longest_valid_prefix, push_str, same_text, str_from_utf8, utf8_error_len, Utf8Failure,
};
use crate::tokenizer::{self, lexes, push_range, range_text, Integer};

verus! {

/// An error that arose while deserializing, at a byte range of the source.
#[derive(Debug, PartialEq)]
pub struct Error {
    /// The byte range of the error.
    pub location: Range<usize>,
    /// The kind of error.
    pub kind: ErrorKind,
}

impl Error {
    /// Returns an error of `kind` at `location`.
    pub fn new(location: Range<usize>, kind: ErrorKind) -> (err: Self)
        ensures
            err.location == location,
            err.kind == kind,
    {
        Self { location, kind }
    }
}

impl From<parser::Error> for Error {
    fn from(err: parser::Error) -> (e: Self) {
        Self { location: err.location, kind: ErrorKind::Parser(err.kind) }
    }
}

impl vstd::std_specs::convert::FromSpecImpl<parser::Error> for Error {
    open spec fn obeys_from_spec() -> bool {
        true
    }

    open spec fn from_spec(v: parser::Error) -> Self {
        Error { location: v.location, kind: ErrorKind::Parser(v.kind) }
    }
}

/// An error that arose while deserializing, whose location may not be known
/// yet.
#[derive(Debug, PartialEq)]
pub struct DeserializerError {
    /// The byte range of the error, if known.
    pub location: Option<Range<usize>>,
    /// The kind of error.
    pub kind: ErrorKind,
}

impl DeserializerError {
    /// Returns an error of `kind` at `location`.
    pub fn new(location: Option<Range<usize>>, kind: ErrorKind) -> (err: Self)
        ensures
            err.location == location,
            err.kind == kind,
    {
        Self { location, kind }
    }

    /// Returns an error with the message `message` and no location, as
    /// `serde::de::Error::custom` makes.
    pub fn custom(message: String) -> (err: Self)
        ensures
            err.location is None,
            err.kind == ErrorKind::Message(message),
    {
        Self { location: None, kind: ErrorKind::Message(message) }
    }
}

impl From<parser::Error> for DeserializerError {
    fn from(err: parser::Error) -> (e: Self) {
        Self { location: Some(err.location), kind: ErrorKind::Parser(err.kind) }
    }
}

impl vstd::std_specs::convert::FromSpecImpl<parser::Error> for DeserializerError {
    open spec fn obeys_from_spec() -> bool {
        true
    }

    open spec fn from_spec(v: parser::Error) -> Self {
        DeserializerError { location: Some(v.location), kind: ErrorKind::Parser(v.kind) }
    }
}

/// The kinds of deserialization errors.
#[derive(Debug, PartialEq)]
pub enum ErrorKind {
    ExpectedInteger,
    ExpectedFloat,
    ExpectedUnit,
    ExpectedBool,
    ExpectedOption,
    ExpectedChar,
    ExpectedString,
    ExpectedBytes,
    ExpectedSequence,
    ExpectedMap,
    ExpectedTupleStruct,
    ExpectedMapStruct,
    ExpectedEnum,
    InvalidUtf8,
    /// A name other than the expected one, which is given.
    NameMismatch(String),
    SomeCanOnlyContainOneValue,
    /// An error from parsing.
    Parser(parser::ErrorKind),
    /// A message from the type being deserialized.
    Message(String),
}

impl From<parser::ErrorKind> for ErrorKind {
    fn from(kind: parser::ErrorKind) -> (k: Self) {
        ErrorKind::Parser(kind)
    }
}

impl vstd::std_specs::convert::FromSpecImpl<parser::ErrorKind> for ErrorKind {
    open spec fn obeys_from_spec() -> bool {
        true
    }

    open spec fn from_spec(v: parser::ErrorKind) -> Self {
        ErrorKind::Parser(v)
    }
}

impl From<tokenizer::ErrorKind> for ErrorKind {
    fn from(kind: tokenizer::ErrorKind) -> (k: Self) {
        ErrorKind::Parser(parser::ErrorKind::Tokenizer(kind))
    }
}

impl vstd::std_specs::convert::FromSpecImpl<tokenizer::ErrorKind> for ErrorKind {
    open spec fn obeys_from_spec() -> bool {
        true
    }

    open spec fn from_spec(v: tokenizer::ErrorKind) -> Self {
        ErrorKind::Parser(parser::ErrorKind::Tokenizer(v))
    }
}

impl ErrorKind {
    /// How this kind of error reads in a message.
    pub open spec fn text(self) -> Seq<char> {
        match self {
            ErrorKind::Parser(kind) => kind.text(),
            ErrorKind::Message(message) => message@,
            ErrorKind::ExpectedInteger => "expected integer"@,
            ErrorKind::ExpectedFloat => "expected float"@,
            ErrorKind::ExpectedBool => "expected bool"@,
            ErrorKind::ExpectedUnit => "expected unit"@,
            ErrorKind::ExpectedOption => "expected option"@,
            ErrorKind::ExpectedChar => "expected char"@,
            ErrorKind::ExpectedString => "expected string"@,
            ErrorKind::ExpectedBytes => "expected bytes"@,
            ErrorKind::SomeCanOnlyContainOneValue => "Some(_) can only contain one value"@,
            ErrorKind::ExpectedSequence => "expected sequence"@,
            ErrorKind::ExpectedMap => "expected map"@,
            ErrorKind::ExpectedTupleStruct => "expected tuple struct"@,
            ErrorKind::ExpectedMapStruct => "expected map struct"@,
            ErrorKind::ExpectedEnum => "expected enum"@,
            ErrorKind::NameMismatch(name) => "name mismatch, expected "@ + name@,
            ErrorKind::InvalidUtf8 => "invalid utf-8"@,
        }
    }

    /// A description of this kind of error.
    pub fn message(&self) -> (message: String)
        ensures
            message@ == self.text(),
    {
        match self {
            ErrorKind::Parser(kind) => kind.message(),
            ErrorKind::Message(message) => message.clone(),
            ErrorKind::ExpectedInteger => "expected integer".to_owned(),
            ErrorKind::ExpectedFloat => "expected float".to_owned(),
            ErrorKind::ExpectedBool => "expected bool".to_owned(),
            ErrorKind::ExpectedUnit => "expected unit".to_owned(),
            ErrorKind::ExpectedOption => "expected option".to_owned(),
            ErrorKind::ExpectedChar => "expected char".to_owned(),
            ErrorKind::ExpectedString => "expected string".to_owned(),
            ErrorKind::ExpectedBytes => "expected bytes".to_owned(),
            ErrorKind::SomeCanOnlyContainOneValue => "Some(_) can only contain one value".to_owned(),
            ErrorKind::ExpectedSequence => "expected sequence".to_owned(),
            ErrorKind::ExpectedMap => "expected map".to_owned(),
            ErrorKind::ExpectedTupleStruct => "expected tuple struct".to_owned(),
            ErrorKind::ExpectedMapStruct => "expected map struct".to_owned(),
            ErrorKind::ExpectedEnum => "expected enum".to_owned(),
            ErrorKind::NameMismatch(name) => {
                let mut s = "name mismatch, expected ".to_owned();
                push_str(&mut s, name.as_str());
                s
            },
            ErrorKind::InvalidUtf8 => "invalid utf-8".to_owned(),
        }
    }
}

impl Error {
    /// How this error reads in a message: its kind, then where it arose.
    pub open spec fn text(self) -> Seq<char> {
        self.kind.text() + " at "@ + range_text(self.location)
    }

    /// A description of this error and of where it arose.
    pub fn message(&self) -> (message: String)
        ensures
            message@ == self.text(),
    {
        let mut s = self.kind.message();
        push_str(&mut s, " at ");
        push_range(&mut s, &self.location);
        s
    }
}

impl DeserializerError {
    /// How this error reads in a message: its kind, then where it arose when
    /// that is known.
    pub open spec fn text(self) -> Seq<char> {
        match self.location {
            Some(location) => self.kind.text() + " at "@ + range_text(location),
            None => self.kind.text(),
        }
    }

    /// A description of this error and, when known, of where it arose.
    pub fn message(&self) -> (message: String)
        ensures
            message@ == self.text(),
    {
        let mut s = self.kind.message();
        match &self.location {
            Some(location) => {
                push_str(&mut s, " at ");
                push_range(&mut s, location);
            },
            None => {},
        }
        s
    }
}

/// The error of a result, if it has one.
pub open spec fn err_of<T>(r: Result<T, DeserializerError>) -> Option<DeserializerError> {
    match r {
        Ok(_) => None,
        Err(e) => Some(e),
    }
}

/// What an outcome of the parser says of whether the source has ended: it
/// has at the end of the events; an event there is trailing data.
pub open spec fn eof_check(o: Option<Result<Event, parser::Error>>) -> Result<(), Error> {
    match o {
        None => Ok(()),
        Some(Ok(ev)) => Err(
            Error { location: ev.location, kind: ErrorKind::Parser(parser::ErrorKind::TrailingData) },
        ),
        Some(Err(e)) => Err(Error { location: e.location, kind: ErrorKind::Parser(e.kind) }),
    }
}

/// The kind of event that holds an integer.
pub open spec fn is_integer_kind(k: EventKind) -> bool {
    k matches EventKind::Primitive(Primitive::Integer(_))
}

/// A parser that can look one event ahead.
pub struct BetterPeekable {
    iter: Parser,
    peeked: Option<Result<Event, parser::Error>>,
}

impl BetterPeekable {
    /// The characters of the source.
    pub closed spec fn src(&self) -> Seq<char> {
        self.iter.src()
    }

    /// The parser's configuration.
    pub closed spec fn config(&self) -> parser::Config {
        self.iter.config()
    }

    /// The events handed out so far; a peeked event is not among them.
    pub closed spec fn taken(&self) -> Seq<Event> {
        if self.peeked is Some && self.peeked->0 is Ok {
            self.iter.history().drop_last()
        } else {
            self.iter.history()
        }
    }

    /// The events that the parser has given so far, a looked-at one among
    /// them.
    pub closed spec fn parser_events(&self) -> Seq<Event> {
        self.iter.history()
    }

    /// The event that has been looked at and not handed out, if any.
    pub closed spec fn lookahead(&self) -> Option<Result<Event, parser::Error>> {
        self.peeked
    }

    /// The byte offset just past what the parser has read.
    pub closed spec fn offset(&self) -> nat {
        self.iter.offset()
    }

    /// What the parser has read from its tokenizer.
    pub closed spec fn reads(&self) -> Seq<TokenRead> {
        self.iter.reads()
    }

    /// The state of the parser as its grammar sees it.
    pub closed spec fn machine(&self) -> Machine {
        self.iter.machine()
    }

    /// The outcome that the next event handed out is: the one looked at, or
    /// the outcome of the parser's next call after reading `more` from the
    /// tokenizer.
    pub open spec fn next_outcome(&self, more: Seq<TokenRead>, r: Option<Result<Event, parser::Error>>) -> bool {
        match self.lookahead() {
            Some(o) => r == Some(o),
            None => exists|m: Machine, q: int| next_kept(self.machine(), more, m, r) && lexes(
                self.src(),
                q,
                self.reads() + more,
            ),
        }
    }

    /// Where the parser's innermost open nested value starts, or the start
    /// of the source when none is open.
    pub closed spec fn range_start(&self) -> usize {
        if self.iter.machine().nested.len() == 0 {
            0
        } else {
            self.iter.machine().nested.last().0
        }
    }

    /// The nesting depth after the events handed out so far.
    pub closed spec fn depth(&self) -> nat {
        match self.peeked {
            Some(Ok(ev)) => (self.iter.depth() - depth_delta(ev.kind)) as nat,
            _ => self.iter.depth(),
        }
    }

    /// A measure of the work left, which every event lowers.
    pub closed spec fn measure(&self) -> nat {
        2 * self.iter.measure() + if self.peeked is Some && self.peeked->0 is Ok {
            1nat
        } else {
            0
        }
    }

    /// The parser is consistent with what has been looked at.
    pub closed spec fn inv(&self) -> bool {
        &&& self.iter.inv()
        &&& match self.peeked {
            Some(Ok(ev)) => {
                &&& self.iter.history().len() > 0
                &&& self.iter.history().last() == ev
                &&& self.iter.depth() - depth_delta(ev.kind) >= 0
                &&& depth_step(
                    (self.iter.depth() - depth_delta(ev.kind)) as nat,
                    self.iter.depth(),
                    ev.kind,
                )
                &&& (!self.iter.config().include_comments ==> !(ev.kind is Comment))
            },
            Some(Err(e)) => within(self.iter.src(), e.location),
            None => true,
        }
    }

    /// The depth is bounded by what the parser's nesting stack can hold.
    pub proof fn lemma_depth_bound(&self)
        requires
            self.inv(),
        ensures
            self.depth() <= usize::MAX + 2,
    {
        self.iter.lemma_depth_bound();
    }

    /// Every event handed out is read from the source.
    pub proof fn lemma_taken_reads(&self)
        requires
            self.inv(),
        ensures
            forall|i: int| 0 <= i < self.taken().len() ==> event_reads(self.src(), #[trigger] self.taken()[i]),
    {
        self.iter.lemma_history_reads();
        assert forall|i: int| 0 <= i < self.taken().len() implies event_reads(
            self.src(),
            #[trigger] self.taken()[i],
        ) by {
            assert(self.taken()[i] == self.iter.history()[i]);
        }
    }

    /// The peekable hands out what its parser gives, in order: the events
    /// handed out, followed by the one looked at, if any, are the parser's
    /// events.
    pub proof fn lemma_yields_parser_events(&self)
        requires
            self.inv(),
        ensures
            self.parser_events() == match self.lookahead() {
                Some(Ok(ev)) => self.taken().push(ev),
                _ => self.taken(),
            },
    {
        if self.peeked is Some && self.peeked->0 is Ok {
            let ev = self.peeked->0->Ok_0;
            assert(self.iter.history() =~= self.iter.history().drop_last().push(ev));
        }
    }

    /// Returns a peekable view of `iter`.
    pub fn new(iter: Parser) -> (p: Self)
        requires
            iter.inv(),
        ensures
            p.parser_events() == iter.history(),
            p.inv(),
            p.src() == iter.src(),
            p.config() == iter.config(),
            p.taken() == iter.history(),
            p.lookahead() is None,
            p.depth() == iter.depth(),
    {
        Self { iter, peeked: None }
    }

    /// Hands out the next event: the one looked at, if any, else the parser's
    /// next.
    pub fn next(&mut self) -> (r: Option<Result<Event, parser::Error>>)
        requires
            old(self).inv(),
        ensures
            final(self).inv(),
            final(self).src() == old(self).src(),
            final(self).config() == old(self).config(),
            final(self).lookahead() is None,
            final(self).measure() <= old(self).measure(),
            r matches Some(Ok(ev)) ==> {
                &&& final(self).taken() == old(self).taken().push(ev)
                &&& final(self).measure() < old(self).measure()
                &&& event_reads(final(self).src(), ev)
                &&& depth_step(old(self).depth(), final(self).depth(), ev.kind)
                &&& !old(self).config().include_comments ==> !(ev.kind is Comment)
            },
            !(r matches Some(Ok(_))) ==> final(self).taken() == old(self).taken(),
            r is None ==> old(self).depth() == 0,
            r matches Some(Err(e)) ==> within(final(self).src(), e.location),
            old(self).lookahead() is Some ==> r == old(self).lookahead(),
            exists|more: Seq<TokenRead>| old(self).next_outcome(more, r),
    {
        match self.peeked.take() {
            Some(result) => {
                proof {
                    assert(old(self).next_outcome(Seq::<TokenRead>::empty(), Some(result)));
                    self.iter.lemma_history_reads();
                    if result is Ok {
                        assert(old(self).iter.history() =~= old(self).taken().push(
                            result->Ok_0,
                        ));
                    }
                }
                Some(result)
            },
            None => {
                let r = self.iter.next();
                proof {
                    self.iter.lemma_history_reads();
                    let more = self.iter.reads_since(&old(self).iter);
                    assert(old(self).iter.reads() + more =~= self.iter.reads());
                    self.iter.lemma_reads_lex();
                    let q = choose|q: int| lexes(self.iter.src(), q, self.iter.reads());
                    assert(lexes(old(self).src(), q, old(self).reads() + more));
                    assert(next_kept(old(self).machine(), more, self.iter.machine(), r));
                    assert(old(self).next_outcome(more, r));
                }
                r
            },
        }
    }

    /// Looks at the next event without handing it out.
    pub fn peek(&mut self) -> (r: Option<&Result<Event, parser::Error>>)
        requires
            old(self).inv(),
        ensures
            final(self).inv(),
            final(self).src() == old(self).src(),
            final(self).config() == old(self).config(),
            final(self).taken() == old(self).taken(),
            !(final(self).lookahead() matches Some(Err(_))) ==> final(self).depth() == old(self).depth(),
            final(self).measure() <= old(self).measure(),
            r is Some <==> final(self).lookahead() is Some,
            r matches Some(x) ==> *x == final(self).lookahead()->0,
            old(self).lookahead() is Some ==> final(self).lookahead() == old(self).lookahead(),
            r is None ==> old(self).depth() == 0,
            r matches Some(Ok(ev)) ==> event_reads(final(self).src(), *ev),
    {
        if self.peeked.is_none() {
            self.peeked = self.iter.next();
            proof {
                self.iter.lemma_history_reads();
                if self.peeked is Some && self.peeked->0 is Ok {
                    assert(self.iter.history().drop_last() =~= old(self).iter.history());
                }
            }
        }
        proof {
            self.iter.lemma_history_reads();
        }
        self.peeked.as_ref()
    }

    /// Returns the current byte offset of the parser.
    pub fn current_offset(&self) -> (offset: usize)
        requires
            self.inv(),
        ensures
            offset == self.offset(),
            offset <= byte_len(self.src()),
    {
        self.iter.current_offset()
    }

    /// Returns the range from the start of the parser's innermost nested
    /// value to its current byte offset.
    pub fn current_range(&self) -> (r: Range<usize>)
        requires
            self.inv(),
        ensures
            r.start == self.range_start(),
            r.end == self.offset(),
            r.start <= byte_len(self.src()),
            r.end <= byte_len(self.src()),
    {
        self.iter.current_range()
    }
}

/// Which kind of newtype variant is being read.
#[derive(Debug, Clone, Copy, PartialEq, Eq, Structural)]
pub enum NewtypeState {
    /// The variant holds a structure, written as a map.
    StructVariant,
    /// The variant holds a tuple.
    TupleVariant,
}

/// The newtype state that was in place before a newtype variant was entered.
pub struct NewtypeStateModification(Option<NewtypeState>);

impl NewtypeStateModification {
    /// The state that leaving the newtype variant restores.
    pub closed spec fn restores(&self) -> Option<NewtypeState> {
        self.0
    }
}

/// Reads values out of Rsn source, event by event, for a driver that builds
/// typed values from them.
pub struct Deserializer {
    parser: BetterPeekable,
    newtype_state: Option<NewtypeState>,
}

/// The events handed out between `old` and `new`.
pub open spec fn new_events(old: Seq<Event>, new: Seq<Event>) -> Seq<Event> {
    new.subrange(old.len() as int, new.len() as int)
}

/// `events` are the events of exactly one value: together they close every
/// nested value they open, and no shorter nonempty first part of them does.
/// So they are one primitive, or a nested value through its matching end.
pub open spec fn one_value(events: Seq<Event>) -> bool {
    &&& events.len() > 0
    &&& depth_after(events) == 0
    &&& forall|k: int| 0 < k < events.len() ==> depth_after(#[trigger] events.take(k)) != 0
}

/// The shape of the events of one value: an event that opens no nested value
/// is the value alone; a value of more events opens a nested value first and
/// ends it last.
pub proof fn lemma_one_value_shape(events: Seq<Event>)
    requires
        one_value(events),
    ensures
        !(events[0].kind is BeginNested) && !(events[0].kind is EndNested) ==> events.len() == 1,
        events.len() > 1 && !(events[0].kind is EndNested) ==> events[0].kind is BeginNested
            && events.last().kind is EndNested,
{
    let one = events.take(1);
    assert(one.drop_last() =~= Seq::<Event>::empty());
    assert(one.last() == events[0]);
    assert(depth_after(Seq::<Event>::empty()) == 0);
    assert(depth_after(one) == depth_after(one.drop_last()) + depth_delta(one.last().kind));
    if events.len() > 1 && !(events[0].kind is EndNested) && !(events[0].kind is BeginNested) {
        assert(depth_after(one) == 0);
    }
    if events.len() > 1 && events[0].kind is BeginNested {
        let k = events.len() - 1;
        assert(events.take(k) =~= events.drop_last());
        assert(depth_after(events.take(k)) != 0);
        if !(events.last().kind is EndNested) {
            lemma_depth_after_nonneg_prefixes(events);
        }
    }
}

/// Depths of first parts after a nested value opened at the start stay
/// above zero until they reach zero: a first part at depth zero ends a run
/// that never dips below.
proof fn lemma_depth_after_nonneg_prefixes(events: Seq<Event>)
    requires
        events.len() > 1,
        events[0].kind is BeginNested,
        forall|k: int| 0 < k < events.len() ==> depth_after(#[trigger] events.take(k)) != 0,
    ensures
        forall|k: int| 0 < k < events.len() ==> depth_after(#[trigger] events.take(k)) > 0,
{
    assert forall|k: int| 0 < k < events.len() implies depth_after(#[trigger] events.take(k)) > 0 by {
        lemma_depth_prefix_positive(events, k);
    }
}

/// Induction for `lemma_depth_after_nonneg_prefixes`.
proof fn lemma_depth_prefix_positive(events: Seq<Event>, k: int)
    requires
        0 < k < events.len(),
        events[0].kind is BeginNested,
        forall|j: int| 0 < j < events.len() ==> depth_after(#[trigger] events.take(j)) != 0,
    ensures
        depth_after(events.take(k)) > 0,
    decreases k,
{
    let t = events.take(k);
    assert(t.drop_last() =~= events.take(k - 1));
    assert(depth_after(t) == depth_after(t.drop_last()) + depth_delta(t.last().kind));
    if k == 1 {
        assert(events.take(0) =~= Seq::<Event>::empty());
        assert(depth_after(Seq::<Event>::empty()) == 0);
        assert(t.last() == events[0]);
    } else {
        lemma_depth_prefix_positive(events, k - 1);
        assert(t.last() == events[k - 1]);
        assert(depth_after(events.take(k)) != 0);
    }
}

/// `new` extends `old`.
pub open spec fn extends(old: Seq<Event>, new: Seq<Event>) -> bool {
    old.len() <= new.len() && new.subrange(0, old.len() as int) == old
}

/// Extending an extension extends the original.
pub proof fn lemma_extends_trans(a: Seq<Event>, b: Seq<Event>, c: Seq<Event>)
    requires
        extends(a, b),
        extends(b, c),
    ensures
        extends(a, c),
{
    assert(c.subrange(0, a.len() as int) =~= a) by {
        assert forall|i: int| 0 <= i < a.len() implies c.subrange(0, a.len() as int)[i] == a[i] by {
            assert(c.subrange(0, b.len() as int)[i] == b[i]);
            assert(b.subrange(0, a.len() as int)[i] == a[i]);
        }
    }
}

/// Every sequence extends itself.
pub proof fn lemma_extends_refl(a: Seq<Event>)
    ensures
        extends(a, a),
{
    assert(a.subrange(0, a.len() as int) =~= a);
}

/// Every sequence extends itself, and extends what it extends with one more.
pub proof fn lemma_extends_push(a: Seq<Event>, b: Seq<Event>, e: Event)
    requires
        extends(a, b),
    ensures
        extends(a, b.push(e)),
        extends(b, b.push(e)),
        extends(b, b),
{
    assert(b.push(e).subrange(0, b.len() as int) =~= b);
    assert(b.subrange(0, b.len() as int) =~= b);
    lemma_extends_trans(a, b, b.push(e));
}

/// The byte range `loc` is `len` bytes long.
pub open spec fn spans(loc: Range<usize>, len: int) -> bool {
    loc.end - loc.start == len
}

impl Deserializer {
    /// The characters of the source.
    pub closed spec fn src(&self) -> Seq<char> {
        self.parser.src()
    }

    /// The event reader.
    pub closed spec fn reader(&self) -> BetterPeekable {
        self.parser
    }

    /// The events taken so far.
    pub closed spec fn taken(&self) -> Seq<Event> {
        self.parser.taken()
    }

    /// The event looked at and not yet taken, if any.
    pub closed spec fn lookahead(&self) -> Option<Result<Event, parser::Error>> {
        self.parser.lookahead()
    }

    /// The nesting depth after the events taken so far.
    pub closed spec fn depth(&self) -> nat {
        self.parser.depth()
    }

    /// The byte offset just past what has been read.
    pub closed spec fn offset(&self) -> nat {
        self.parser.offset()
    }

    /// A measure of the work left.
    pub closed spec fn measure(&self) -> nat {
        self.parser.measure()
    }

    /// The kind of newtype variant being read, if any.
    pub closed spec fn newtype(&self) -> Option<NewtypeState> {
        self.newtype_state
    }

    /// The deserializer is consistent: comments are left out.
    pub closed spec fn inv(&self) -> bool {
        self.parser.inv() && !self.parser.config().include_comments
    }

    /// `new` continues `old` on the same source, with no more work left.
    pub open spec fn continues(old: &Self, new: &Self) -> bool {
        &&& new.inv()
        &&& new.src() == old.src()
        &&& extends(old.taken(), new.taken())
        &&& new.measure() <= old.measure()
    }

    /// The parser's next outcome after `old` is `o`: the event looked at, or
    /// what the parser's next call gives, reading on from where the tokenizer
    /// stands.
    pub open spec fn outcome_is(old: &Self, o: Option<Result<Event, parser::Error>>) -> bool {
        exists|more: Seq<TokenRead>| old.reader().next_outcome(more, o)
    }

    /// The step from `old` to `new` took the parser's next outcome `o`: the
    /// event, when it is one; nothing otherwise.
    pub open spec fn took_outcome(old: &Self, new: &Self, o: Option<Result<Event, parser::Error>>) -> bool {
        &&& Self::outcome_is(old, o)
        &&& match o {
            Some(Ok(ev)) => took_one(old.taken(), new.taken()) && new.taken().last() == ev,
            _ => new.taken() == old.taken(),
        }
    }

    /// A step from `old` to `new` that reads one event of a kind that
    /// `accepts` holds of, with `ok` telling whether it succeeded and `err`
    /// its error: it took the parser's next outcome; on an accepted event it
    /// succeeds; on another event it fails with `expected` at the event; on
    /// an error of the parser it fails with that error; at the end of the
    /// events it fails with `expected` over what it read.
    pub open spec fn stepped(
        old: &Self,
        new: &Self,
        ok: bool,
        err: Option<DeserializerError>,
        expected: ErrorKind,
        accepts: spec_fn(EventKind) -> bool,
    ) -> bool {
        exists|o: Option<Result<Event, parser::Error>>|
            #[trigger] Self::took_outcome(old, new, o) && match o {
                Some(Ok(ev)) => if accepts(ev.kind) {
                    ok
                } else {
                    err == Some(DeserializerError { location: Some(ev.location), kind: expected })
                },
                Some(Err(pe)) => err == Some(
                    DeserializerError { location: Some(pe.location), kind: ErrorKind::Parser(pe.kind) },
                ),
                None => err == Some(
                    DeserializerError {
                        location: Some(Range { start: old.offset() as usize, end: new.offset() as usize }),
                        kind: expected,
                    },
                ),
            }
    }

    /// A step from `old` to `new` that reads an integer within `lo..=hi`:
    /// as [`Deserializer::stepped`], where an integer outside the range fails
    /// as too large, at the integer.
    pub open spec fn int_stepped(
        old: &Self,
        new: &Self,
        ok: bool,
        err: Option<DeserializerError>,
        lo: int,
        hi: int,
    ) -> bool {
        exists|o: Option<Result<Event, parser::Error>>|
            #[trigger] Self::took_outcome(old, new, o) && match o {
                Some(Ok(ev)) => match ev.kind {
                    EventKind::Primitive(Primitive::Integer(i)) => if lo <= i.value() <= hi {
                        ok
                    } else {
                        err == Some(
                            DeserializerError {
                                location: Some(ev.location),
                                kind: ErrorKind::Parser(
                                    parser::ErrorKind::Tokenizer(tokenizer::ErrorKind::IntegerTooLarge),
                                ),
                            },
                        )
                    },
                    _ => err == Some(
                        DeserializerError { location: Some(ev.location), kind: ErrorKind::ExpectedInteger },
                    ),
                },
                Some(Err(pe)) => err == Some(
                    DeserializerError { location: Some(pe.location), kind: ErrorKind::Parser(pe.kind) },
                ),
                None => err == Some(
                    DeserializerError {
                        location: Some(Range { start: old.offset() as usize, end: new.offset() as usize }),
                        kind: ErrorKind::ExpectedInteger,
                    },
                ),
            }
    }

    /// A step from `old` to `new` that reads the start of a nested value of a
    /// kind that `accepts` holds of, named `name` when a name is to be
    /// checked: it took the parser's next outcome; another event fails with
    /// `expected` at it, a start with another name with a name mismatch at
    /// it; an error of the parser is its error; the end of the events is an
    /// unexpected end over what it read.
    pub open spec fn nested_stepped(
        old: &Self,
        new: &Self,
        ok: bool,
        err: Option<DeserializerError>,
        expected: ErrorKind,
        accepts: spec_fn(EventKind) -> bool,
        name: Option<Seq<char>>,
    ) -> bool {
        exists|o: Option<Result<Event, parser::Error>>|
            #[trigger] Self::took_outcome(old, new, o) && match o {
                Some(Ok(ev)) => if !(ev.kind is BeginNested) {
                    err == Some(DeserializerError { location: Some(ev.location), kind: expected })
                } else if name matches Some(nm) && misnamed(ev, nm) {
                    err matches Some(e) && e.location == Some(ev.location) && (e.kind matches ErrorKind::NameMismatch(
                        t,
                    ) && t@ == name->0)
                } else if accepts(ev.kind) {
                    ok
                } else {
                    err == Some(DeserializerError { location: Some(ev.location), kind: expected })
                },
                Some(Err(pe)) => err == Some(
                    DeserializerError { location: Some(pe.location), kind: ErrorKind::Parser(pe.kind) },
                ),
                None => err == Some(
                    DeserializerError {
                        location: Some(Range { start: old.offset() as usize, end: new.offset() as usize }),
                        kind: ErrorKind::Parser(parser::ErrorKind::UnexpectedEof),
                    },
                ),
            }
    }

    /// The step from `old` to `new` refused what it read: it took one event,
    /// of a kind that `accepts` does not hold of, or the source had ended.
    pub open spec fn refused(old: &Self, new: &Self, accepts: spec_fn(EventKind) -> bool) -> bool {
        ||| took_one(old.taken(), new.taken()) && !accepts(new.taken().last().kind)
        ||| new.taken() == old.taken() && old.depth() == 0
    }

    /// The step from `old` to `new` ended on an error of `kind`: `expected`,
    /// when it refused what it read, or an error of the parser, before which
    /// it took nothing.
    pub open spec fn failed(
        old: &Self,
        new: &Self,
        kind: ErrorKind,
        expected: ErrorKind,
        accepts: spec_fn(EventKind) -> bool,
    ) -> bool {
        ||| kind == expected && Self::refused(old, new, accepts)
        ||| kind is Parser && new.taken() == old.taken()
    }

    /// The step from `old` to `new`, reading an integer that must lie within
    /// `lo..=hi`, ended on an error of `kind`: it refused what it read, the
    /// parser failed, or it took an integer outside the range.
    pub open spec fn integer_failed(old: &Self, new: &Self, kind: ErrorKind, lo: int, hi: int) -> bool {
        ||| Self::failed(old, new, kind, ErrorKind::ExpectedInteger, |k: EventKind| is_integer_kind(k))
        ||| kind == ErrorKind::Parser(parser::ErrorKind::Tokenizer(tokenizer::ErrorKind::IntegerTooLarge))
            && took_one(old.taken(), new.taken()) && (new.taken().last().kind matches EventKind::Primitive(
            Primitive::Integer(i),
        ) && !(lo <= i.value() <= hi))
    }

    /// Returns a deserializer of `source`, parsed as `config` says but with
    /// comments left out.
    pub fn new(source: &str, config: parser::Config) -> (de: Self)
        ensures
            de.inv(),
            de.src() == source@,
            de.taken() == Seq::<Event>::empty(),
            de.depth() == 0,
            de.lookahead() is None,
            de.newtype() is None,
    {
        Self {
            parser: BetterPeekable::new(Parser::new(source, config.include_comments(false))),
            newtype_state: None,
        }
    }

    /// Returns the current byte offset, where an error that arises next
    /// starts.
    pub fn current_offset(&self) -> (offset: usize)
        requires
            self.inv(),
        ensures
            offset == self.offset(),
            offset <= byte_len(self.src()),
    {
        self.parser.current_offset()
    }

    /// Gives `result`, if it is an error without a location, the location
    /// from `error_start` to the current offset.
    pub fn with_error_start<T>(&self, error_start: usize, result: Result<T, DeserializerError>) -> (r:
        Result<T, DeserializerError>)
        requires
            self.inv(),
        ensures
            match result {
                Ok(v) => r == Ok::<T, DeserializerError>(v),
                Err(e) => r matches Err(f) && f.kind == e.kind && match e.location {
                    Some(loc) => f.location == Some(loc),
                    None => f.location matches Some(loc) && loc.start == error_start && loc.end
                        == self.offset() && loc.end <= byte_len(self.src()),
                },
            },
    {
        match result {
            Ok(v) => Ok(v),
            Err(err) => {
                let DeserializerError { location, kind } = err;
                match location {
                    Some(location) => Err(DeserializerError { location: Some(location), kind }),
                    None => Err(
                        DeserializerError {
                            location: Some(error_start..self.parser.current_offset()),
                            kind,
                        },
                    ),
                }
            },
        }
    }

    /// Checks that nothing but the end of the source follows.
    pub fn ensure_eof(self) -> (r: Result<(), Error>)
        requires
            self.inv(),
        ensures
            r is Ok ==> self.depth() == 0,
            r matches Err(e) ==> within(self.src(), e.location),
            exists|more: Seq<TokenRead>, o: Option<Result<Event, parser::Error>>|
                #[trigger] self.reader().next_outcome(more, o) && r == eof_check(o),
    {
        let mut parser = self.parser;
        match parser.next() {
            None => Ok(()),
            Some(Ok(event)) => {
                proof {
                    crate::parser::lemma_event_within(parser.src(), event);
                }
                Err(Error::new(event.location, ErrorKind::Parser(parser::ErrorKind::TrailingData)))
            },
            Some(Err(err)) => Err(Error::from(err)),
        }
    }

    /// The error for a whole deserialization: `err` at its location, or at
    /// the range of the innermost nested value read when it has none.
    pub fn finish_error(&self, err: DeserializerError) -> (e: Error)
        requires
            self.inv(),
        ensures
            e.kind == err.kind,
            err.location matches Some(loc) ==> e.location == loc,
            err.location is None ==> e.location.start == self.reader().range_start()
                && e.location.end == self.offset() && e.location.start <= byte_len(self.src())
                && e.location.end <= byte_len(self.src()),
    {
        let DeserializerError { location, kind } = err;
        let location = match location {
            Some(location) => location,
            None => self.parser.current_range(),
        };
        Error::new(location, kind)
    }

    /// Enters a newtype variant of the kind `state`; returns what to restore
    /// when it is left.
    pub fn set_newtype_state(&mut self, state: NewtypeState) -> (m: NewtypeStateModification)
        ensures
            final(self).newtype() == Some(state),
            m.restores() == old(self).newtype(),
            final(self).reader() == old(self).reader(),
    {
        let old_state = self.newtype_state;
        self.newtype_state = Some(state);
        NewtypeStateModification(old_state)
    }

    /// Leaves a newtype variant, restoring the state before it; returns the
    /// state it had.
    pub fn finish_newtype(&mut self, modification: NewtypeStateModification) -> (state: Option<
        NewtypeState,
    >)
        ensures
            state == old(self).newtype(),
            final(self).newtype() == modification.restores(),
            final(self).reader() == old(self).reader(),
    {
        let state = self.newtype_state;
        self.newtype_state = modification.0;
        state
    }

    /// Reads a unit value: a tuple, whose contents are skipped.
    pub fn handle_unit(&mut self) -> (r: Result<(), DeserializerError>)
        requires
            old(self).inv(),
        ensures
            Self::continues(old(self), final(self)),
            final(self).newtype() == old(self).newtype(),
            r is Ok ==> {
                &&& new_events(old(self).taken(), final(self).taken()).len() >= 2
                &&& new_events(old(self).taken(), final(self).taken())[0].kind matches EventKind::BeginNested { kind: Nested::Tuple, .. }
                &&& final(self).depth() == old(self).depth()
            },
            r matches Err(e) ==> e.kind == ErrorKind::ExpectedUnit || e.kind is Parser,
            r matches Err(e) && e.kind == ErrorKind::ExpectedUnit ==> Self::refused(
                old(self),
                final(self),
                |k: EventKind| k matches EventKind::BeginNested { kind: Nested::Tuple, .. },
            ),
            r matches Err(e) ==> e.location matches Some(loc) && loc.start <= byte_len(final(self).src())
                && loc.end <= byte_len(final(self).src()),
    {
        let error_start = self.parser.current_offset();
        let ghost d0 = self.depth();
        let ghost t0 = self.taken();
        let result = match self.parser.next() {
            Some(Ok(event)) => {
                let is_tuple = match &event.kind {
                    EventKind::BeginNested { kind: Nested::Tuple, .. } => true,
                    _ => false,
                };
                if is_tuple {
                    let ghost first = self.taken();
                    let mut nests: u128 = 1;
                    proof {
                        assert(first.subrange(0, first.len() as int) =~= first);
                    }
                    loop
                        invariant_except_break
                            nests >= 1,
                        invariant
                            self.inv(),
                            self.src() == old(self).src(),
                            self.newtype_state == old(self).newtype_state,
                            self.measure() <= old(self).measure(),
                            self.depth() == d0 + nests,
                            first == t0.push(event),
                            t0 == old(self).taken(),
                            d0 == old(self).depth(),
                            first.last().kind matches EventKind::BeginNested { kind: Nested::Tuple, .. },
                            extends(first, self.taken()),
                        ensures
                            self.depth() == d0,
                            self.taken().len() > first.len(),
                            extends(first, self.taken()),
                        decreases self.measure(),
                    {
                        let ghost before = self.taken();
                        proof {
                            self.parser.lemma_depth_bound();
                        }
                        match self.parser.next() {
                            Some(Ok(ev)) => match ev.kind {
                                EventKind::BeginNested { .. } => {
                                    nests = nests + 1;
                                },
                                EventKind::EndNested => {
                                    nests = nests - 1;
                                    if nests == 0 {
                                        proof {
                                            lemma_extends_push(first, before, ev);
                                        }
                                        break ;
                                    }
                                },
                                _ => {},
                            },
                            Some(Err(err)) => {
                                proof {
                                    lemma_extends_refl(t0);
                        lemma_extends_push(t0, t0, event);
                                    lemma_extends_trans(t0, first, self.taken());
                                }
                                return Err(DeserializerError::from(err));
                            },
                            None => vstd::pervasive::unreached(),
                        }
                        proof {
                            lemma_extends_push(first, before, self.taken().last());
                        }
                    }
                    proof {
                        let t = self.taken();
                        lemma_extends_refl(t0);
                        lemma_extends_push(t0, t0, event);
                        lemma_extends_trans(t0, first, t);
                        assert(t.subrange(0, first.len() as int)[t0.len() as int] == first[t0.len() as int]);
                        assert(new_events(t0, t)[0] == first.last());
                    }
                    Ok(())
                } else {
                    proof {
                        crate::parser::lemma_event_within(self.src(), event);
                        lemma_extends_refl(t0);
                        lemma_extends_push(t0, t0, event);
                    }
                    Err(DeserializerError::new(Some(event.location), ErrorKind::ExpectedUnit))
                }
            },
            Some(Err(err)) => Err(DeserializerError::from(err)),
            None => Err(DeserializerError::new(None, ErrorKind::ExpectedUnit)),
        };
        proof {
            assert(t0.subrange(0, t0.len() as int) =~= t0);
        }
        self.with_error_start(error_start, result)
    }
}

/// `new` is `old` and one more event.
pub open spec fn took_one(old: Seq<Event>, new: Seq<Event>) -> bool {
    new.len() == old.len() + 1 && new.subrange(0, old.len() as int) == old
}

/// Where a floating point number is read from.
#[derive(Debug, PartialEq)]
pub enum FloatSource {
    /// A floating point literal, as its text.
    Text(String),
    /// An integer literal.
    Integer(Integer),
}

impl Deserializer {
    /// Takes the next event.
    fn take(&mut self) -> (r: Option<Result<Event, parser::Error>>)
        requires
            old(self).inv(),
        ensures
            Self::continues(old(self), final(self)),
            final(self).newtype() == old(self).newtype(),
            final(self).lookahead() is None,
            r matches Some(Ok(ev)) ==> {
                &&& took_one(old(self).taken(), final(self).taken())
                &&& final(self).taken().last() == ev
                &&& final(self).measure() < old(self).measure()
                &&& within(final(self).src(), ev.location)
                &&& depth_step(old(self).depth(), final(self).depth(), ev.kind)
                &&& !(ev.kind is Comment)
            },
            !(r matches Some(Ok(_))) ==> final(self).taken() == old(self).taken(),
            r is None ==> old(self).depth() == 0,
            r matches Some(Err(e)) ==> within(final(self).src(), e.location),
            old(self).lookahead() is Some ==> r == old(self).lookahead(),
            Self::took_outcome(old(self), final(self), r),
            final(self).offset() == final(self).reader().offset(),
    {
        let r = self.parser.next();
        proof {
            lemma_extends_refl(old(self).taken());
            if r is Some && r->0 is Ok {
                let ev = r->0->Ok_0;
                lemma_extends_push(old(self).taken(), old(self).taken(), ev);
                crate::parser::lemma_event_within(self.src(), ev);
                assert(self.taken().subrange(0, old(self).taken().len() as int) =~= old(self).taken());
            }
        }
        r
    }

    /// Looks at the next event without taking it.
    fn look(&mut self) -> (r: Option<&Result<Event, parser::Error>>)
        requires
            old(self).inv(),
        ensures
            Self::continues(old(self), final(self)),
            final(self).newtype() == old(self).newtype(),
            final(self).taken() == old(self).taken(),
            !(final(self).lookahead() matches Some(Err(_))) ==> final(self).depth() == old(self).depth(),
            r is Some <==> final(self).lookahead() is Some,
            r matches Some(x) ==> *x == final(self).lookahead()->0,
            old(self).lookahead() is Some ==> final(self).lookahead() == old(self).lookahead(),
            r is None ==> old(self).depth() == 0,
            r matches Some(Ok(ev)) ==> within(final(self).src(), ev.location) && !(ev.kind is Comment),
    {
        let r = self.parser.peek();
        proof {
            lemma_extends_refl(old(self).taken());
            if r is Some && r->0 is Ok {
                crate::parser::lemma_event_within(old(self).src(), r->0->Ok_0);
            }
        }
        r
    }

    /// Reads an integer and the range it was read from.
    pub fn next_integer(&mut self) -> (r: Result<(Integer, Range<usize>), DeserializerError>)
        requires
            old(self).inv(),
        ensures
            Self::continues(old(self), final(self)),
            final(self).newtype() == old(self).newtype(),
            r matches Ok((i, loc)) ==> took_one(old(self).taken(), final(self).taken())
                && final(self).taken().last() == (Event {
                location: loc,
                kind: EventKind::Primitive(Primitive::Integer(i)),
            }),
            r matches Err(e) ==> e.location is Some && Self::failed(
                old(self),
                final(self),
                e.kind,
                ErrorKind::ExpectedInteger,
                |k: EventKind| is_integer_kind(k),
            ),
            Self::stepped(
                old(self),
                final(self),
                r is Ok,
                err_of(r),
                ErrorKind::ExpectedInteger,
                |k: EventKind| is_integer_kind(k),
            ),
    {
        let error_start = self.current_offset();
        let result = match self.take() {
            Some(Ok(event)) => {
                let Event { location, kind } = event;
                match kind {
                    EventKind::Primitive(Primitive::Integer(value)) => Ok((value, location)),
                    _ => Err(DeserializerError::new(Some(location), ErrorKind::ExpectedInteger)),
                }
            },
            Some(Err(err)) => Err(DeserializerError::from(err)),
            None => Err(DeserializerError::new(None, ErrorKind::ExpectedInteger)),
        };
        self.with_error_start(error_start, result)
    }

    /// Reads an integer that must fit in `i8`.
    pub fn next_i8(&mut self) -> (r: Result<i8, DeserializerError>)
        requires
            old(self).inv(),
        ensures
            Self::continues(old(self), final(self)),
            final(self).newtype() == old(self).newtype(),
            r matches Ok(v) ==> took_one(old(self).taken(), final(self).taken())
                && final(self).taken().last().kind == EventKind::Primitive(Primitive::Integer(
                final(self).taken().last().kind->Primitive_0->Integer_0,
            )) && final(self).taken().last().kind->Primitive_0->Integer_0.value() == v as int,
            r matches Err(e) ==> e.location is Some && Self::integer_failed(old(self), final(self), e.kind, i8::MIN as int, i8::MAX as int),
            Self::int_stepped(old(self), final(self), r is Ok, err_of(r), i8::MIN as int, i8::MAX as int),
    {
        let (value, location) = match self.next_integer() {
            Ok(found) => found,
            Err(err) => {
                return Err(err);
            },
        };
        match value.as_i8() {
            Some(v) => Ok(v),
            None => Err(
                DeserializerError::new(
                    Some(location),
                    ErrorKind::Parser(parser::ErrorKind::Tokenizer(tokenizer::ErrorKind::IntegerTooLarge)),
                ),
            ),
        }
    }

    /// Reads an integer that must fit in `i16`.
    pub fn next_i16(&mut self) -> (r: Result<i16, DeserializerError>)
        requires
            old(self).inv(),
        ensures
            Self::continues(old(self), final(self)),
            final(self).newtype() == old(self).newtype(),
            r matches Ok(v) ==> took_one(old(self).taken(), final(self).taken())
                && final(self).taken().last().kind == EventKind::Primitive(Primitive::Integer(
                final(self).taken().last().kind->Primitive_0->Integer_0,
            )) && final(self).taken().last().kind->Primitive_0->Integer_0.value() == v as int,
            r matches Err(e) ==> e.location is Some && Self::integer_failed(old(self), final(self), e.kind, i16::MIN as int, i16::MAX as int),
            Self::int_stepped(old(self), final(self), r is Ok, err_of(r), i16::MIN as int, i16::MAX as int),
    {
        let (value, location) = match self.next_integer() {
            Ok(found) => found,
            Err(err) => {
                return Err(err);
            },
        };
        match value.as_i16() {
            Some(v) => Ok(v),
            None => Err(
                DeserializerError::new(
                    Some(location),
                    ErrorKind::Parser(parser::ErrorKind::Tokenizer(tokenizer::ErrorKind::IntegerTooLarge)),
                ),
            ),
        }
    }

    /// Reads an integer that must fit in `i32`.
    pub fn next_i32(&mut self) -> (r: Result<i32, DeserializerError>)
        requires
            old(self).inv(),
        ensures
            Self::continues(old(self), final(self)),
            final(self).newtype() == old(self).newtype(),
            r matches Ok(v) ==> took_one(old(self).taken(), final(self).taken())
                && final(self).taken().last().kind == EventKind::Primitive(Primitive::Integer(
                final(self).taken().last().kind->Primitive_0->Integer_0,
            )) && final(self).taken().last().kind->Primitive_0->Integer_0.value() == v as int,
            r matches Err(e) ==> e.location is Some && Self::integer_failed(old(self), final(self), e.kind, i32::MIN as int, i32::MAX as int),
            Self::int_stepped(old(self), final(self), r is Ok, err_of(r), i32::MIN as int, i32::MAX as int),
    {
        let (value, location) = match self.next_integer() {
            Ok(found) => found,
            Err(err) => {
                return Err(err);
            },
        };
        match value.as_i32() {
            Some(v) => Ok(v),
            None => Err(
                DeserializerError::new(
                    Some(location),
                    ErrorKind::Parser(parser::ErrorKind::Tokenizer(tokenizer::ErrorKind::IntegerTooLarge)),
                ),
            ),
        }
    }

    /// Reads an integer that must fit in `i64`.
    pub fn next_i64(&mut self) -> (r: Result<i64, DeserializerError>)
        requires
            old(self).inv(),
        ensures
            Self::continues(old(self), final(self)),
            final(self).newtype() == old(self).newtype(),
            r matches Ok(v) ==> took_one(old(self).taken(), final(self).taken())
                && final(self).taken().last().kind == EventKind::Primitive(Primitive::Integer(
                final(self).taken().last().kind->Primitive_0->Integer_0,
            )) && final(self).taken().last().kind->Primitive_0->Integer_0.value() == v as int,
            r matches Err(e) ==> e.location is Some && Self::integer_failed(old(self), final(self), e.kind, i64::MIN as int, i64::MAX as int),
            Self::int_stepped(old(self), final(self), r is Ok, err_of(r), i64::MIN as int, i64::MAX as int),
    {
        let (value, location) = match self.next_integer() {
            Ok(found) => found,
            Err(err) => {
                return Err(err);
            },
        };
        match value.as_i64() {
            Some(v) => Ok(v),
            None => Err(
                DeserializerError::new(
                    Some(location),
                    ErrorKind::Parser(parser::ErrorKind::Tokenizer(tokenizer::ErrorKind::IntegerTooLarge)),
                ),
            ),
        }
    }

    /// Reads an integer that must fit in `u8`.
    pub fn next_u8(&mut self) -> (r: Result<u8, DeserializerError>)
        requires
            old(self).inv(),
        ensures
            Self::continues(old(self), final(self)),
            final(self).newtype() == old(self).newtype(),
            r matches Ok(v) ==> took_one(old(self).taken(), final(self).taken())
                && final(self).taken().last().kind == EventKind::Primitive(Primitive::Integer(
                final(self).taken().last().kind->Primitive_0->Integer_0,
            )) && final(self).taken().last().kind->Primitive_0->Integer_0.value() == v as int,
            r matches Err(e) ==> e.location is Some && Self::integer_failed(old(self), final(self), e.kind, 0 as int, u8::MAX as int),
            Self::int_stepped(old(self), final(self), r is Ok, err_of(r), 0 as int, u8::MAX as int),
    {
        let (value, location) = match self.next_integer() {
            Ok(found) => found,
            Err(err) => {
                return Err(err);
            },
        };
        match value.as_u8() {
            Some(v) => Ok(v),
            None => Err(
                DeserializerError::new(
                    Some(location),
                    ErrorKind::Parser(parser::ErrorKind::Tokenizer(tokenizer::ErrorKind::IntegerTooLarge)),
                ),
            ),
        }
    }

    /// Reads an integer that must fit in `u16`.
    pub fn next_u16(&mut self) -> (r: Result<u16, DeserializerError>)
        requires
            old(self).inv(),
        ensures
            Self::continues(old(self), final(self)),
            final(self).newtype() == old(self).newtype(),
            r matches Ok(v) ==> took_one(old(self).taken(), final(self).taken())
                && final(self).taken().last().kind == EventKind::Primitive(Primitive::Integer(
                final(self).taken().last().kind->Primitive_0->Integer_0,
            )) && final(self).taken().last().kind->Primitive_0->Integer_0.value() == v as int,
            r matches Err(e) ==> e.location is Some && Self::integer_failed(old(self), final(self), e.kind, 0 as int, u16::MAX as int),
            Self::int_stepped(old(self), final(self), r is Ok, err_of(r), 0 as int, u16::MAX as int),
    {
        let (value, location) = match self.next_integer() {
            Ok(found) => found,
            Err(err) => {
                return Err(err);
            },
        };
        match value.as_u16() {
            Some(v) => Ok(v),
            None => Err(
                DeserializerError::new(
                    Some(location),
                    ErrorKind::Parser(parser::ErrorKind::Tokenizer(tokenizer::ErrorKind::IntegerTooLarge)),
                ),
            ),
        }
    }

    /// Reads an integer that must fit in `u32`.
    pub fn next_u32(&mut self) -> (r: Result<u32, DeserializerError>)
        requires
            old(self).inv(),
        ensures
            Self::continues(old(self), final(self)),
            final(self).newtype() == old(self).newtype(),
            r matches Ok(v) ==> took_one(old(self).taken(), final(self).taken())
                && final(self).taken().last().kind == EventKind::Primitive(Primitive::Integer(
                final(self).taken().last().kind->Primitive_0->Integer_0,
            )) && final(self).taken().last().kind->Primitive_0->Integer_0.value() == v as int,
            r matches Err(e) ==> e.location is Some && Self::integer_failed(old(self), final(self), e.kind, 0 as int, u32::MAX as int),
            Self::int_stepped(old(self), final(self), r is Ok, err_of(r), 0 as int, u32::MAX as int),
    {
        let (value, location) = match self.next_integer() {
            Ok(found) => found,
            Err(err) => {
                return Err(err);
            },
        };
        match value.as_u32() {
            Some(v) => Ok(v),
            None => Err(
                DeserializerError::new(
                    Some(location),
                    ErrorKind::Parser(parser::ErrorKind::Tokenizer(tokenizer::ErrorKind::IntegerTooLarge)),
                ),
            ),
        }
    }

    /// Reads an integer that must fit in `u64`.
    pub fn next_u64(&mut self) -> (r: Result<u64, DeserializerError>)
        requires
            old(self).inv(),
        ensures
            Self::continues(old(self), final(self)),
            final(self).newtype() == old(self).newtype(),
            r matches Ok(v) ==> took_one(old(self).taken(), final(self).taken())
                && final(self).taken().last().kind == EventKind::Primitive(Primitive::Integer(
                final(self).taken().last().kind->Primitive_0->Integer_0,
            )) && final(self).taken().last().kind->Primitive_0->Integer_0.value() == v as int,
            r matches Err(e) ==> e.location is Some && Self::integer_failed(old(self), final(self), e.kind, 0 as int, u64::MAX as int),
            Self::int_stepped(old(self), final(self), r is Ok, err_of(r), 0 as int, u64::MAX as int),
    {
        let (value, location) = match self.next_integer() {
            Ok(found) => found,
            Err(err) => {
                return Err(err);
            },
        };
        match value.as_u64() {
            Some(v) => Ok(v),
            None => Err(
                DeserializerError::new(
                    Some(location),
                    ErrorKind::Parser(parser::ErrorKind::Tokenizer(tokenizer::ErrorKind::IntegerTooLarge)),
                ),
            ),
        }
    }

    /// Reads an integer that must fit in `i128`.
    pub fn next_i128(&mut self) -> (r: Result<i128, DeserializerError>)
        requires
            old(self).inv(),
        ensures
            Self::continues(old(self), final(self)),
            final(self).newtype() == old(self).newtype(),
            r matches Ok(v) ==> took_one(old(self).taken(), final(self).taken())
                && final(self).taken().last().kind == EventKind::Primitive(Primitive::Integer(
                final(self).taken().last().kind->Primitive_0->Integer_0,
            )) && final(self).taken().last().kind->Primitive_0->Integer_0.value() == v as int,
            r matches Err(e) ==> e.location is Some && Self::integer_failed(old(self), final(self), e.kind, i128::MIN as int, i128::MAX as int),
            Self::int_stepped(old(self), final(self), r is Ok, err_of(r), i128::MIN as int, i128::MAX as int),
    {
        let (value, _) = match self.next_integer() {
            Ok(found) => found,
            Err(err) => {
                return Err(err);
            },
        };
        Ok(value.to_i128())
    }

    /// Reads an integer that must fit in `u128`.
    pub fn next_u128(&mut self) -> (r: Result<u128, DeserializerError>)
        requires
            old(self).inv(),
        ensures
            Self::continues(old(self), final(self)),
            final(self).newtype() == old(self).newtype(),
            r matches Ok(v) ==> took_one(old(self).taken(), final(self).taken())
                && final(self).taken().last().kind == EventKind::Primitive(Primitive::Integer(
                final(self).taken().last().kind->Primitive_0->Integer_0,
            )) && final(self).taken().last().kind->Primitive_0->Integer_0.value() == v as int,
            r matches Err(e) ==> e.location is Some && Self::integer_failed(old(self), final(self), e.kind, 0 as int, u128::MAX as int),
            Self::int_stepped(old(self), final(self), r is Ok, err_of(r), 0 as int, u128::MAX as int),
    {
        let (value, location) = match self.next_integer() {
            Ok(found) => found,
            Err(err) => {
                return Err(err);
            },
        };
        match value.as_u128() {
            Some(v) => Ok(v),
            None => Err(
                DeserializerError::new(
                    Some(location),
                    ErrorKind::Parser(parser::ErrorKind::Tokenizer(tokenizer::ErrorKind::IntegerTooLarge)),
                ),
            ),
        }
    }

    /// Reads a boolean: a boolean literal, or an integer, which is true
    /// unless it is zero.
    pub fn next_bool(&mut self) -> (r: Result<bool, DeserializerError>)
        requires
            old(self).inv(),
        ensures
            Self::continues(old(self), final(self)),
            final(self).newtype() == old(self).newtype(),
            r matches Ok(b) ==> took_one(old(self).taken(), final(self).taken()) && match final(self).taken().last().kind {
                EventKind::Primitive(Primitive::Bool(v)) => b == v,
                EventKind::Primitive(Primitive::Integer(i)) => b == (i.value() != 0),
                _ => false,
            },
            r matches Err(e) ==> e.location is Some && Self::failed(
                old(self),
                final(self),
                e.kind,
                ErrorKind::ExpectedInteger,
                |k: EventKind| k matches EventKind::Primitive(p) && (p is Bool || p is Integer),
            ),
            Self::stepped(
                old(self),
                final(self),
                r is Ok,
                err_of(r),
                ErrorKind::ExpectedInteger,
                |k: EventKind| k matches EventKind::Primitive(p) && (p is Bool || p is Integer),
            ),
    {
        let error_start = self.current_offset();
        let result = match self.take() {
            Some(Ok(event)) => {
                let Event { location, kind } = event;
                match kind {
                    EventKind::Primitive(Primitive::Bool(value)) => Ok(value),
                    EventKind::Primitive(Primitive::Integer(value)) => Ok(!value.is_zero()),
                    _ => Err(DeserializerError::new(Some(location), ErrorKind::ExpectedInteger)),
                }
            },
            Some(Err(err)) => Err(DeserializerError::from(err)),
            None => Err(DeserializerError::new(None, ErrorKind::ExpectedInteger)),
        };
        self.with_error_start(error_start, result)
    }

    /// Reads a floating point number: a floating point literal or an integer.
    pub fn next_float(&mut self) -> (r: Result<FloatSource, DeserializerError>)
        requires
            old(self).inv(),
        ensures
            Self::continues(old(self), final(self)),
            final(self).newtype() == old(self).newtype(),
            r matches Ok(f) ==> took_one(old(self).taken(), final(self).taken()) && match f {
                FloatSource::Text(t) => final(self).taken().last().kind == EventKind::Primitive(
                    Primitive::Float(t),
                ),
                FloatSource::Integer(i) => final(self).taken().last().kind == EventKind::Primitive(
                    Primitive::Integer(i),
                ),
            },
            r matches Err(e) ==> e.location is Some && Self::failed(
                old(self),
                final(self),
                e.kind,
                ErrorKind::ExpectedFloat,
                |k: EventKind| k matches EventKind::Primitive(p) && (p is Float || p is Integer),
            ),
            Self::stepped(
                old(self),
                final(self),
                r is Ok,
                err_of(r),
                ErrorKind::ExpectedFloat,
                |k: EventKind| k matches EventKind::Primitive(p) && (p is Float || p is Integer),
            ),
    {
        let error_start = self.current_offset();
        let result = match self.take() {
            Some(Ok(event)) => {
                let Event { location, kind } = event;
                match kind {
                    EventKind::Primitive(Primitive::Float(text)) => Ok(FloatSource::Text(text)),
                    EventKind::Primitive(Primitive::Integer(value)) => Ok(FloatSource::Integer(value)),
                    _ => Err(DeserializerError::new(Some(location), ErrorKind::ExpectedFloat)),
                }
            },
            Some(Err(err)) => Err(DeserializerError::from(err)),
            None => Err(DeserializerError::new(None, ErrorKind::ExpectedFloat)),
        };
        self.with_error_start(error_start, result)
    }

    /// Reads a character.
    pub fn next_char(&mut self) -> (r: Result<char, DeserializerError>)
        requires
            old(self).inv(),
        ensures
            Self::continues(old(self), final(self)),
            final(self).newtype() == old(self).newtype(),
            r matches Ok(c) ==> took_one(old(self).taken(), final(self).taken())
                && final(self).taken().last().kind == EventKind::Primitive(Primitive::Char(c)),
            r matches Err(e) ==> e.location is Some && Self::failed(
                old(self),
                final(self),
                e.kind,
                ErrorKind::ExpectedChar,
                |k: EventKind| k matches EventKind::Primitive(p) && p is Char,
            ),
            Self::stepped(
                old(self),
                final(self),
                r is Ok,
                err_of(r),
                ErrorKind::ExpectedChar,
                |k: EventKind| k matches EventKind::Primitive(p) && p is Char,
            ),
    {
        let error_start = self.current_offset();
        let result = match self.take() {
            Some(Ok(event)) => {
                let Event { location, kind } = event;
                match kind {
                    EventKind::Primitive(Primitive::Char(value)) => Ok(value),
                    _ => Err(DeserializerError::new(Some(location), ErrorKind::ExpectedChar)),
                }
            },
            Some(Err(err)) => Err(DeserializerError::from(err)),
            None => Err(DeserializerError::new(None, ErrorKind::ExpectedChar)),
        };
        self.with_error_start(error_start, result)
    }
}

/// Where bytes are read from.
#[derive(Debug, PartialEq)]
pub enum BytesSource {
    /// The UTF-8 encoding of a text.
    Text(String),
    /// A byte string.
    Bytes(Vec<u8>),
}

/// What reading an optional value found.
#[derive(Debug, PartialEq)]
pub enum OptionStep {
    /// `None`, which was taken.
    Absent,
    /// The start of `Some(`, which was taken: the value follows, then the end
    /// of the tuple.
    Present,
    /// Any other value, which was not taken: it is the value of `Some`.
    Inline,
}

/// What reading a self-describing value found.
#[derive(Debug, PartialEq)]
pub enum AnyStep {
    /// The unit value: the end of the source, or an empty tuple or list.
    Unit,
    /// The start of `Some(`: the value follows, then the end of the tuple.
    Present,
    /// The start of a tuple or list whose items follow.
    Sequence,
    /// The start of a map whose entries follow.
    Mapping,
    Bool(bool),
    Integer(Integer),
    /// A floating point literal, as its text.
    Float(String),
    Char(char),
    String(String),
    Identifier(String),
    /// The identifier `None`.
    Absent,
    Bytes(Vec<u8>),
}

/// What comes next in a sequence or a map.
#[derive(Debug, PartialEq)]
pub enum ElementStep {
    /// Its end, which was taken.
    End,
    /// An item, which was not taken, and the offset at which it starts, if
    /// known.
    Next(Option<usize>),
}

/// How an enum value is written.
#[derive(Debug, PartialEq)]
pub enum VariantStep {
    /// A bare name or a string: a unit variant, which is read next.
    Unit,
    /// A named tuple or map: a variant with contents, named as given.
    Nested(String),
}

/// The event `ev` is the identifier `None`, written without a raw prefix.
pub open spec fn is_none_identifier(ev: Event) -> bool {
    &&& ev.kind matches EventKind::Primitive(Primitive::Identifier(v))
    &&& v@ == seq!['N', 'o', 'n', 'e']
    &&& spans(ev.location, 4)
}

/// The event `ev` starts a tuple or a list.
pub open spec fn starts_sequence(ev: Event) -> bool {
    ev.kind matches EventKind::BeginNested { kind, .. } && (kind == Nested::Tuple || kind == Nested::List)
}

/// The event `ev` starts the tuple `Some(`, by a location of the length of the
/// name `Some`.
pub open spec fn starts_some(ev: Event) -> bool {
    &&& ev.kind matches EventKind::BeginNested { name: Some(n), kind: Nested::Tuple }
    &&& n.name@ == seq!['S', 'o', 'm', 'e']
    &&& spans(ev.location, 4)
}

/// What `deserialize_any` does with the event `ev`, when it does not start a
/// tuple or a list.
pub open spec fn any_step_of(ev: Event) -> AnyStep {
    match ev.kind {
        EventKind::BeginNested { kind: Nested::Mapping, .. } => AnyStep::Mapping,
        EventKind::BeginNested { .. } => if starts_some(ev) {
            AnyStep::Present
        } else {
            AnyStep::Sequence
        },
        EventKind::Primitive(Primitive::Bool(b)) => AnyStep::Bool(b),
        EventKind::Primitive(Primitive::Integer(i)) => AnyStep::Integer(i),
        EventKind::Primitive(Primitive::Float(f)) => AnyStep::Float(f),
        EventKind::Primitive(Primitive::Char(c)) => AnyStep::Char(c),
        EventKind::Primitive(Primitive::String(s)) => AnyStep::String(s),
        EventKind::Primitive(Primitive::Identifier(s)) => if is_none_identifier(ev) {
            AnyStep::Absent
        } else {
            AnyStep::Identifier(s)
        },
        EventKind::Primitive(Primitive::Bytes(b)) => AnyStep::Bytes(b),
        _ => AnyStep::Unit,
    }
}

/// What `deserialize_any` makes of a primitive, by kind: a floating point
/// literal stays a float carrying its text, a string a string, an integer
/// the same integer, and a boolean, a character and bytes themselves; an
/// identifier stays that identifier, but for a bare `None`, which is absent.
/// No primitive becomes a step of another kind.
pub proof fn lemma_any_step_keeps_primitive(ev: Event, p: Primitive)
    requires
        ev.kind == EventKind::Primitive(p),
    ensures
        match p {
            Primitive::Float(f) => any_step_of(ev) == AnyStep::Float(f),
            Primitive::String(s) => any_step_of(ev) == AnyStep::String(s),
            Primitive::Integer(i) => any_step_of(ev) == AnyStep::Integer(i),
            Primitive::Bool(b) => any_step_of(ev) == AnyStep::Bool(b),
            Primitive::Char(c) => any_step_of(ev) == AnyStep::Char(c),
            Primitive::Bytes(b) => any_step_of(ev) == AnyStep::Bytes(b),
            Primitive::Identifier(s) => if s@ == seq!['N', 'o', 'n', 'e'] && spans(ev.location, 4) {
                any_step_of(ev) == AnyStep::Absent
            } else {
                any_step_of(ev) == AnyStep::Identifier(s)
            },
        },
{
}

/// What `deserialize_any` makes of the start of a nested value: a map is a
/// map; a tuple or a list is a sequence, but for a tuple written `Some(`,
/// which is a value that is present.
pub proof fn lemma_any_step_keeps_nesting(ev: Event, name: Option<crate::parser::Name>, kind: Nested)
    requires
        ev.kind == (EventKind::BeginNested { name, kind }),
    ensures
        kind == Nested::Mapping ==> any_step_of(ev) == AnyStep::Mapping,
        kind == Nested::List ==> any_step_of(ev) == AnyStep::Sequence,
        kind == Nested::Tuple ==> any_step_of(ev) == if name matches Some(n) && n.name@ == seq![
            'S',
            'o',
            'm',
            'e',
        ] && spans(ev.location, 4) {
            AnyStep::Present
        } else {
            AnyStep::Sequence
        },
{
}

/// Whether `ev` is the identifier `None`.
fn names_none(ev: &Event) -> (b: bool)
    ensures
        b == (ev.kind matches EventKind::Primitive(Primitive::Identifier(v)) && v@ == seq!['N', 'o', 'n', 'e']),
{
    proof {
        reveal_strlit("None");
    }
    match &ev.kind {
        EventKind::Primitive(Primitive::Identifier(text)) => {
            let t = text.as_str();
            let b = same_text(t, "None");
            assert(t@ == text@);
            assert("None"@ == seq!['N', 'o', 'n', 'e']);
            b
        },
        _ => false,
    }
}

/// Whether `ev` starts the tuple named `Some`.
fn opens_some(ev: &Event) -> (b: bool)
    ensures
        b == (ev.kind matches EventKind::BeginNested { name: Some(n), kind: Nested::Tuple } && n.name@
            == seq!['S', 'o', 'm', 'e']),
{
    proof {
        reveal_strlit("Some");
    }
    match &ev.kind {
        EventKind::BeginNested { name: Some(name), kind: Nested::Tuple } => {
            let t = name.name.as_str();
            let b = same_text(t, "Some");
            assert(t@ == name.name@);
            assert("Some"@ == seq!['S', 'o', 'm', 'e']);
            b
        },
        _ => false,
    }
}

impl Deserializer {
    /// Reads text: an identifier, a string, a byte string that is valid
    /// UTF-8, or the name of a named tuple or map.
    pub fn next_str(&mut self) -> (r: Result<String, DeserializerError>)
        requires
            old(self).inv(),
        ensures
            Self::continues(old(self), final(self)),
            final(self).newtype() == old(self).newtype(),
            r matches Ok(t) ==> took_one(old(self).taken(), final(self).taken()) && match final(self).taken().last().kind {
                EventKind::Primitive(Primitive::Identifier(s)) => t == s,
                EventKind::Primitive(Primitive::String(s)) => t == s,
                EventKind::Primitive(Primitive::Bytes(b)) => vstd::utf8::valid_utf8(b@) && t@
                    == vstd::utf8::decode_utf8(b@),
                EventKind::BeginNested { name: Some(n), .. } => t == n.name,
                _ => false,
            },
            r matches Err(e) ==> e.location is Some && (Self::failed(
                old(self),
                final(self),
                e.kind,
                ErrorKind::ExpectedString,
                |k: EventKind| k matches EventKind::Primitive(p) && (p is Identifier || p is String || p is Bytes)
                    || k matches EventKind::BeginNested { name: Some(_), .. },
            ) || e.kind == ErrorKind::InvalidUtf8 && took_one(old(self).taken(), final(self).taken())
                && (final(self).taken().last().kind matches EventKind::Primitive(Primitive::Bytes(b))
                && !vstd::utf8::valid_utf8(b@))),
            exists|o: Option<Result<Event, parser::Error>>|
                #[trigger] Self::took_outcome(old(self), final(self), o) && match o {
                    Some(Ok(ev)) => match ev.kind {
                        EventKind::Primitive(Primitive::Identifier(_)) => r is Ok,
                        EventKind::Primitive(Primitive::String(_)) => r is Ok,
                        EventKind::Primitive(Primitive::Bytes(b)) => if vstd::utf8::valid_utf8(b@) {
                            r is Ok
                        } else {
                            err_of(r) == Some(
                                DeserializerError { location: Some(ev.location), kind: ErrorKind::InvalidUtf8 },
                            )
                        },
                        EventKind::BeginNested { name: Some(_), .. } => r is Ok,
                        _ => err_of(r) == Some(
                            DeserializerError { location: Some(ev.location), kind: ErrorKind::ExpectedString },
                        ),
                    },
                    Some(Err(pe)) => err_of(r) == Some(
                        DeserializerError { location: Some(pe.location), kind: ErrorKind::Parser(pe.kind) },
                    ),
                    None => err_of(r) == Some(
                        DeserializerError {
                            location: Some(
                                Range {
                                    start: old(self).offset() as usize,
                                    end: final(self).offset() as usize,
                                },
                            ),
                            kind: ErrorKind::ExpectedString,
                        },
                    ),
                },
    {
        let error_start = self.current_offset();
        let result = match self.take() {
            Some(Ok(event)) => {
                let Event { location, kind } = event;
                match kind {
                    EventKind::Primitive(Primitive::Identifier(text)) => Ok(text),
                    EventKind::Primitive(Primitive::String(text)) => Ok(text),
                    EventKind::Primitive(Primitive::Bytes(bytes)) => match str_from_utf8(
                        bytes.as_slice(),
                    ) {
                        Ok(text) => Ok(text.to_owned()),
                        Err(_) => Err(DeserializerError::new(Some(location), ErrorKind::InvalidUtf8)),
                    },
                    EventKind::BeginNested { name: Some(name), .. } => Ok(name.name),
                    _ => Err(DeserializerError::new(Some(location), ErrorKind::ExpectedString)),
                }
            },
            Some(Err(err)) => Err(DeserializerError::from(err)),
            None => Err(DeserializerError::new(None, ErrorKind::ExpectedString)),
        };
        self.with_error_start(error_start, result)
    }

    /// Reads bytes: an identifier's or a string's text, or a byte string.
    pub fn next_bytes(&mut self) -> (r: Result<BytesSource, DeserializerError>)
        requires
            old(self).inv(),
        ensures
            Self::continues(old(self), final(self)),
            final(self).newtype() == old(self).newtype(),
            r matches Ok(b) ==> took_one(old(self).taken(), final(self).taken()) && match final(self).taken().last().kind {
                EventKind::Primitive(Primitive::Identifier(s)) => b == BytesSource::Text(s),
                EventKind::Primitive(Primitive::String(s)) => b == BytesSource::Text(s),
                EventKind::Primitive(Primitive::Bytes(v)) => b == BytesSource::Bytes(v),
                _ => false,
            },
            r matches Err(e) ==> e.location is Some && Self::failed(
                old(self),
                final(self),
                e.kind,
                ErrorKind::ExpectedBytes,
                |k: EventKind| k matches EventKind::Primitive(p) && (p is Identifier || p is String || p is Bytes),
            ),
            Self::stepped(
                old(self),
                final(self),
                r is Ok,
                err_of(r),
                ErrorKind::ExpectedBytes,
                |k: EventKind| k matches EventKind::Primitive(p) && (p is Identifier || p is String || p is Bytes),
            ),
    {
        let error_start = self.current_offset();
        let result = match self.take() {
            Some(Ok(event)) => {
                let Event { location, kind } = event;
                match kind {
                    EventKind::Primitive(Primitive::Identifier(text)) => Ok(BytesSource::Text(text)),
                    EventKind::Primitive(Primitive::String(text)) => Ok(BytesSource::Text(text)),
                    EventKind::Primitive(Primitive::Bytes(bytes)) => Ok(BytesSource::Bytes(bytes)),
                    _ => Err(DeserializerError::new(Some(location), ErrorKind::ExpectedBytes)),
                }
            },
            Some(Err(err)) => Err(DeserializerError::from(err)),
            None => Err(DeserializerError::new(None, ErrorKind::ExpectedBytes)),
        };
        self.with_error_start(error_start, result)
    }

    /// Decides how an optional value is written: `None`, `Some(..)`, or the
    /// value itself.
    pub fn option_step(&mut self) -> (r: Result<OptionStep, DeserializerError>)
        requires
            old(self).inv(),
        ensures
            Self::continues(old(self), final(self)),
            final(self).newtype() == old(self).newtype(),
            r matches Ok(OptionStep::Absent) ==> {
                &&& took_one(old(self).taken(), final(self).taken())
                &&& final(self).taken().last().kind matches EventKind::Primitive(
                    Primitive::Identifier(v),
                )
                &&& v@ == seq!['N', 'o', 'n', 'e']
            },
            r matches Ok(OptionStep::Present) ==> {
                &&& took_one(old(self).taken(), final(self).taken())
                &&& final(self).taken().last().kind matches EventKind::BeginNested {
                    name: Some(n),
                    kind: Nested::Tuple,
                }
                &&& n.name@ == seq!['S', 'o', 'm', 'e']
            },
            r matches Ok(OptionStep::Inline) ==> {
                &&& final(self).taken() == old(self).taken()
                &&& final(self).lookahead() is Some
                &&& final(self).lookahead() matches Some(Ok(ev)) ==> !(ev.kind matches EventKind::Primitive(
                    Primitive::Identifier(v),
                ) && v@ == seq!['N', 'o', 'n', 'e']) && !(ev.kind matches EventKind::BeginNested {
                    name: Some(n),
                    kind: Nested::Tuple,
                } && n.name@ == seq!['S', 'o', 'm', 'e'])
            },
            r matches Err(e) ==> e.location is Some && e.kind == ErrorKind::ExpectedOption
                && old(self).depth() == 0,
    {
        let error_start = self.current_offset();
        proof {
            reveal_strlit("None");
            reveal_strlit("Some");
        }
        let (is_none, is_some) = match self.look() {
            Some(Ok(event)) => (names_none(event), opens_some(event)),
            Some(Err(_)) => (false, false),
            None => {
                let err = DeserializerError::new(None, ErrorKind::ExpectedOption);
                return self.with_error_start(error_start, Err(err));
            },
        };
        if is_none {
            self.take();
            Ok(OptionStep::Absent)
        } else if is_some {
            self.take();
            Ok(OptionStep::Present)
        } else {
            Ok(OptionStep::Inline)
        }
    }

    /// Reads the end of `Some(..)` after its value: any other value there is
    /// an error.
    pub fn finish_some(&mut self) -> (r: Result<(), DeserializerError>)
        requires
            old(self).inv(),
        ensures
            Self::continues(old(self), final(self)),
            final(self).newtype() == old(self).newtype(),
            r is Ok ==> took_one(old(self).taken(), final(self).taken())
                && final(self).taken().last().kind is EndNested,
            r matches Err(e) ==> e.location is Some && (e.kind
                == ErrorKind::SomeCanOnlyContainOneValue || e.kind is Parser),
    {
        let error_start = self.current_offset();
        let result = match self.take() {
            Some(Ok(event)) => match event.kind {
                EventKind::EndNested => Ok(()),
                _ => Err(
                    DeserializerError::new(
                        Some(event.location),
                        ErrorKind::SomeCanOnlyContainOneValue,
                    ),
                ),
            },
            Some(Err(err)) => Err(DeserializerError::from(err)),
            None => Err(DeserializerError::new(None, ErrorKind::Parser(parser::ErrorKind::UnexpectedEof))),
        };
        self.with_error_start(error_start, result)
    }

    /// Reads a value that describes itself, and decides what it is.
    pub fn any_step(&mut self) -> (r: Result<AnyStep, DeserializerError>)
        requires
            old(self).inv(),
        ensures
            Self::continues(old(self), final(self)),
            final(self).newtype() == old(self).newtype(),
            r matches Ok(step) ==> {
                let events = new_events(old(self).taken(), final(self).taken());
                ||| (step == AnyStep::Unit && events.len() == 0 && old(self).depth() == 0)
                ||| (step == AnyStep::Unit && events.len() == 2 && starts_sequence(events[0])
                    && !starts_some(events[0]) && events[1].kind is EndNested)
                ||| (events.len() == 1 && !(events[0].kind is EndNested) && step == any_step_of(events[0])
                    && step != AnyStep::Unit && (step == AnyStep::Sequence ==> (final(self).lookahead() matches Some(x)
                    && !(x matches Ok(e) && e.kind is EndNested))))
            },
            r matches Err(e) ==> e.location is Some && e.kind is Parser && (final(self).taken() == old(self).taken()
                || took_one(old(self).taken(), final(self).taken()) && final(self).taken().last().kind is EndNested),
            exists|o: Option<Result<Event, parser::Error>>|
                #[trigger] Self::outcome_is(old(self), o) && match o {
                    Some(Ok(ev)) => final(self).taken().len() > old(self).taken().len()
                        && final(self).taken()[old(self).taken().len() as int] == ev && match ev.kind {
                        EventKind::EndNested => r == Err::<AnyStep, DeserializerError>(
                            DeserializerError {
                                location: Some(ev.location),
                                kind: ErrorKind::Parser(parser::ErrorKind::ExpectedValue),
                            },
                        ),
                        _ => if starts_sequence(ev) && !starts_some(ev) {
                            r == Ok::<AnyStep, DeserializerError>(AnyStep::Unit) || r == Ok::<
                                AnyStep,
                                DeserializerError,
                            >(AnyStep::Sequence)
                        } else {
                            r == Ok::<AnyStep, DeserializerError>(any_step_of(ev))
                        },
                    },
                    Some(Err(pe)) => final(self).taken() == old(self).taken() && r == Err::<
                        AnyStep,
                        DeserializerError,
                    >(DeserializerError { location: Some(pe.location), kind: ErrorKind::Parser(pe.kind) }),
                    None => final(self).taken() == old(self).taken() && r == Ok::<
                        AnyStep,
                        DeserializerError,
                    >(AnyStep::Unit),
                },
    {
        let error_start = self.current_offset();
        let ghost t0 = self.taken();
        proof {
            reveal_strlit("None");
            reveal_strlit("Some");
        }
        let event = match self.take() {
            Some(Ok(event)) => event,
            Some(Err(err)) => {
                return self.with_error_start(error_start, Err(DeserializerError::from(err)));
            },
            None => {
                proof {
                    assert(new_events(t0, self.taken()) =~= Seq::<Event>::empty());
                }
                return Ok(AnyStep::Unit);
            },
        };
        let ghost t1 = self.taken();
        proof {
            assert(new_events(t0, t1) =~= seq![event]);
        }
        let Event { location, kind } = event;
        let length = location.end - location.start;
        match kind {
            EventKind::BeginNested { name, kind: Nested::Mapping } => {
                proof {
                    assert(event.kind == EventKind::BeginNested { name, kind: Nested::Mapping });
                    assert(any_step_of(event) == AnyStep::Mapping);
                }
                Ok(AnyStep::Mapping)
            },
            EventKind::BeginNested { name, kind } => {
                let named_some = kind == Nested::Tuple && length == 4 && match &name {
                    Some(name) => same_text(name.name.as_str(), "Some"),
                    None => false,
                };
                proof {
                    assert(event.kind == EventKind::BeginNested { name, kind });
                    assert(event.location == location);
                    assert("Some"@ == seq!['S', 'o', 'm', 'e']);
                }
                if named_some {
                    proof {
                        assert(starts_some(event));
                        assert(any_step_of(event) == AnyStep::Present);
                    }
                    Ok(AnyStep::Present)
                } else {
                    let empty = match self.look() {
                        Some(Ok(next)) => match &next.kind {
                            EventKind::EndNested => true,
                            _ => false,
                        },
                        _ => false,
                    };
                    let ghost t2 = self.taken();
                    proof {
                        lemma_extends_trans(t0, t1, t2);
                        assert(event.kind == EventKind::BeginNested { name, kind });
                        assert(event.location == location);
                        assert("Some"@ == seq!['S', 'o', 'm', 'e']);
                        assert(!starts_some(event));
                    }
                    if empty {
                        self.take();
                        proof {
                            lemma_extends_trans(t0, t2, self.taken());
                            assert(new_events(t0, self.taken()) =~= new_events(t0, t1).push(self.taken().last()));
                            assert(starts_sequence(event));
                        }
                        Ok(AnyStep::Unit)
                    } else {
                        proof {
                            assert(any_step_of(event) == AnyStep::Sequence);
                        }
                        Ok(AnyStep::Sequence)
                    }
                }
            },
            EventKind::Primitive(primitive) => {
                let ghost p = primitive;
                let step = match primitive {
                    Primitive::Bool(v) => AnyStep::Bool(v),
                    Primitive::Integer(v) => AnyStep::Integer(v),
                    Primitive::Float(v) => AnyStep::Float(v),
                    Primitive::Char(v) => AnyStep::Char(v),
                    Primitive::String(v) => AnyStep::String(v),
                    Primitive::Identifier(v) => {
                        if length == 4 && same_text(v.as_str(), "None") {
                            AnyStep::Absent
                        } else {
                            AnyStep::Identifier(v)
                        }
                    },
                    Primitive::Bytes(v) => AnyStep::Bytes(v),
                };
                proof {
                    assert(event.kind == EventKind::Primitive(p));
                    assert(event.location == location);
                    assert("None"@ == seq!['N', 'o', 'n', 'e']);
                    assert(step == any_step_of(event));
                }
                Ok(step)
            },
            EventKind::EndNested => Err(
                DeserializerError::new(
                    Some(location),
                    ErrorKind::Parser(parser::ErrorKind::ExpectedValue),
                ),
            ),
            EventKind::Comment(_) => vstd::pervasive::unreached(),
        }
    }
}

/// The event `ev` starts a nested value named other than `expected`.
pub open spec fn misnamed(ev: Event, expected: Seq<char>) -> bool {
    ev.kind matches EventKind::BeginNested { name: Some(n), .. } && n.name@ != expected
}

impl Deserializer {
    /// Takes the start of a nested value and checks it: `Err(kind)` with
    /// `kind` for any other event, `UnexpectedEof` at the end.
    fn take_nested_start(&mut self, kind_error: ErrorKind) -> (r: Result<Event, DeserializerError>)
        requires
            old(self).inv(),
        ensures
            Self::continues(old(self), final(self)),
            final(self).newtype() == old(self).newtype(),
            r matches Ok(ev) ==> took_one(old(self).taken(), final(self).taken())
                && final(self).taken().last() == ev && ev.kind is BeginNested && within(
                final(self).src(),
                ev.location,
            ),
            r matches Err(e) ==> e.location is Some && (e.kind == kind_error && took_one(
                old(self).taken(),
                final(self).taken(),
            ) && !(final(self).taken().last().kind is BeginNested) || e.kind is Parser
                && final(self).taken() == old(self).taken()),
            exists|o: Option<Result<Event, parser::Error>>|
                #[trigger] Self::took_outcome(old(self), final(self), o) && match o {
                    Some(Ok(ev)) => if ev.kind is BeginNested {
                        r == Ok::<Event, DeserializerError>(ev)
                    } else {
                        r == Err::<Event, DeserializerError>(
                            DeserializerError { location: Some(ev.location), kind: kind_error },
                        )
                    },
                    Some(Err(pe)) => r == Err::<Event, DeserializerError>(
                        DeserializerError { location: Some(pe.location), kind: ErrorKind::Parser(pe.kind) },
                    ),
                    None => r == Err::<Event, DeserializerError>(
                        DeserializerError {
                            location: Some(
                                Range {
                                    start: old(self).offset() as usize,
                                    end: final(self).offset() as usize,
                                },
                            ),
                            kind: ErrorKind::Parser(parser::ErrorKind::UnexpectedEof),
                        },
                    ),
                },
    {
        let error_start = self.current_offset();
        let result = match self.take() {
            Some(Ok(event)) => match &event.kind {
                EventKind::BeginNested { .. } => Ok(event),
                _ => Err(DeserializerError::new(Some(event.location), kind_error)),
            },
            Some(Err(err)) => Err(DeserializerError::from(err)),
            None => Err(DeserializerError::new(None, ErrorKind::Parser(parser::ErrorKind::UnexpectedEof))),
        };
        self.with_error_start(error_start, result)
    }

    /// Reads the start of a sequence: a tuple or a list, named or not.
    pub fn begin_seq(&mut self) -> (r: Result<(), DeserializerError>)
        requires
            old(self).inv(),
        ensures
            Self::continues(old(self), final(self)),
            final(self).newtype() == old(self).newtype(),
            r is Ok ==> took_one(old(self).taken(), final(self).taken()) && starts_sequence(
                final(self).taken().last(),
            ),
            r matches Err(e) ==> e.location is Some && Self::failed(
                old(self),
                final(self),
                e.kind,
                ErrorKind::ExpectedSequence,
                |k: EventKind| k matches EventKind::BeginNested { kind, .. } && (kind == Nested::Tuple || kind
                    == Nested::List),
            ),
            Self::nested_stepped(
                old(self),
                final(self),
                r is Ok,
                err_of(r),
                ErrorKind::ExpectedSequence,
                |k: EventKind| k matches EventKind::BeginNested { kind, .. } && (kind == Nested::Tuple || kind
                    == Nested::List),
                None,
            ),
    {
        let event = match self.take_nested_start(ErrorKind::ExpectedSequence) {
            Ok(event) => event,
            Err(err) => {
                return Err(err);
            },
        };
        match &event.kind {
            EventKind::BeginNested { kind: Nested::Tuple, .. } => Ok(()),
            EventKind::BeginNested { kind: Nested::List, .. } => Ok(()),
            _ => {
                Err(DeserializerError::new(Some(event.location), ErrorKind::ExpectedSequence))
            },
        }
    }

    /// Reads the start of the tuple structure `struct_name`. Inside a tuple
    /// variant, a tuple that follows is taken as its contents; otherwise a
    /// tuple, unnamed or named `struct_name`, must start here.
    pub fn begin_tuple_struct(&mut self, struct_name: &str) -> (r: Result<(), DeserializerError>)
        requires
            old(self).inv(),
        ensures
            Self::continues(old(self), final(self)),
            final(self).newtype() == old(self).newtype(),
            old(self).newtype() == Some(NewtypeState::TupleVariant) ==> r is Ok && (final(self).taken()
                == old(self).taken() || (took_one(old(self).taken(), final(self).taken())
                && final(self).taken().last().kind matches EventKind::BeginNested { kind: Nested::Tuple, .. })),
            old(self).newtype() != Some(NewtypeState::TupleVariant) && r is Ok ==> {
                &&& took_one(old(self).taken(), final(self).taken())
                &&& final(self).taken().last().kind matches EventKind::BeginNested { kind: Nested::Tuple, .. }
                &&& !misnamed(final(self).taken().last(), struct_name@)
            },
            r matches Err(e) ==> e.location is Some && old(self).newtype() != Some(NewtypeState::TupleVariant)
                && (Self::failed(
                old(self),
                final(self),
                e.kind,
                ErrorKind::ExpectedTupleStruct,
                |k: EventKind| k matches EventKind::BeginNested { kind: Nested::Tuple, .. },
            ) || (e.kind matches ErrorKind::NameMismatch(n) && n@ == struct_name@) && took_one(
                old(self).taken(),
                final(self).taken(),
            ) && misnamed(final(self).taken().last(), struct_name@)),
            old(self).newtype() != Some(NewtypeState::TupleVariant) ==> Self::nested_stepped(
                old(self),
                final(self),
                r is Ok,
                err_of(r),
                ErrorKind::ExpectedTupleStruct,
                |k: EventKind| k matches EventKind::BeginNested { kind: Nested::Tuple, .. },
                Some(struct_name@),
            ),
    {
        let is_parsing_newtype_tuple = self.newtype_state == Some(NewtypeState::TupleVariant);
        if is_parsing_newtype_tuple {
            let next_token_is_nested_tuple = match self.look() {
                Some(Ok(event)) => match &event.kind {
                    EventKind::BeginNested { kind: Nested::Tuple, .. } => true,
                    _ => false,
                },
                _ => false,
            };
            if next_token_is_nested_tuple {
                let ghost t0 = self.taken();
                self.take();
                proof {
                    lemma_extends_trans(old(self).taken(), t0, self.taken());
                }
            }
            return Ok(());
        }
        proof {
            lemma_extends_refl(self.taken());
        }
        let ghost t0 = self.taken();
        let event = match self.take_nested_start(ErrorKind::ExpectedTupleStruct) {
            Ok(event) => event,
            Err(err) => {
                proof {
                    lemma_extends_trans(old(self).taken(), t0, self.taken());
                }
                return Err(err);
            },
        };
        proof {
            lemma_extends_trans(old(self).taken(), t0, self.taken());
        }
        let Event { location, kind } = event;
        match kind {
            EventKind::BeginNested { name, kind } => {
                let mismatch = match &name {
                    Some(name) => !same_text(name.name.as_str(), struct_name),
                    None => false,
                };
                if mismatch {
                    return Err(
                        DeserializerError::new(
                            Some(location),
                            ErrorKind::NameMismatch(struct_name.to_owned()),
                        ),
                    );
                }
                if kind != Nested::Tuple {
                    return Err(
                        DeserializerError::new(Some(location), ErrorKind::ExpectedTupleStruct),
                    );
                }
                Ok(())
            },
            _ => vstd::pervasive::unreached(),
        }
    }

    /// Reads the start of a map, named or not.
    pub fn begin_map(&mut self) -> (r: Result<(), DeserializerError>)
        requires
            old(self).inv(),
        ensures
            Self::continues(old(self), final(self)),
            final(self).newtype() == old(self).newtype(),
            r is Ok ==> took_one(old(self).taken(), final(self).taken())
                && final(self).taken().last().kind matches EventKind::BeginNested { kind: Nested::Mapping, .. },
            r matches Err(e) ==> e.location is Some && Self::failed(
                old(self),
                final(self),
                e.kind,
                ErrorKind::ExpectedMap,
                |k: EventKind| k matches EventKind::BeginNested { kind: Nested::Mapping, .. },
            ),
            Self::nested_stepped(
                old(self),
                final(self),
                r is Ok,
                err_of(r),
                ErrorKind::ExpectedMap,
                |k: EventKind| k matches EventKind::BeginNested { kind: Nested::Mapping, .. },
                None,
            ),
    {
        let event = match self.take_nested_start(ErrorKind::ExpectedMap) {
            Ok(event) => event,
            Err(err) => {
                return Err(err);
            },
        };
        match &event.kind {
            EventKind::BeginNested { kind: Nested::Mapping, .. } => Ok(()),
            _ => Err(DeserializerError::new(Some(event.location), ErrorKind::ExpectedMap)),
        }
    }

    /// Reads the start of the structure `struct_name`: a map, unnamed or named
    /// `struct_name` (any name, inside a structure variant).
    pub fn begin_struct(&mut self, struct_name: &str) -> (r: Result<(), DeserializerError>)
        requires
            old(self).inv(),
        ensures
            Self::continues(old(self), final(self)),
            final(self).newtype() == old(self).newtype(),
            r is Ok ==> {
                &&& took_one(old(self).taken(), final(self).taken())
                &&& final(self).taken().last().kind matches EventKind::BeginNested { kind: Nested::Mapping, .. }
                &&& old(self).newtype() != Some(NewtypeState::StructVariant) ==> !misnamed(
                    final(self).taken().last(),
                    struct_name@,
                )
            },
            r matches Err(e) ==> e.location is Some && (Self::failed(
                old(self),
                final(self),
                e.kind,
                ErrorKind::ExpectedMapStruct,
                |k: EventKind| k matches EventKind::BeginNested { kind: Nested::Mapping, .. },
            ) || (e.kind matches ErrorKind::NameMismatch(n) && n@ == struct_name@) && took_one(
                old(self).taken(),
                final(self).taken(),
            ) && misnamed(final(self).taken().last(), struct_name@) && old(self).newtype() != Some(
                NewtypeState::StructVariant,
            )),
            Self::nested_stepped(
                old(self),
                final(self),
                r is Ok,
                err_of(r),
                ErrorKind::ExpectedMapStruct,
                |k: EventKind| k matches EventKind::BeginNested { kind: Nested::Mapping, .. },
                if old(self).newtype() != Some(NewtypeState::StructVariant) {
                    Some(struct_name@)
                } else {
                    None
                },
            ),
    {
        let event = match self.take_nested_start(ErrorKind::ExpectedMapStruct) {
            Ok(event) => event,
            Err(err) => {
                return Err(err);
            },
        };
        let Event { location, kind } = event;
        match kind {
            EventKind::BeginNested { name, kind } => {
                let mismatch = match &name {
                    Some(name) => !same_text(name.name.as_str(), struct_name),
                    None => false,
                };
                if mismatch && self.newtype_state != Some(NewtypeState::StructVariant) {
                    return Err(
                        DeserializerError::new(
                            Some(location),
                            ErrorKind::NameMismatch(struct_name.to_owned()),
                        ),
                    );
                }
                if kind != Nested::Mapping {
                    return Err(
                        DeserializerError::new(Some(location), ErrorKind::ExpectedMapStruct),
                    );
                }
                Ok(())
            },
            _ => vstd::pervasive::unreached(),
        }
    }

    /// Skips one value, nested values with all their contents.
    pub fn skip_value(&mut self) -> (r: Result<(), DeserializerError>)
        requires
            old(self).inv(),
        ensures
            Self::continues(old(self), final(self)),
            final(self).newtype() == old(self).newtype(),
            r is Ok ==> final(self).depth() == old(self).depth() && final(self).taken().len()
                > old(self).taken().len(),
            r is Ok ==> one_value(new_events(old(self).taken(), final(self).taken())),
            r matches Err(e) ==> e.location is Some,
    {
        let error_start = self.current_offset();
        let ghost d0 = self.depth() as int;
        let mut depth: i128 = 0;
        proof {
            lemma_extends_refl(self.taken());
            self.parser.lemma_depth_bound();
        }
        loop
            invariant_except_break
                new_events(old(self).taken(), self.taken()).len() > 0 ==> depth != 0,
            invariant
                depth == depth_after(new_events(old(self).taken(), self.taken())),
                forall|k: int|
                    0 < k < new_events(old(self).taken(), self.taken()).len() ==> depth_after(
                        #[trigger] new_events(old(self).taken(), self.taken()).take(k),
                    ) != 0,
                self.inv(),
                self.src() == old(self).src(),
                self.newtype_state == old(self).newtype_state,
                self.measure() <= old(self).measure(),
                self.depth() == d0 + depth,
                d0 == old(self).depth(),
                0 <= d0 <= usize::MAX + 2,
                extends(old(self).taken(), self.taken()),
            ensures
                self.depth() == d0,
                self.taken().len() > old(self).taken().len(),
                one_value(new_events(old(self).taken(), self.taken())),
            decreases self.measure(),
        {
            let ghost before = self.taken();
            proof {
                self.parser.lemma_depth_bound();
            }
            match self.take() {
                Some(Ok(event)) => {
                    proof {
                        lemma_extends_trans(old(self).taken(), before, self.taken());
                        self.parser.lemma_depth_bound();
                    }
                    let ghost prev = new_events(old(self).taken(), before);
                    let ghost evs = new_events(old(self).taken(), self.taken());
                    proof {
                        assert(evs =~= prev.push(event));
                        assert(evs.drop_last() =~= prev);
                        assert(depth_after(evs) == depth_after(evs.drop_last()) + depth_delta(
                            evs.last().kind,
                        ));
                        assert forall|k: int| 0 < k < evs.len() implies depth_after(
                            #[trigger] evs.take(k),
                        ) != 0 by {
                            if k < prev.len() {
                                assert(evs.take(k) =~= prev.take(k));
                            } else {
                                assert(evs.take(k) =~= prev);
                            }
                        }
                    }
                    match event.kind {
                        EventKind::BeginNested { .. } => {
                            depth = depth + 1;
                        },
                        EventKind::EndNested => {
                            depth = depth - 1;
                        },
                        _ => {},
                    }
                },
                Some(Err(err)) => {
                    return self.with_error_start(error_start, Err(DeserializerError::from(err)));
                },
                None => {
                    let err = DeserializerError::new(None, ErrorKind::Parser(parser::ErrorKind::UnexpectedEof));
                    return self.with_error_start(error_start, Err(err));
                },
            }
            if depth == 0 {
                break ;
            }
        }
        Ok(())
    }

    /// Decides what comes next in a sequence or a map: its end, which is
    /// taken, or an item.
    pub fn next_element(&mut self) -> (r: Result<ElementStep, DeserializerError>)
        requires
            old(self).inv(),
        ensures
            Self::continues(old(self), final(self)),
            final(self).newtype() == old(self).newtype(),
            r matches Ok(ElementStep::End) ==> took_one(old(self).taken(), final(self).taken())
                && final(self).taken().last().kind is EndNested,
            r matches Ok(ElementStep::Next(start)) ==> final(self).taken() == old(self).taken() && (
            start is Some ==> (final(self).lookahead() matches Some(Ok(ev)) && ev.location.start
                == start->0)),
            r matches Err(e) ==> e.location is Some && old(self).depth() == 0,
    {
        let error_start = self.current_offset();
        let step = match self.look() {
            Some(Ok(event)) => match &event.kind {
                EventKind::EndNested => None,
                _ => Some(Some(event.location.start)),
            },
            Some(Err(_)) => Some(None),
            None => {
                let err = DeserializerError::new(None, ErrorKind::Parser(parser::ErrorKind::UnexpectedEof));
                return self.with_error_start(error_start, Err(err));
            },
        };
        match step {
            None => {
                let ghost t1 = self.taken();
                self.take();
                proof {
                    lemma_extends_trans(old(self).taken(), t1, self.taken());
                }
                Ok(ElementStep::End)
            },
            Some(start) => Ok(ElementStep::Next(start)),
        }
    }

    /// Skips the rest of the innermost sequence, through its end, or until
    /// the source ends or fails. Returns whether its end was reached.
    pub fn skip_sequence_rest(&mut self) -> (closed: bool)
        requires
            old(self).inv(),
        ensures
            Self::continues(old(self), final(self)),
            final(self).newtype() == old(self).newtype(),
            closed ==> final(self).depth() + 1 == old(self).depth() && final(self).taken().last().kind is EndNested,
            !closed ==> final(self).lookahead() is None && final(self).depth() == 0
                || final(self).lookahead() matches Some(Err(_)),
    {
        let ghost d0 = self.depth() as int;
        let mut levels: u128 = 1;
        proof {
            lemma_extends_refl(self.taken());
        }
        loop
            invariant
                levels >= 1,
                self.inv(),
                self.src() == old(self).src(),
                self.newtype_state == old(self).newtype_state,
                self.measure() <= old(self).measure(),
                d0 == old(self).depth(),
                extends(old(self).taken(), self.taken()),
                !(self.lookahead() matches Some(Err(_))) ==> self.depth() == d0 + levels - 1,
            decreases self.measure(),
        {
            let stop = match self.look() {
                Some(Ok(_)) => false,
                _ => true,
            };
            if stop {
                return false;
            }
            let ghost before = self.taken();
            proof {
                self.parser.lemma_depth_bound();
            }
            match self.take() {
                Some(Ok(event)) => {
                    proof {
                        lemma_extends_trans(old(self).taken(), before, self.taken());
                        self.parser.lemma_depth_bound();
                    }
                    match event.kind {
                        EventKind::EndNested => {
                            levels = levels - 1;
                            if levels == 0 {
                                return true;
                            }
                        },
                        EventKind::BeginNested { .. } => {
                            levels = levels + 1;
                        },
                        _ => {},
                    }
                },
                _ => vstd::pervasive::unreached(),
            }
        }
    }

    /// Decides how the enum value that follows is written, without taking
    /// it.
    pub fn variant_step(&mut self) -> (r: Result<VariantStep, DeserializerError>)
        requires
            old(self).inv(),
        ensures
            Self::continues(old(self), final(self)),
            final(self).newtype() == old(self).newtype(),
            final(self).taken() == old(self).taken(),
            r matches Ok(VariantStep::Unit) ==> (final(self).lookahead() matches Some(Ok(ev)) && (
            ev.kind matches EventKind::Primitive(p) && (p is Identifier || p is String))),
            r matches Ok(VariantStep::Nested(name)) ==> (final(self).lookahead() matches Some(Ok(ev))
                && (ev.kind matches EventKind::BeginNested { name: Some(n), .. } && n.name@ == name@)),
            r matches Err(e) ==> e.location is None && e.kind == ErrorKind::ExpectedEnum && !(
            final(self).lookahead() matches Some(Ok(ev)) && ((ev.kind matches EventKind::Primitive(p)
                && (p is Identifier || p is String)) || ev.kind matches EventKind::BeginNested {
                name: Some(_),
                ..
            })),
    {
        match self.look() {
            Some(Ok(event)) => match &event.kind {
                EventKind::Primitive(Primitive::Identifier(_)) => Ok(VariantStep::Unit),
                EventKind::Primitive(Primitive::String(_)) => Ok(VariantStep::Unit),
                EventKind::BeginNested { name: Some(name), .. } => Ok(
                    VariantStep::Nested(name.name.clone()),
                ),
                _ => Err(DeserializerError::new(None, ErrorKind::ExpectedEnum)),
            },
            _ => Err(DeserializerError::new(None, ErrorKind::ExpectedEnum)),
        }
    }

    /// Enters the contents of a newtype variant: a tuple that follows is
    /// taken and read as a tuple variant, a map that follows is read as a
    /// structure variant. Returns what to restore when leaving it, if
    /// anything was entered.
    pub fn begin_newtype_variant(&mut self) -> (m: Option<NewtypeStateModification>)
        requires
            old(self).inv(),
        ensures
            Self::continues(old(self), final(self)),
            m matches Some(m) ==> m.restores() == old(self).newtype(),
            m is None ==> final(self).newtype() == old(self).newtype() && final(self).taken()
                == old(self).taken(),
            final(self).newtype() == Some(NewtypeState::TupleVariant) && m is Some ==> took_one(
                old(self).taken(),
                final(self).taken(),
            ) && final(self).taken().last().kind matches EventKind::BeginNested { kind: Nested::Tuple, .. },
            final(self).newtype() == Some(NewtypeState::StructVariant) && m is Some ==> final(self).taken()
                == old(self).taken(),
    {
        let kind = match self.look() {
            Some(Ok(event)) => match &event.kind {
                EventKind::BeginNested { kind: Nested::Tuple, .. } => Some(NewtypeState::TupleVariant),
                EventKind::BeginNested { kind: Nested::Mapping, .. } => Some(
                    NewtypeState::StructVariant,
                ),
                _ => None,
            },
            _ => None,
        };
        match kind {
            Some(NewtypeState::TupleVariant) => {
                let ghost t1 = self.taken();
                self.take();
                proof {
                    lemma_extends_trans(old(self).taken(), t1, self.taken());
                }
                Some(self.set_newtype_state(NewtypeState::TupleVariant))
            },
            Some(NewtypeState::StructVariant) => Some(
                self.set_newtype_state(NewtypeState::StructVariant),
            ),
            None => None,
        }
    }

    /// Leaves the contents of a newtype variant: restores the state before
    /// it and, for a tuple variant, skips the rest of its tuple.
    pub fn end_newtype_variant(&mut self, modification: Option<NewtypeStateModification>)
        requires
            old(self).inv(),
        ensures
            Self::continues(old(self), final(self)),
            modification matches Some(m) ==> final(self).newtype() == m.restores(),
            modification is None ==> final(self).newtype() == old(self).newtype() && final(self).taken()
                == old(self).taken(),
    {
        proof {
            lemma_extends_refl(self.taken());
        }
        if let Some(modification) = modification {
            let ghost restored = modification.restores();
            if self.finish_newtype(modification) == Some(NewtypeState::TupleVariant) {
                self.skip_sequence_rest();
            }
            assert(self.newtype() == restored);
        }
    }

    /// Takes the start of a variant's contents; returns the offset at which
    /// it starts.
    pub fn begin_variant_contents(&mut self) -> (r: Result<usize, DeserializerError>)
        requires
            old(self).inv(),
        ensures
            Self::continues(old(self), final(self)),
            final(self).newtype() == old(self).newtype(),
            r matches Ok(start) ==> took_one(old(self).taken(), final(self).taken())
                && final(self).taken().last().location.start == start,
            r matches Err(e) ==> e.location is Some,
    {
        let error_start = self.current_offset();
        let result = match self.take() {
            Some(Ok(event)) => Ok(event.location.start),
            Some(Err(err)) => Err(DeserializerError::from(err)),
            None => Err(DeserializerError::new(None, ErrorKind::Parser(parser::ErrorKind::UnexpectedEof))),
        };
        self.with_error_start(error_start, result)
    }
}

/// The error for a source that is not valid UTF-8, given why: from just
/// after its longest valid prefix to the end of the invalid sequence that
/// follows, or to the end of the source if it ends inside a character.
pub fn invalid_utf8_error(failure: &Utf8Failure, len: usize) -> (e: Error)
    requires
        failure.valid_up_to < len,
        failure.error_len matches Some(n) ==> 1 <= n && failure.valid_up_to + n <= len,
    ensures
        e.kind == ErrorKind::InvalidUtf8,
        e.location.start == failure.valid_up_to + 1,
        e.location.end == match failure.error_len {
            Some(n) => failure.valid_up_to + n,
            None => len as int,
        },
{
    let end = match failure.error_len {
        Some(length) => length + failure.valid_up_to,
        None => len,
    };
    Error::new((failure.valid_up_to + 1)..end, ErrorKind::InvalidUtf8)
}

/// Decodes `source` as UTF-8 text. Invalid UTF-8 is an `InvalidUtf8` error
/// from just after the valid prefix to the end of the invalid sequence (or of
/// the source, if it ends inside a character).
pub fn source_from_slice(source: &[u8]) -> (r: Result<&str, Error>)
    ensures
        r is Ok <==> vstd::utf8::valid_utf8(source@),
        r matches Ok(text) ==> text@ == vstd::utf8::decode_utf8(source@),
        r matches Err(e) ==> {
            &&& e.kind == ErrorKind::InvalidUtf8
            &&& e.location.start >= 1
            &&& longest_valid_prefix(source@, e.location.start - 1)
            &&& e.location.end == match utf8_error_len(source@) {
                Some(n) => e.location.start - 1 + n,
                None => source@.len() as int,
            }
        },
{
    match str_from_utf8(source) {
        Ok(text) => Ok(text),
        Err(failure) => Err(invalid_utf8_error(&failure, source.len())),
    }
}

} // verus!
