use core::ops::Range;

use vstd::prelude::*;

use crate::parser::grammar::{
    after_root_event, end_range, events_then, identifier_event, implicit_key_event,
    implicit_map_event, lemma_look_ahead_append, lemma_take_append, lexing_error, look_ahead,
    map_event, next_event, next_kept, ran, resume_event, run_ends, sequence_event, skipped,
    start_event, start_machine, take, token_event, Machine, TokenRead, lemma_comments_left_out,
    leaving_out_comments, with_config, without_comments,
};
use crate::text::{byte_len, push_str};
use crate::tokenizer::{
    self, lexes, read_step, token_at, Balanced, Integer, Token, TokenKind, Tokenizer,
};

pub mod grammar;

verus! {

/// How a [`Parser`] reads its source.
#[derive(Debug, Clone, Copy)]
#[non_exhaustive]
pub struct Config {
    /// Allows an implicit map at the root of the document: `key: value`
    /// pairs without the surrounding braces.
    pub allow_implicit_map_at_root: bool,
    /// When true, the parser reports comments as [`EventKind::Comment`] events.
    pub include_comments: bool,
}

impl Default for Config {
    fn default() -> (config: Self)
        ensures
            !config.allow_implicit_map_at_root,
            !config.include_comments,
    {
        Config { allow_implicit_map_at_root: false, include_comments: false }
    }
}

impl Config {
    /// Sets [`Config::allow_implicit_map_at_root`] to `allow` and returns the result.
    pub fn allow_implicit_map_at_root(self, allow: bool) -> (config: Self)
        ensures
            config.allow_implicit_map_at_root == allow,
            config.include_comments == self.include_comments,
    {
        Config { allow_implicit_map_at_root: allow, include_comments: self.include_comments }
    }

    /// Sets [`Config::include_comments`] to `enabled` and returns the result.
    pub fn include_comments(self, enabled: bool) -> (config: Self)
        ensures
            config.include_comments == enabled,
            config.allow_implicit_map_at_root == self.allow_implicit_map_at_root,
    {
        Config { allow_implicit_map_at_root: self.allow_implicit_map_at_root, include_comments: enabled }
    }
}

/// An error that arose while parsing Rsn events.
#[derive(Debug, PartialEq, Eq)]
pub struct Error {
    /// The byte range of this error.
    pub location: Range<usize>,
    /// The kind of error that occurred.
    pub kind: ErrorKind,
}

impl Error {
    /// Returns an error of `kind` at `location`.
    pub fn new(location: Range<usize>, kind: ErrorKind) -> (err: Self)
        ensures
            err.location == location,
            err.kind == kind,
    {
        Self { location, kind }
    }
}

impl From<tokenizer::Error> for Error {
    fn from(err: tokenizer::Error) -> (e: Self) {
        Self { location: err.location, kind: ErrorKind::Tokenizer(err.kind) }
    }
}

impl vstd::std_specs::convert::FromSpecImpl<tokenizer::Error> for Error {
    open spec fn obeys_from_spec() -> bool {
        true
    }

    open spec fn from_spec(v: tokenizer::Error) -> Self {
        Error { location: v.location, kind: ErrorKind::Tokenizer(v.kind) }
    }
}

/// A kind of error that arose while parsing Rsn events.
#[derive(Debug, Clone, PartialEq, Eq, Structural)]
#[non_exhaustive]
pub enum ErrorKind {
    /// An error occurred tokenizing the input.
    Tokenizer(tokenizer::ErrorKind),
    /// The source ended while data was still expected.
    UnexpectedEof,
    /// A key in a map was expected.
    ExpectedKey,
    /// A `:` was expected.
    ExpectedColon,
    /// A value was expected.
    ExpectedValue,
    /// Expected a `,` or the end of the given [`Nested`].
    ExpectedCommaOrEnd(Nested),
    /// A name was followed by `[`; only `{` or `(` may follow a name.
    ExpectedMapOrTuple,
    /// Data followed a value that was completely read.
    TrailingData,
}

impl From<tokenizer::ErrorKind> for ErrorKind {
    fn from(kind: tokenizer::ErrorKind) -> (k: Self) {
        ErrorKind::Tokenizer(kind)
    }
}

impl vstd::std_specs::convert::FromSpecImpl<tokenizer::ErrorKind> for ErrorKind {
    open spec fn obeys_from_spec() -> bool {
        true
    }

    open spec fn from_spec(v: tokenizer::ErrorKind) -> Self {
        ErrorKind::Tokenizer(v)
    }
}

impl ErrorKind {
    /// How this kind of error reads in a message.
    pub open spec fn text(self) -> Seq<char> {
        match self {
            ErrorKind::Tokenizer(kind) => kind.text(),
            ErrorKind::UnexpectedEof => "unexpected end of file"@,
            ErrorKind::ExpectedValue => "a value was expected"@,
            ErrorKind::ExpectedCommaOrEnd(nested) => "expected `,` or "@ + nested.closing_text(),
            ErrorKind::ExpectedColon => "expected `:`"@,
            ErrorKind::ExpectedKey => "expected map key"@,
            ErrorKind::TrailingData => "source contained extra trailing data after a value was completely read"@,
            ErrorKind::ExpectedMapOrTuple => "[ is not valid for a named value, expected { or ("@,
        }
    }

    /// A description of this kind of error.
    pub fn message(&self) -> (message: String)
        ensures
            message@ == self.text(),
    {
        match self {
            ErrorKind::Tokenizer(kind) => kind.message(),
            ErrorKind::UnexpectedEof => "unexpected end of file".to_owned(),
            ErrorKind::ExpectedValue => "a value was expected".to_owned(),
            ErrorKind::ExpectedCommaOrEnd(nested) => {
                let mut s = "expected `,` or ".to_owned();
                push_str(&mut s, nested.err_display());
                s
            },
            ErrorKind::ExpectedColon => "expected `:`".to_owned(),
            ErrorKind::ExpectedKey => "expected map key".to_owned(),
            ErrorKind::TrailingData => "source contained extra trailing data after a value was completely read".to_owned(),
            ErrorKind::ExpectedMapOrTuple => "[ is not valid for a named value, expected { or (".to_owned(),
        }
    }
}

impl Error {
    /// How this error reads in a message: the text of its kind.
    pub open spec fn text(self) -> Seq<char> {
        self.kind.text()
    }

    /// A description of this error.
    pub fn message(&self) -> (message: String)
        ensures
            message@ == self.text(),
    {
        self.kind.message()
    }
}

/// An event read from Rsn source.
#[derive(Debug, PartialEq)]
pub struct Event {
    /// The byte range of the source that produced this event.
    pub location: Range<usize>,
    /// The kind of this event.
    pub kind: EventKind,
}

impl Event {
    fn new(location: Range<usize>, kind: EventKind) -> (ev: Self)
        ensures
            ev.location == location,
            ev.kind == kind,
    {
        Self { location, kind }
    }
}

/// The kinds of events.
#[derive(Debug, PartialEq)]
pub enum EventKind {
    /// A nested sequence of events has started. The events that follow belong
    /// to it until the matching [`EventKind::EndNested`].
    BeginNested {
        /// The name of this nested value, if it has one.
        name: Option<Name>,
        /// The kind of nesting.
        kind: Nested,
    },
    /// A nested sequence of events has ended.
    EndNested,
    /// A primitive literal.
    Primitive(Primitive),
    /// A comment.
    Comment(String),
}

/// A name written before a map or a tuple.
#[derive(Debug, PartialEq)]
pub struct Name {
    /// The byte range of the name in the source.
    pub location: Range<usize>,
    /// The name itself.
    pub name: String,
}

/// The kinds of nested values.
#[derive(Debug, Clone, Copy, PartialEq, Eq, Structural)]
pub enum Nested {
    /// Values enclosed by parentheses.
    Tuple,
    /// Key-value pairs enclosed by curly braces.
    Mapping,
    /// Values enclosed by square brackets.
    List,
}

/// The delimiter that opens and closes a nested value of `kind`.
pub open spec fn balanced_of(kind: Nested) -> Balanced {
    match kind {
        Nested::Tuple => Balanced::Paren,
        Nested::Mapping => Balanced::Brace,
        Nested::List => Balanced::Bracket,
    }
}

impl Nested {
    /// The closing delimiter of this kind, quoted as messages show it.
    pub open spec fn closing_text(self) -> Seq<char> {
        match self {
            Nested::Tuple => "`)`"@,
            Nested::Mapping => "`}`"@,
            Nested::List => "`]`"@,
        }
    }

    /// The closing delimiter of this kind, quoted, for messages.
    pub fn err_display(self) -> (s: &'static str)
        ensures
            s@ == self.closing_text(),
    {
        match self {
            Nested::Tuple => "`)`",
            Nested::Mapping => "`}`",
            Nested::List => "`]`",
        }
    }
}

impl From<Balanced> for Nested {
    fn from(kind: Balanced) -> (n: Self) {
        match kind {
            Balanced::Paren => Nested::Tuple,
            Balanced::Bracket => Nested::List,
            Balanced::Brace => Nested::Mapping,
        }
    }
}

impl vstd::std_specs::convert::FromSpecImpl<Balanced> for Nested {
    open spec fn obeys_from_spec() -> bool {
        true
    }

    open spec fn from_spec(v: Balanced) -> Self {
        match v {
            Balanced::Paren => Nested::Tuple,
            Balanced::Bracket => Nested::List,
            Balanced::Brace => Nested::Mapping,
        }
    }
}

/// A primitive literal. A floating point literal is held as its text.
#[derive(Debug, PartialEq)]
pub enum Primitive {
    Bool(bool),
    Integer(Integer),
    Float(String),
    Char(char),
    String(String),
    Identifier(String),
    Bytes(Vec<u8>),
}

/// The primitive `p` is what the token at `loc` in `src` reads as.
pub open spec fn primitive_reads(src: Seq<char>, loc: Range<usize>, p: Primitive) -> bool {
    match p {
        Primitive::Bool(b) => token_at(src, loc, TokenKind::Bool(b)),
        Primitive::Integer(i) => {
            ||| token_at(src, loc, TokenKind::Integer(i))
            ||| (i matches Integer::Usize(v) && v < 256 && token_at(src, loc, TokenKind::Byte(v as u8)))
        },
        Primitive::Float(f) => token_at(src, loc, TokenKind::Float(f)),
        Primitive::Char(c) => token_at(src, loc, TokenKind::Character(c)),
        Primitive::String(s) => token_at(src, loc, TokenKind::String(s)),
        Primitive::Identifier(s) => token_at(src, loc, TokenKind::Identifier(s)),
        Primitive::Bytes(b) => token_at(src, loc, TokenKind::Bytes(b)),
    }
}

/// The event `ev` is read from the tokens of `src`: a primitive from its
/// literal, a nested value's start from its opening delimiter (and name) or,
/// for an implicit map at the root, from the empty range at the start, its end
/// from a closing delimiter or, for an implicit map, from a range that starts
/// at the start of the source, and a comment from its text.
pub open spec fn event_reads(src: Seq<char>, ev: Event) -> bool {
    let loc = ev.location;
    match ev.kind {
        EventKind::BeginNested { name, kind } => {
            ||| (name is None && kind == Nested::Mapping && loc.start == 0 && loc.end == 0)
            ||| (token_at(src, loc, TokenKind::Open(balanced_of(kind))) && match name {
                Some(n) => kind != Nested::List && token_at(
                    src,
                    n.location,
                    TokenKind::Identifier(n.name),
                ),
                None => true,
            })
        },
        EventKind::EndNested => {
            ||| (loc.start == 0 && loc.end <= byte_len(src))
            ||| token_at(src, loc, TokenKind::Close(Balanced::Paren))
            ||| token_at(src, loc, TokenKind::Close(Balanced::Brace))
            ||| token_at(src, loc, TokenKind::Close(Balanced::Bracket))
        },
        EventKind::Primitive(p) => primitive_reads(src, loc, p),
        EventKind::Comment(c) => token_at(src, loc, TokenKind::Comment(c)),
    }
}

/// An event read from the source lies within it.
pub proof fn lemma_event_within(src: Seq<char>, ev: Event)
    requires
        event_reads(src, ev),
    ensures
        within(src, ev.location),
{
}

/// How an event of `kind` changes the nesting depth from `before` to `after`:
/// a start goes one deeper, an end one shallower and only from inside a nested
/// value, and any other event leaves the depth as it is.
pub open spec fn depth_step(before: nat, after: nat, kind: EventKind) -> bool {
    match kind {
        EventKind::BeginNested { .. } => after == before + 1,
        EventKind::EndNested => before > 0 && after == before - 1,
        _ => after == before,
    }
}

/// Where the reads `reads` of `src` leave the tokenizer, in bytes, as far as
/// the last of them fixes it: at the start before any read, at the end of the
/// token after a token, at the end of the source after its end.
pub open spec fn reads_end_at(src: Seq<char>, reads: Seq<TokenRead>, offset: int) -> bool {
    if reads.len() == 0 {
        offset == 0
    } else {
        match reads.last() {
            Some(Ok(tok)) => offset == tok.location.end,
            None => offset == byte_len(src),
            Some(Err(_)) => true,
        }
    }
}

/// `loc` lies within the source `src`.
pub open spec fn within(src: Seq<char>, loc: Range<usize>) -> bool {
    loc.start <= loc.end <= byte_len(src)
}

/// What a tuple or list expects next.
#[derive(Debug, Clone, Copy, PartialEq, Eq, Structural)]
pub enum ListStateExpecting {
    /// A value, or the end.
    Value,
    /// A comma, or the end.
    Comma,
}

/// What a map expects next.
#[derive(Debug, Clone, Copy, PartialEq, Eq, Structural)]
pub enum MapStateExpecting {
    /// A key, or the end.
    Key,
    /// The colon after a key.
    Colon,
    /// The value after a colon.
    Value,
    /// A comma, or the end.
    Comma,
}

/// What an open nested value expects next.
#[derive(Debug, Clone, Copy, PartialEq, Eq, Structural)]
pub enum NestedState {
    /// A tuple, delimited by parentheses.
    Tuple(ListStateExpecting),
    /// A list, delimited by brackets.
    List(ListStateExpecting),
    /// A map, delimited by braces.
    Mapping(MapStateExpecting),
}

impl NestedState {
    fn list(kind: Balanced, state: ListStateExpecting) -> (s: Self)
        requires
            kind != Balanced::Brace,
        ensures
            s == list_state(kind, state),
    {
        match kind {
            Balanced::Paren => NestedState::Tuple(state),
            Balanced::Bracket => NestedState::List(state),
            Balanced::Brace => vstd::pervasive::unreached(),
        }
    }
}

/// The state of a tuple or list that `kind` delimits, expecting `state`.
pub open spec fn list_state(kind: Balanced, state: ListStateExpecting) -> NestedState {
    if kind == Balanced::Paren {
        NestedState::Tuple(state)
    } else {
        NestedState::List(state)
    }
}

/// What a parser expects at the root of the document.
#[derive(Debug)]
pub enum State {
    /// The root value, which has not started.
    AtStart,
    /// The root is an implicit map whose start has been handed out; this is
    /// the event of its first key, to hand out next.
    StartingImplicitMap(Event),
    /// The root is an implicit map, which expects this.
    ImplicitMap(MapStateExpecting),
    /// The root value is complete.
    Finished,
}

/// Reads Rsn source as a sequence of [`Event`]s.
pub struct Parser {
    tokens: Tokenizer<false>,
    peeked: Option<Result<Token, tokenizer::Error>>,
    nested: Vec<(usize, NestedState)>,
    root_state: State,
    config: Config,
    history: Ghost<Seq<Event>>,
    reads: Ghost<Seq<TokenRead>>,
    outcomes: Ghost<Seq<Option<Result<Event, Error>>>>,
}

spec fn peeked_ok(src: Seq<char>, peeked: Option<Result<Token, tokenizer::Error>>) -> bool {
    match peeked {
        Some(Ok(t)) => token_at(src, t.location, t.kind) && !(t.kind is Whitespace),
        Some(Err(e)) => within(src, e.location),
        None => true,
    }
}

impl Parser {
    /// The characters of the source.
    pub closed spec fn src(&self) -> Seq<char> {
        self.tokens.src()
    }

    /// The configuration this parser was made with.
    pub closed spec fn config(&self) -> Config {
        self.config
    }

    /// The events handed out so far, in order.
    pub closed spec fn history(&self) -> Seq<Event> {
        self.history@
    }

    /// What the parser has read from its tokenizer, in order: tokens, errors,
    /// and `None` for each read at the end of the source.
    pub closed spec fn reads(&self) -> Seq<TokenRead> {
        self.reads@
    }

    /// The byte offset just past what the tokenizer has read.
    pub closed spec fn offset(&self) -> nat {
        crate::text::byte_offset(self.src(), self.tokens.pos() as int)
    }

    /// What the calls of `next` have given, one outcome per call.
    pub closed spec fn outcomes(&self) -> Seq<Option<Result<Event, Error>>> {
        self.outcomes@
    }

    /// The reads of the parser take its grammar from its start to its current
    /// state, giving the outcomes of its calls of `next`.
    pub open spec fn traced(&self) -> bool {
        ran(
            start_machine(self.config(), byte_len(self.src()) as usize),
            self.reads(),
            self.machine(),
            self.outcomes(),
        )
    }

    /// The state of the parser as its grammar sees it.
    pub closed spec fn machine(&self) -> Machine {
        Machine {
            nested: self.nested@,
            root: self.root_state,
            peeked: self.peeked,
            config: self.config,
            end: byte_len(self.src()) as usize,
        }
    }

    /// What `self` has read since it was `old`, when its reads extend those of
    /// `old`.
    pub open spec fn reads_since(&self, old: &Self) -> Seq<TokenRead> {
        self.reads().subrange(old.reads().len() as int, self.reads().len() as int)
    }

    /// The reads of `self` extend those of `old`.
    pub open spec fn extends(&self, old: &Self) -> bool {
        &&& old.reads().len() <= self.reads().len()
        &&& self.reads().subrange(0, old.reads().len() as int) == old.reads()
    }

    /// The number of nested values that the events so far have started and
    /// not yet ended.
    pub closed spec fn depth(&self) -> nat {
        let implicit: nat = match self.root_state {
            State::StartingImplicitMap(ev) => if ev.kind is BeginNested {
                0
            } else {
                1
            },
            State::ImplicitMap(_) => 1,
            _ => 0,
        };
        (self.nested.len() + implicit) as nat
    }

    /// A measure of the work left, which every event lowers.
    pub closed spec fn measure(&self) -> nat {
        let pending: nat = if self.peeked is Some {
            1
        } else {
            0
        };
        let rank: nat = match self.root_state {
            State::AtStart => 3,
            State::StartingImplicitMap(_) => 2,
            State::ImplicitMap(_) => 1,
            State::Finished => 0,
        };
        2 * ((self.tokens.src().len() - self.tokens.pos()) as nat + pending) + rank
    }

    /// No nested value delimited in the source is open.
    pub closed spec fn at_root(&self) -> bool {
        self.nested.len() == 0
    }

    /// The whole source has been read and every nested value has ended.
    pub closed spec fn at_end(&self) -> bool {
        &&& self.nested.len() == 0
        &&& (self.root_state is AtStart || self.root_state is Finished)
        &&& self.peeked is None
        &&& self.tokens.pos() == self.tokens.src().len()
    }

    /// The parser is internally consistent.
    pub closed spec fn inv(&self) -> bool {
        &&& self.tokens.inv()
        &&& lexes(self.src(), self.tokens.pos() as int, self.reads@)
        &&& peeked_ok(self.src(), self.peeked)
        &&& forall|i: int| 0 <= i < self.nested.len() ==> #[trigger] self.nested[i].0 <= byte_len(self.src())
        &&& forall|i: int| 0 <= i < self.history@.len() ==> event_reads(self.src(), #[trigger] self.history@[i])
        &&& match self.root_state {
            State::StartingImplicitMap(ev) => event_reads(self.src(), ev) && (ev.kind is Primitive
                || ev.kind is BeginNested),
            _ => true,
        }
    }

    /// `self` is `old` with its tokenizer moved on: same source, same
    /// configuration, same nesting.
    spec fn moved_on(&self, old: &Self) -> bool {
        &&& self.extends(old)
        &&& self.inv()
        &&& self.src() == old.src()
        &&& self.config == old.config
        &&& self.nested == old.nested
        &&& self.root_state == old.root_state
        &&& self.history == old.history
        &&& self.outcomes == old.outcomes
        &&& self.measure() <= old.measure()
    }

    /// `self` continues parsing the same source as `old`, with no more work
    /// left than `old` had.
    spec fn continues(&self, old: &Self) -> bool {
        &&& self.extends(old)
        &&& self.inv()
        &&& self.src() == old.src()
        &&& self.config == old.config
        &&& self.history == old.history
        &&& self.outcomes == old.outcomes
        &&& self.measure() <= old.measure()
    }

    /// A call of `next` that went from `old` to `self` keeps the parser traced.
    proof fn lemma_traced_step(&self, old: &Self)
        requires
            self.extends(old),
            self.src() == old.src(),
            self.config() == old.config(),
            self.outcomes().len() == old.outcomes().len() + 1,
            self.outcomes().drop_last() == old.outcomes(),
            next_kept(old.machine(), self.reads_since(old), self.machine(), self.outcomes().last()),
        ensures
            old.traced() ==> self.traced(),
    {
        let k = old.reads().len() as int;
        assert(self.reads().take(k) =~= old.reads());
        assert(self.reads().skip(k) =~= self.reads_since(old));
    }

    /// A parser's reads extend themselves, with nothing read since.
    proof fn lemma_extends_self(&self)
        ensures
            self.extends(self),
            self.reads_since(self) == Seq::<TokenRead>::empty(),
    {
        assert(self.reads@.subrange(0, self.reads@.len() as int) =~= self.reads@);
        assert(self.reads_since(self) =~= Seq::<TokenRead>::empty());
    }

    /// Reads that extend reads that extend `a` extend `a`, and what was read
    /// since `a` is what was read until `b` and then until `c`.
    proof fn lemma_extends_chain(a: &Self, b: &Self, c: &Self)
        requires
            b.extends(a),
            c.extends(b),
        ensures
            c.extends(a),
            c.reads_since(a) == b.reads_since(a) + c.reads_since(b),
    {
        assert(c.reads@.subrange(0, a.reads@.len() as int) =~= c.reads@.subrange(
            0,
            b.reads@.len() as int,
        ).subrange(0, a.reads@.len() as int));
        assert(c.reads_since(a) =~= b.reads_since(a) + c.reads_since(b)) by {
            assert forall|k: int| 0 <= k < b.reads_since(a).len() implies c.reads_since(a)[k]
                == b.reads_since(a)[k] by {
                assert(c.reads@.subrange(0, b.reads@.len() as int)[a.reads@.len() + k]
                    == b.reads@[a.reads@.len() + k]);
            }
        }
    }

    /// The depth is bounded by what the parser's nesting stack can hold.
    pub proof fn lemma_depth_bound(&self)
        ensures
            self.depth() <= usize::MAX + 1,
    {
    }

    /// What the parser has read is what a tokenizer reads of its source from
    /// the start.
    pub proof fn lemma_reads_lex(&self)
        requires
            self.inv(),
        ensures
            exists|q: int| lexes(self.src(), q, self.reads()),
    {
        assert(lexes(self.src(), self.tokens.pos() as int, self.reads()));
    }

    /// A parser that includes comments, compared with one of the same source
    /// that leaves them out: the calls of the second, reading a first part of
    /// the same token reads, give the outcomes of the first without its
    /// comments, in the same order and at the same locations; what is left of
    /// the reads holds only comments, which they pass over to reach the same
    /// state.
    pub proof fn lemma_leaving_out_comments(&self)
        requires
            self.inv(),
            self.traced(),
            self.config().include_comments,
        ensures
            exists|j: int, mf: Machine, n: nat|
                0 <= j <= self.reads().len() && #[trigger] ran(
                    start_machine(leaving_out_comments(self.config()), byte_len(self.src()) as usize),
                    self.reads().take(j),
                    mf,
                    without_comments(self.outcomes()),
                ) && mf.config == leaving_out_comments(self.config()) && #[trigger] skipped(
                    mf,
                    self.reads().skip(j),
                    with_config(self.machine(), leaving_out_comments(self.config())),
                    n,
                ),
    {
        lemma_comments_left_out(
            self.config(),
            byte_len(self.src()) as usize,
            self.reads(),
            self.machine(),
            self.outcomes(),
        );
    }

    /// The offset of the parser is where its reads leave the tokenizer.
    pub proof fn lemma_offset_of_reads(&self)
        requires
            self.inv(),
        ensures
            reads_end_at(self.src(), self.reads(), self.offset() as int),
    {
        let src = self.src();
        let q = self.tokens.pos() as int;
        if self.reads().len() == 0 {
            assert(src.take(0) =~= Seq::<char>::empty());
        } else if self.reads().last() is None {
            crate::text::lemma_byte_offset_end(src);
        }
    }

    /// Every event the parser has handed out is read from its source.
    pub proof fn lemma_history_reads(&self)
        requires
            self.inv(),
        ensures
            forall|i: int|
                0 <= i < self.history().len() ==> event_reads(self.src(), #[trigger] self.history()[i]),
    {
    }

    /// Returns a parser that parses `source` using `configuration`.
    pub fn new(source: &str, configuration: Config) -> (p: Self)
        ensures
            p.inv(),
            p.src() == source@,
            p.config() == configuration,
            p.depth() == 0,
            p.history() == Seq::<Event>::empty(),
            p.reads() == Seq::<TokenRead>::empty(),
            p.machine() == start_machine(configuration, byte_len(source@) as usize),
            p.outcomes() == Seq::<Option<Result<Event, Error>>>::empty(),
            p.traced(),
            nested_so_far(p.history(), p.depth()),
    {
        proof {
            assert(Seq::<Event>::empty().take(0) =~= Seq::<Event>::empty());
        }
        Self {
            tokens: Tokenizer::minified(source),
            peeked: None,
            nested: Vec::new(),
            root_state: State::AtStart,
            config: configuration,
            history: Ghost(Seq::empty()),
            reads: Ghost(Seq::empty()),
            outcomes: Ghost(Seq::empty()),
        }
    }

    /// Returns the current byte offset of the parser.
    pub fn current_offset(&self) -> (offset: usize)
        requires
            self.inv(),
        ensures
            offset == self.offset(),
            offset <= byte_len(self.src()),
            reads_end_at(self.src(), self.reads(), offset as int),
    {
        proof {
            self.lemma_offset_of_reads();
            crate::text::lemma_byte_offset_mono(self.src(), self.tokens.pos() as int, self.src().len() as int);
            crate::text::lemma_byte_offset_end(self.src());
        }
        self.tokens.current_offset()
    }

    /// Returns the range from the start of the innermost nested value (or of
    /// the source) to the current byte offset.
    pub fn current_range(&self) -> (r: Range<usize>)
        requires
            self.inv(),
        ensures
            r.end == self.offset(),
            r.start == (if self.machine().nested.len() == 0 {
                0
            } else {
                self.machine().nested.last().0
            }),
            r.end <= byte_len(self.src()),
            r.start <= byte_len(self.src()),
            self.at_root() ==> r.start == 0,
            reads_end_at(self.src(), self.reads(), r.end as int),
    {
        let start = if self.nested.len() == 0 {
            0
        } else {
            self.nested[self.nested.len() - 1].0
        };
        start..self.current_offset()
    }

    /// The empty range at the current offset, which is the end of the source.
    fn eof_range(&self) -> (r: Range<usize>)
        requires
            self.inv(),
            self.tokens.pos() == self.src().len(),
        ensures
            within(self.src(), r),
            r.start == r.end,
            r == end_range(self.machine()),
    {
        proof {
            crate::text::lemma_byte_offset_end(self.src());
        }
        let offset = self.current_offset();
        offset..offset
    }

    /// Reads the next token from the tokenizer.
    fn read_token(&mut self) -> (r: Option<Result<Token, tokenizer::Error>>)
        requires
            old(self).inv(),
            old(self).peeked is None,
        ensures
            final(self).moved_on(old(self)),
            final(self).peeked is None,
            peeked_ok(final(self).src(), r),
            r is Some ==> final(self).measure() < old(self).measure(),
            r is None ==> final(self).tokens.pos() == final(self).src().len(),
            final(self).reads() == old(self).reads().push(r),
            final(self).machine() == old(self).machine(),
    {
        let ghost p = self.tokens.pos() as int;
        let r = self.tokens.next();
        self.reads = Ghost(self.reads@.push(r));
        proof {
            assert(self.reads@.drop_last() =~= old(self).reads@);
            assert(read_step(self.src(), p, self.tokens.pos() as int, self.reads@.last()));
            assert(self.reads@.subrange(0, old(self).reads@.len() as int) =~= old(self).reads@);
        }
        r
    }

    /// Makes sure that the next token, if there is one, is held in `peeked`.
    fn peek(&mut self)
        requires
            old(self).inv(),
        ensures
            final(self).moved_on(old(self)),
            old(self).peeked is Some ==> *final(self) == *old(self),
            final(self).peeked is None ==> final(self).tokens.pos() == final(self).src().len(),
            look_ahead(old(self).machine(), final(self).reads_since(old(self))) == Some(
                (final(self).machine(), Seq::<TokenRead>::empty()),
            ),
    {
        if self.peeked.is_none() {
            self.peeked = self.read_token();
            proof {
                let d = self.reads_since(old(self));
                assert(d =~= seq![self.peeked]);
                assert(d.drop_first() =~= Seq::<TokenRead>::empty());
            }
        } else {
            proof {
                self.lemma_extends_self();
            }
        }
    }

    /// Takes the next token: the peeked one, if any, else a fresh one.
    fn next_token(&mut self) -> (r: Option<Result<Token, tokenizer::Error>>)
        requires
            old(self).inv(),
        ensures
            final(self).moved_on(old(self)),
            final(self).peeked is None,
            peeked_ok(final(self).src(), r),
            r is Some ==> final(self).measure() < old(self).measure(),
            r is None ==> final(self).tokens.pos() == final(self).src().len(),
            take(old(self).machine(), final(self).reads_since(old(self))) == Some(
                (final(self).machine(), r, Seq::<TokenRead>::empty()),
            ),
    {
        match self.peeked.take() {
            Some(r) => {
                proof {
                    self.lemma_extends_self();
                }
                Some(r)
            },
            None => {
                let r = self.read_token();
                proof {
                    let d = self.reads_since(old(self));
                    assert(d =~= seq![r]);
                    assert(d.drop_first() =~= Seq::<TokenRead>::empty());
                }
                r
            },
        }
    }

    /// Takes the next token as its range and kind; at the end of the source,
    /// the range is the empty one at the current offset and the kind `None`.
    fn next_token_parts(&mut self) -> (r: Result<(Range<usize>, Option<TokenKind>), Error>)
        requires
            old(self).inv(),
        ensures
            take(old(self).machine(), final(self).reads_since(old(self))) matches Some(
                (m1, read, rest),
            ) && rest.len() == 0 && m1 == final(self).machine() && r == parts_of(m1, read),
            final(self).moved_on(old(self)),
            final(self).peeked is None,
            r matches Ok((loc, Some(kind))) ==> token_at(final(self).src(), loc, kind) && !(
            kind is Whitespace) && final(self).measure() < old(self).measure(),
            r matches Ok((loc, None)) ==> within(final(self).src(), loc) && final(self).tokens.pos()
                == final(self).src().len(),
            r matches Err(e) ==> within(final(self).src(), e.location) && final(self).measure()
                < old(self).measure(),
    {
        match self.next_token() {
            Some(Ok(token)) => Ok((token.location, Some(token.kind))),
            Some(Err(err)) => Err(Error::from(err)),
            None => Ok((self.eof_range(), None)),
        }
    }

    /// Takes the next token; at the end of the source, fails with
    /// `UnexpectedEof`.
    fn next_or_eof(&mut self) -> (r: Result<Token, Error>)
        requires
            old(self).inv(),
        ensures
            take(old(self).machine(), final(self).reads_since(old(self))) matches Some(
                (m1, read, rest),
            ) && rest.len() == 0 && m1 == final(self).machine() && r == or_eof(m1, read),
            final(self).moved_on(old(self)),
            final(self).peeked is None,
            r matches Ok(t) ==> token_at(final(self).src(), t.location, t.kind) && !(
            t.kind is Whitespace) && final(self).measure() < old(self).measure(),
            r matches Err(e) ==> within(final(self).src(), e.location),
    {
        match self.next_token() {
            Some(Ok(token)) => Ok(token),
            Some(Err(err)) => Err(Error::from(err)),
            None => Err(Error::new(self.eof_range(), ErrorKind::UnexpectedEof)),
        }
    }
}

/// What a read becomes as a token's range and kind: at the end of the source,
/// the empty range there and no kind.
spec fn parts_of(m: Machine, read: TokenRead) -> Result<(Range<usize>, Option<TokenKind>), Error> {
    match read {
        Some(Ok(t)) => Ok((t.location, Some(t.kind))),
        Some(Err(e)) => Err(lexing_error(e)),
        None => Ok((end_range(m), None)),
    }
}

/// What a read becomes where a token must follow: at the end of the source,
/// an `UnexpectedEof` error there.
spec fn or_eof(m: Machine, read: TokenRead) -> Result<Token, Error> {
    match read {
        Some(Ok(t)) => Ok(t),
        Some(Err(e)) => Err(lexing_error(e)),
        None => Err(Error { location: end_range(m), kind: ErrorKind::UnexpectedEof }),
    }
}

/// The event result `r` fits the parser going from `old` to `new`: the parser
/// stays consistent on the same source, with no more work left; an event is
/// read from the source and changes the depth as its kind says; an error lies
/// within the source.
pub open spec fn produced(old: &Parser, new: &Parser, r: Result<Event, Error>) -> bool {
    &&& new.inv()
    &&& new.src() == old.src()
    &&& new.config() == old.config()
    &&& new.history() == old.history()
    &&& new.outcomes() == old.outcomes()
    &&& new.measure() <= old.measure()
    &&& match r {
        Ok(ev) => event_reads(new.src(), ev) && depth_step(old.depth(), new.depth(), ev.kind),
        Err(e) => within(new.src(), e.location),
    }
}

impl Parser {
    /// Replaces the state of the innermost nested value.
    fn set_top_state(&mut self, state: NestedState)
        requires
            old(self).inv(),
            old(self).nested.len() > 0,
        ensures
            final(self).inv(),
            final(self).nested@ == old(self).nested@.update(
                old(self).nested.len() - 1,
                (old(self).nested@.last().0, state),
            ),
            final(self).reads() == old(self).reads(),
            final(self).machine() == old(self).machine().with_top(state),
            final(self).tokens == old(self).tokens,
            final(self).peeked == old(self).peeked,
            final(self).root_state == old(self).root_state,
            final(self).config == old(self).config,
            final(self).history == old(self).history,
            final(self).outcomes == old(self).outcomes,
    {
        let n = self.nested.len();
        let offset = self.nested[n - 1].0;
        self.nested.set(n - 1, (offset, state));
    }

    /// Opens a nested value of `kind` whose opening delimiter starts at `start`.
    fn push_nested(&mut self, start: usize, state: NestedState)
        requires
            old(self).inv(),
            start <= byte_len(old(self).src()),
        ensures
            final(self).inv(),
            final(self).nested@ == old(self).nested@.push((start, state)),
            final(self).reads() == old(self).reads(),
            final(self).machine() == old(self).machine().pushed(start, state),
            final(self).tokens == old(self).tokens,
            final(self).peeked == old(self).peeked,
            final(self).root_state == old(self).root_state,
            final(self).config == old(self).config,
            final(self).history == old(self).history,
            final(self).outcomes == old(self).outcomes,
    {
        self.nested.push((start, state));
    }

    /// Turns `token` into an event. `allowed_close` is the closing delimiter
    /// that may end the innermost nested value here, if any.
    fn parse_token(&mut self, token: Token, allowed_close: Option<Balanced>) -> (r: Result<
        Event,
        Error,
    >)
        requires
            old(self).inv(),
            token_at(old(self).src(), token.location, token.kind),
            !(token.kind is Whitespace),
            allowed_close is Some ==> old(self).nested.len() > 0,
        ensures
            produced(old(self), final(self), r),
            final(self).root_state == old(self).root_state,
            r matches Ok(ev) ==> {
                &&& ev.kind is EndNested ==> allowed_close is Some
                &&& ev.kind is Comment ==> token.kind is Comment
            },
            final(self).extends(old(self)),
            token_event(old(self).machine(), token, allowed_close, final(self).reads_since(old(self)))
                == Some((final(self).machine(), r)),
    {
        proof {
            self.lemma_extends_self();
        }
        let Token { location, kind } = token;
        match kind {
            TokenKind::Integer(integer) => Ok(
                Event::new(location, EventKind::Primitive(Primitive::Integer(integer))),
            ),
            TokenKind::Float(float) => Ok(
                Event::new(location, EventKind::Primitive(Primitive::Float(float))),
            ),
            TokenKind::Bool(value) => Ok(
                Event::new(location, EventKind::Primitive(Primitive::Bool(value))),
            ),
            TokenKind::Character(value) => Ok(
                Event::new(location, EventKind::Primitive(Primitive::Char(value))),
            ),
            TokenKind::Byte(value) => Ok(
                Event::new(
                    location,
                    EventKind::Primitive(Primitive::Integer(Integer::Usize(value as usize))),
                ),
            ),
            TokenKind::String(value) => Ok(
                Event::new(location, EventKind::Primitive(Primitive::String(value))),
            ),
            TokenKind::Bytes(value) => Ok(
                Event::new(location, EventKind::Primitive(Primitive::Bytes(value))),
            ),
            TokenKind::Identifier(value) => self.parse_identifier(location, value),
            TokenKind::Open(Balanced::Paren) => {
                self.push_nested(location.start, NestedState::Tuple(ListStateExpecting::Value));
                Ok(Event::new(location, EventKind::BeginNested { name: None, kind: Nested::Tuple }))
            },
            TokenKind::Open(Balanced::Bracket) => {
                self.push_nested(location.start, NestedState::List(ListStateExpecting::Value));
                Ok(Event::new(location, EventKind::BeginNested { name: None, kind: Nested::List }))
            },
            TokenKind::Open(Balanced::Brace) => {
                self.push_nested(location.start, NestedState::Mapping(MapStateExpecting::Key));
                Ok(
                    Event::new(
                        location,
                        EventKind::BeginNested { name: None, kind: Nested::Mapping },
                    ),
                )
            },
            TokenKind::Close(closed) => {
                let allowed = match allowed_close {
                    Some(close) => close == closed,
                    None => false,
                };
                if allowed {
                    self.nested.pop();
                    Ok(Event::new(location, EventKind::EndNested))
                } else {
                    Err(Error::new(location, ErrorKind::ExpectedValue))
                }
            },
            TokenKind::Colon | TokenKind::Comma => Err(
                Error::new(location, ErrorKind::ExpectedValue),
            ),
            TokenKind::Comment(comment) => Ok(Event::new(location, EventKind::Comment(comment))),
            TokenKind::Whitespace(_) => vstd::pervasive::unreached(),
        }
    }

    /// Reads what follows the name `value` at `location`: `(` or `{` start a
    /// named tuple or map, `[` is an error, anything else leaves `value` an
    /// identifier.
    fn parse_identifier(&mut self, location: Range<usize>, value: String) -> (r: Result<
        Event,
        Error,
    >)
        requires
            old(self).inv(),
            token_at(old(self).src(), location, TokenKind::Identifier(value)),
        ensures
            produced(old(self), final(self), r),
            final(self).root_state == old(self).root_state,
            r matches Ok(ev) ==> ev.kind is Primitive || ev.kind is BeginNested,
            final(self).extends(old(self)),
            identifier_event(old(self).machine(), location, value, final(self).reads_since(old(self)))
                == Some((final(self).machine(), r)),
    {
        self.peek();
        match self.peeked.take() {
            Some(Ok(open)) => {
                let named = match &open.kind {
                    TokenKind::Open(Balanced::Paren) => Some(Nested::Tuple),
                    TokenKind::Open(Balanced::Brace) => Some(Nested::Mapping),
                    _ => None,
                };
                let is_list = match &open.kind {
                    TokenKind::Open(Balanced::Bracket) => true,
                    _ => false,
                };
                match named {
                    Some(kind) => {
                        let state = if kind == Nested::Tuple {
                            NestedState::Tuple(ListStateExpecting::Value)
                        } else {
                            NestedState::Mapping(MapStateExpecting::Key)
                        };
                        self.push_nested(open.location.start, state);
                        Ok(
                            Event::new(
                                open.location,
                                EventKind::BeginNested {
                                    name: Some(Name { location, name: value }),
                                    kind,
                                },
                            ),
                        )
                    },
                    None => {
                        if is_list {
                            let error_location = open.location.start..open.location.end;
                            self.peeked = Some(Ok(open));
                            Err(Error::new(error_location, ErrorKind::ExpectedMapOrTuple))
                        } else {
                            self.peeked = Some(Ok(open));
                            Ok(
                                Event::new(
                                    location,
                                    EventKind::Primitive(Primitive::Identifier(value)),
                                ),
                            )
                        }
                    },
                }
            },
            other => {
                self.peeked = other;
                Ok(Event::new(location, EventKind::Primitive(Primitive::Identifier(value))))
            },
        }
    }
}

impl Parser {
    /// Reads the next event inside a tuple or list that `end` closes, whose
    /// state is `state`.
    fn parse_sequence(&mut self, state: ListStateExpecting, end: Balanced) -> (r: Result<
        Event,
        Error,
    >)
        requires
            old(self).inv(),
            end != Balanced::Brace,
            old(self).nested.len() > 0,
            old(self).nested@.last().1 == list_state(end, state),
        ensures
            produced(old(self), final(self), r),
            final(self).root_state == old(self).root_state,
            r is Ok ==> final(self).measure() < old(self).measure(),
            final(self).extends(old(self)),
            sequence_event(old(self).machine(), state, end, final(self).reads_since(old(self)))
                == Some((final(self).machine(), r)),
        decreases
                if state == ListStateExpecting::Comma {
                    1int
                } else {
                    0
                },
    {
        let ghost m0 = self.machine();
        match state {
            ListStateExpecting::Value => {
                let token = match self.next_or_eof() {
                    Ok(token) => token,
                    Err(err) => {
                        return Err(err);
                    },
                };
                let ghost mid = *self;
                let Token { location, kind } = token;
                match kind {
                    TokenKind::Comment(comment) => Ok(
                        Event::new(location, EventKind::Comment(comment)),
                    ),
                    kind => {
                        self.set_top_state(NestedState::list(end, ListStateExpecting::Comma));
                        let r = self.parse_token(Token::new(location, kind), Some(end));
                        proof {
                            Self::lemma_extends_chain(old(self), &mid, self);
                            lemma_take_append(m0, mid.reads_since(old(self)), self.reads_since(&mid));
                        }
                        r
                    },
                }
            },
            ListStateExpecting::Comma => match self.next_token_parts() {
                Err(err) => Err(err),
                Ok((location, Some(TokenKind::Close(closed)))) if closed == end => {
                    self.nested.pop();
                    Ok(Event::new(location, EventKind::EndNested))
                },
                Ok((_, Some(TokenKind::Comma))) => {
                    let ghost mid = *self;
                    self.set_top_state(NestedState::list(end, ListStateExpecting::Value));
                    let r = self.parse_sequence(ListStateExpecting::Value, end);
                    proof {
                        Self::lemma_extends_chain(old(self), &mid, self);
                        lemma_take_append(m0, mid.reads_since(old(self)), self.reads_since(&mid));
                    }
                    r
                },
                Ok((location, Some(TokenKind::Comment(comment)))) => Ok(
                    Event::new(location, EventKind::Comment(comment)),
                ),
                Ok((location, _)) => Err(
                    Error::new(location, ErrorKind::ExpectedCommaOrEnd(Nested::from(end))),
                ),
            },
        }
    }

    /// Reads the next event inside a map whose state is `state`.
    fn parse_map(&mut self, state: MapStateExpecting) -> (r: Result<Event, Error>)
        requires
            old(self).inv(),
            old(self).nested.len() > 0,
            old(self).nested@.last().1 == NestedState::Mapping(state),
        ensures
            produced(old(self), final(self), r),
            final(self).root_state == old(self).root_state,
            r is Ok ==> final(self).measure() < old(self).measure(),
            final(self).extends(old(self)),
            map_event(old(self).machine(), state, final(self).reads_since(old(self))) == Some(
                (final(self).machine(), r),
            ),
        decreases
                if state == MapStateExpecting::Colon || state == MapStateExpecting::Comma {
                    1int
                } else {
                    0
                },
    {
        let ghost m0 = self.machine();
        match state {
            MapStateExpecting::Key => match self.next_token() {
                Some(Ok(token)) => {
                    let ghost mid = *self;
                    let Token { location, kind } = token;
                    match kind {
                        TokenKind::Comment(comment) => Ok(
                            Event::new(location, EventKind::Comment(comment)),
                        ),
                        kind => {
                            self.set_top_state(NestedState::Mapping(MapStateExpecting::Colon));
                            let r = self.parse_token(Token::new(location, kind), Some(Balanced::Brace));
                            proof {
                                Self::lemma_extends_chain(old(self), &mid, self);
                                lemma_take_append(m0, mid.reads_since(old(self)), self.reads_since(&mid));
                            }
                            r
                        },
                    }
                },
                Some(Err(err)) => Err(Error::from(err)),
                None => Err(Error::new(self.eof_range(), ErrorKind::ExpectedKey)),
            },
            MapStateExpecting::Colon => match self.next_token_parts() {
                Err(err) => Err(err),
                Ok((_, Some(TokenKind::Colon))) => {
                    let ghost mid = *self;
                    self.set_top_state(NestedState::Mapping(MapStateExpecting::Value));
                    let r = self.parse_map(MapStateExpecting::Value);
                    proof {
                        Self::lemma_extends_chain(old(self), &mid, self);
                        lemma_take_append(m0, mid.reads_since(old(self)), self.reads_since(&mid));
                    }
                    r
                },
                Ok((location, Some(TokenKind::Comment(comment)))) => Ok(
                    Event::new(location, EventKind::Comment(comment)),
                ),
                Ok((location, _)) => Err(Error::new(location, ErrorKind::ExpectedColon)),
            },
            MapStateExpecting::Value => match self.next_token() {
                Some(Ok(token)) => {
                    let ghost mid = *self;
                    let Token { location, kind } = token;
                    match kind {
                        TokenKind::Comment(comment) => Ok(
                            Event::new(location, EventKind::Comment(comment)),
                        ),
                        kind => {
                            self.set_top_state(NestedState::Mapping(MapStateExpecting::Comma));
                            let r = self.parse_token(Token::new(location, kind), None);
                            proof {
                                Self::lemma_extends_chain(old(self), &mid, self);
                                lemma_take_append(m0, mid.reads_since(old(self)), self.reads_since(&mid));
                            }
                            r
                        },
                    }
                },
                Some(Err(err)) => Err(Error::from(err)),
                None => Err(Error::new(self.eof_range(), ErrorKind::ExpectedValue)),
            },
            MapStateExpecting::Comma => match self.next_token_parts() {
                Err(err) => Err(err),
                Ok((location, Some(TokenKind::Close(Balanced::Brace)))) => {
                    self.nested.pop();
                    Ok(Event::new(location, EventKind::EndNested))
                },
                Ok((_, Some(TokenKind::Comma))) => {
                    let ghost mid = *self;
                    self.set_top_state(NestedState::Mapping(MapStateExpecting::Key));
                    let r = self.parse_map(MapStateExpecting::Key);
                    proof {
                        Self::lemma_extends_chain(old(self), &mid, self);
                        lemma_take_append(m0, mid.reads_since(old(self)), self.reads_since(&mid));
                    }
                    r
                },
                Ok((location, Some(TokenKind::Comment(comment)))) => Ok(
                    Event::new(location, EventKind::Comment(comment)),
                ),
                Ok((location, _)) => Err(
                    Error::new(location, ErrorKind::ExpectedCommaOrEnd(Nested::Mapping)),
                ),
            },
        }
    }
}

impl Parser {
    /// Turns `token` into the key of an entry of the implicit root map, which
    /// must be a primitive; the map then expects a colon.
    fn parse_implicit_key(&mut self, token: Token) -> (r: Result<Event, Error>)
        requires
            old(self).inv(),
            old(self).nested.len() == 0,
            old(self).root_state is ImplicitMap,
            token_at(old(self).src(), token.location, token.kind),
            !(token.kind is Whitespace),
        ensures
            produced(old(self), final(self), r),
            r is Ok ==> final(self).root_state == State::ImplicitMap(MapStateExpecting::Colon),
            r is Err ==> final(self).root_state == old(self).root_state,
            final(self).extends(old(self)),
            implicit_key_event(old(self).machine(), token, final(self).reads_since(old(self)))
                == Some((final(self).machine(), r)),
    {
        match self.parse_token(token, None) {
            Ok(event) => {
                let Event { location, kind } = event;
                match kind {
                    EventKind::Primitive(primitive) => {
                        self.root_state = State::ImplicitMap(MapStateExpecting::Colon);
                        Ok(Event::new(location, EventKind::Primitive(primitive)))
                    },
                    _ => Err(Error::new(location, ErrorKind::ExpectedKey)),
                }
            },
            Err(err) => Err(err),
        }
    }

    /// Reads the next event of the implicit map at the root, whose state is
    /// `state`.
    #[verifier::spinoff_prover]
    #[verifier::rlimit(40)]
    fn parse_implicit_map(&mut self, state: MapStateExpecting) -> (r: Result<Event, Error>)
        requires
            old(self).inv(),
            old(self).nested.len() == 0,
            old(self).root_state == State::ImplicitMap(state),
        ensures
            produced(old(self), final(self), r),
            r is Ok ==> final(self).measure() < old(self).measure(),
            final(self).extends(old(self)),
            implicit_map_event(old(self).machine(), state, final(self).reads_since(old(self)))
                == Some((final(self).machine(), r)),
        decreases
                if state == MapStateExpecting::Colon || state == MapStateExpecting::Comma {
                    1int
                } else {
                    0
                },
    {
        let ghost m0 = self.machine();
        proof {
            crate::text::lemma_byte_offset_end(self.src());
        }
        match state {
            MapStateExpecting::Key => match self.next_token() {
                Some(Ok(token)) => {
                    let ghost mid = *self;
                    let Token { location, kind } = token;
                    match kind {
                        TokenKind::Comment(comment) => Ok(
                            Event::new(location, EventKind::Comment(comment)),
                        ),
                        kind => {
                            let r = self.parse_implicit_key(Token::new(location, kind));
                            proof {
                                Self::lemma_extends_chain(old(self), &mid, self);
                                lemma_take_append(m0, mid.reads_since(old(self)), self.reads_since(&mid));
                            }
                            r
                        },
                    }
                },
                Some(Err(err)) => Err(Error::from(err)),
                None => {
                    self.root_state = State::Finished;
                    Ok(Event::new(self.current_range(), EventKind::EndNested))
                },
            },
            MapStateExpecting::Colon => match self.next_token_parts() {
                Err(err) => Err(err),
                Ok((_, Some(TokenKind::Colon))) => {
                    let ghost mid = *self;
                    self.root_state = State::ImplicitMap(MapStateExpecting::Value);
                    let r = self.parse_implicit_map(MapStateExpecting::Value);
                    proof {
                        Self::lemma_extends_chain(old(self), &mid, self);
                        lemma_take_append(m0, mid.reads_since(old(self)), self.reads_since(&mid));
                    }
                    r
                },
                Ok((location, Some(TokenKind::Comment(comment)))) => Ok(
                    Event::new(location, EventKind::Comment(comment)),
                ),
                Ok((location, _)) => Err(Error::new(location, ErrorKind::ExpectedColon)),
            },
            MapStateExpecting::Value => match self.next_token() {
                Some(Ok(token)) => {
                    let ghost mid = *self;
                    let Token { location, kind } = token;
                    match kind {
                        TokenKind::Comment(comment) => Ok(
                            Event::new(location, EventKind::Comment(comment)),
                        ),
                        kind => {
                            self.root_state = State::ImplicitMap(MapStateExpecting::Comma);
                            let r = self.parse_token(Token::new(location, kind), None);
                            proof {
                                Self::lemma_extends_chain(old(self), &mid, self);
                                lemma_take_append(m0, mid.reads_since(old(self)), self.reads_since(&mid));
                            }
                            r
                        },
                    }
                },
                Some(Err(err)) => Err(Error::from(err)),
                None => Err(Error::new(self.eof_range(), ErrorKind::ExpectedValue)),
            },
            MapStateExpecting::Comma => match self.next_token() {
                Some(Ok(token)) => {
                    let ghost mid = *self;
                    let Token { location, kind } = token;
                    match kind {
                        TokenKind::Comment(comment) => Ok(
                            Event::new(location, EventKind::Comment(comment)),
                        ),
                        TokenKind::Close(Balanced::Brace) => {
                            self.root_state = State::Finished;
                            Ok(Event::new(location, EventKind::EndNested))
                        },
                        TokenKind::Comma => {
                            self.root_state = State::ImplicitMap(MapStateExpecting::Key);
                            let r = self.parse_implicit_map(MapStateExpecting::Key);
                            proof {
                                Self::lemma_extends_chain(old(self), &mid, self);
                                lemma_take_append(m0, mid.reads_since(old(self)), self.reads_since(&mid));
                            }
                            r
                        },
                        kind => {
                            self.root_state = State::ImplicitMap(MapStateExpecting::Colon);
                            let r = self.parse_implicit_key(Token::new(location, kind));
                            proof {
                                Self::lemma_extends_chain(old(self), &mid, self);
                                lemma_take_append(m0, mid.reads_since(old(self)), self.reads_since(&mid));
                            }
                            r
                        },
                    }
                },
                Some(Err(err)) => Err(Error::from(err)),
                None => {
                    self.root_state = State::Finished;
                    Ok(Event::new(self.current_range(), EventKind::EndNested))
                },
            },
        }
    }
}

/// The change in nesting depth that an event of `kind` makes.
pub open spec fn depth_delta(kind: EventKind) -> int {
    match kind {
        EventKind::BeginNested { .. } => 1,
        EventKind::EndNested => -1,
        _ => 0,
    }
}

/// The nesting depth after `events`, starting from the root.
pub open spec fn depth_after(events: Seq<Event>) -> int
    decreases events.len(),
{
    if events.len() == 0 {
        0
    } else {
        depth_after(events.drop_last()) + depth_delta(events.last().kind)
    }
}

/// The events so far are nested as `depth` says: no first part of them ends
/// more nested values than it begins, and they leave `depth` of them open.
pub open spec fn nested_so_far(events: Seq<Event>, depth: nat) -> bool {
    &&& depth_after(events) == depth
    &&& forall|i: int| 0 <= i <= events.len() ==> depth_after(#[trigger] events.take(i)) >= 0
}

/// An event that steps the depth as its kind says keeps the events nested
/// as the depth says.
pub proof fn lemma_nested_push(events: Seq<Event>, ev: Event, before: nat, after: nat)
    requires
        nested_so_far(events, before),
        depth_step(before, after, ev.kind),
    ensures
        nested_so_far(events.push(ev), after),
{
    assert(events.push(ev).drop_last() =~= events);
    assert forall|i: int| 0 <= i <= events.len() + 1 implies depth_after(
        #[trigger] events.push(ev).take(i),
    ) >= 0 by {
        if i <= events.len() {
            assert(events.push(ev).take(i) =~= events.take(i));
        } else {
            assert(events.push(ev).take(i) =~= events.push(ev));
        }
    }
}

/// Every end in `events` closes a start before it, and every start is closed.
pub open spec fn well_nested(events: Seq<Event>) -> bool {
    &&& forall|i: int| 0 <= i <= events.len() ==> depth_after(#[trigger] events.take(i)) >= 0
    &&& depth_after(events) == 0
}

impl Parser {
    /// Reads the first event at the root.
    #[verifier::spinoff_prover]
    #[verifier::rlimit(40)]
    fn parse_at_start(&mut self) -> (r: Option<Result<Event, Error>>)
        requires
            old(self).inv(),
            old(self).nested.len() == 0,
            old(self).root_state is AtStart,
        ensures
            r matches Some(result) ==> produced(old(self), final(self), result),
            r is Some ==> final(self).measure() < old(self).measure(),
            r is None ==> final(self).at_end() && final(self).continues(old(self))
                && final(self).depth() == old(self).depth(),
            final(self).extends(old(self)),
            start_event(old(self).machine(), final(self).reads_since(old(self))) == Some(
                (final(self).machine(), r),
            ),
    {
        let ghost m0 = self.machine();
        let token = match self.next_token() {
            Some(Ok(token)) => token,
            Some(Err(err)) => {
                return Some(Err(Error::from(err)));
            },
            None => {
                return None;
            },
        };
        let ghost s1 = *self;
        let Token { location, kind } = token;
        match kind {
            TokenKind::Comment(comment) => Some(
                Ok(Event::new(location, EventKind::Comment(comment))),
            ),
            kind => {
                let token = Token::new(location, kind);
                let implicit = if self.config.allow_implicit_map_at_root {
                    self.peek();
                    self.peeked_is_colon()
                } else {
                    proof {
                        self.lemma_extends_self();
                    }
                    false
                };
                let ghost s2 = *self;
                if implicit {
                    let r = match self.parse_token(token, None) {
                        Ok(event) => {
                            self.root_state = State::StartingImplicitMap(event);
                            Some(
                                Ok(
                                    Event::new(
                                        0..0,
                                        EventKind::BeginNested { name: None, kind: Nested::Mapping },
                                    ),
                                ),
                            )
                        },
                        Err(err) => Some(Err(err)),
                    };
                    proof {
                        Self::lemma_extends_chain(&s1, &s2, self);
                        Self::lemma_extends_chain(old(self), &s1, self);
                        lemma_take_append(m0, s1.reads_since(old(self)), self.reads_since(&s1));
                        lemma_look_ahead_append(s1.machine(), s2.reads_since(&s1), self.reads_since(&s2));
                    }
                    r
                } else {
                    self.root_state = State::Finished;
                    let r = Some(self.parse_token(token, None));
                    proof {
                        Self::lemma_extends_chain(&s1, &s2, self);
                        Self::lemma_extends_chain(old(self), &s1, self);
                        lemma_take_append(m0, s1.reads_since(old(self)), self.reads_since(&s1));
                        if s1.config.allow_implicit_map_at_root {
                            lemma_look_ahead_append(
                                s1.machine(),
                                s2.reads_since(&s1),
                                self.reads_since(&s2),
                            );
                        }
                    }
                    r
                }
            },
        }
    }

    /// Whether the peeked token is a colon.
    fn peeked_is_colon(&self) -> (b: bool)
        ensures
            b == (self.peeked matches Some(Ok(token)) && token.kind is Colon),
    {
        match &self.peeked {
            Some(Ok(token)) => match &token.kind {
                TokenKind::Colon => true,
                _ => false,
            },
            _ => false,
        }
    }

    /// Hands out the first key of the implicit root map, which was read while
    /// deciding that the root is an implicit map.
    fn resume_implicit_map(&mut self) -> (r: Result<Event, Error>)
        requires
            old(self).inv(),
            old(self).nested.len() == 0,
            old(self).root_state is StartingImplicitMap,
        ensures
            produced(old(self), final(self), r),
            r is Ok,
            final(self).measure() < old(self).measure(),
            final(self).extends(old(self)),
            resume_event(old(self).machine(), final(self).reads_since(old(self))) == Some(
                (final(self).machine(), r),
            ),
    {
        proof {
            self.lemma_extends_self();
        }
        let mut state = State::ImplicitMap(MapStateExpecting::Colon);
        core::mem::swap(&mut state, &mut self.root_state);
        match state {
            State::StartingImplicitMap(event) => Ok(event),
            _ => vstd::pervasive::unreached(),
        }
    }

    /// Reads what follows the complete root value: only comments may.
    fn parse_after_root(&mut self) -> (r: Option<Result<Event, Error>>)
        requires
            old(self).inv(),
            old(self).nested.len() == 0,
            old(self).root_state is Finished,
        ensures
            r matches Some(result) ==> produced(old(self), final(self), result),
            r is Some ==> final(self).measure() < old(self).measure(),
            r is None ==> final(self).at_end() && final(self).continues(old(self))
                && final(self).depth() == old(self).depth(),
            final(self).extends(old(self)),
            after_root_event(old(self).machine(), final(self).reads_since(old(self))) == Some(
                (final(self).machine(), r),
            ),
    {
        match self.next_token() {
            Some(Ok(token)) => {
                let Token { location, kind } = token;
                match kind {
                    TokenKind::Comment(comment) => Some(
                        Ok(Event::new(location, EventKind::Comment(comment))),
                    ),
                    _ => Some(Err(Error::new(location, ErrorKind::TrailingData))),
                }
            },
            Some(Err(err)) => Some(Err(Error::from(err))),
            None => None,
        }
    }

    /// Reads the next event, comments included.
    fn next_event(&mut self) -> (r: Option<Result<Event, Error>>)
        requires
            old(self).inv(),
        ensures
            r matches Some(result) ==> produced(old(self), final(self), result),
            r matches Some(Ok(_)) ==> final(self).measure() < old(self).measure(),
            r is None ==> final(self).at_end() && final(self).continues(old(self))
                && final(self).depth() == old(self).depth(),
            final(self).extends(old(self)),
            next_event(old(self).machine(), final(self).reads_since(old(self))) == Some(
                (final(self).machine(), r),
            ),
    {
        if self.nested.len() == 0 {
            match &self.root_state {
                State::AtStart => self.parse_at_start(),
                State::StartingImplicitMap(_) => Some(self.resume_implicit_map()),
                State::ImplicitMap(state) => {
                    let state = *state;
                    Some(self.parse_implicit_map(state))
                },
                State::Finished => self.parse_after_root(),
            }
        } else {
            let top = self.nested[self.nested.len() - 1].1;
            match top {
                NestedState::Tuple(state) => Some(self.parse_sequence(state, Balanced::Paren)),
                NestedState::List(state) => Some(self.parse_sequence(state, Balanced::Bracket)),
                NestedState::Mapping(state) => Some(self.parse_map(state)),
            }
        }
    }

    /// Reads the next event. Comments are reported only when the
    /// configuration includes them. Returns `None` once the source has been
    /// read completely.
    ///
    /// Every event is read from the source and keeps the nesting depth
    /// accounted: an [`EventKind::EndNested`] only ends a nested value that an
    /// earlier [`EventKind::BeginNested`] started. Each event lowers the
    /// work left, so a caller that stops at the first error reaches the end.
    #[verifier::spinoff_prover]
    #[verifier::rlimit(40)]
    pub fn next(&mut self) -> (r: Option<Result<Event, Error>>)
        requires
            old(self).inv(),
        ensures
            final(self).inv(),
            final(self).src() == old(self).src(),
            final(self).config() == old(self).config(),
            final(self).measure() <= old(self).measure(),
            r is None ==> final(self).at_end() && old(self).depth() == 0 && final(self).depth() == 0,
            r matches Some(Ok(ev)) ==> final(self).history() == old(self).history().push(ev),
            !(r matches Some(Ok(_))) ==> final(self).history() == old(self).history(),
            r matches Some(Ok(ev)) ==> {
                &&& final(self).measure() < old(self).measure()
                &&& event_reads(final(self).src(), ev)
                &&& depth_step(old(self).depth(), final(self).depth(), ev.kind)
                &&& !old(self).config().include_comments ==> !(ev.kind is Comment)
            },
            r matches Some(Err(e)) ==> within(final(self).src(), e.location),
            final(self).extends(old(self)),
            next_kept(old(self).machine(), final(self).reads_since(old(self)), final(self).machine(), r),
            final(self).outcomes() == old(self).outcomes().push(r),
            old(self).traced() ==> final(self).traced(),
            r is None ==> final(self).offset() == byte_len(final(self).src()),
            nested_so_far(old(self).history(), old(self).depth()) && (r matches Some(Ok(_))) ==> nested_so_far(
                final(self).history(),
                final(self).depth(),
            ),
            nested_so_far(old(self).history(), old(self).depth()) && r is None ==> well_nested(
                final(self).history(),
            ),
    {
        let ghost mut skips: nat = 0;
        proof {
            self.lemma_extends_self();
        }
        loop
            invariant
                self.inv(),
                self.src() == old(self).src(),
                self.config == old(self).config,
                self.measure() <= old(self).measure(),
                self.depth() == old(self).depth(),
                self.history() == old(self).history(),
                self.outcomes() == old(self).outcomes(),
                self.extends(old(self)),
                skipped(old(self).machine(), self.reads_since(old(self)), self.machine(), skips),
            decreases self.measure(),
        {
            let ghost before = *self;
            let event = self.next_event();
            let ghost since = self.reads_since(old(self));
            let ghost i = before.reads_since(old(self)).len() as int;
            proof {
                Self::lemma_extends_chain(old(self), &before, self);
                assert(since.take(i) =~= before.reads_since(old(self)));
                assert(since.skip(i) =~= self.reads_since(&before));
            }
            let event = match event {
                Some(event) => event,
                None => {
                    proof {
                        assert(skipped(old(self).machine(), since.take(i), before.machine(), skips));
                        assert(next_kept(old(self).machine(), since, self.machine(), None));
                    }
                    self.outcomes = Ghost(self.outcomes@.push(None));
                    proof {
                        crate::text::lemma_byte_offset_end(self.src());
                        assert(self.outcomes@.drop_last() =~= old(self).outcomes@);
                        self.lemma_traced_step(old(self));
                    }
                    return None;
                },
            };
            let keep = match &event {
                Ok(ev) => self.config.include_comments || match &ev.kind {
                    EventKind::Comment(_) => false,
                    _ => true,
                },
                Err(_) => true,
            };
            if keep {
                if let Ok(ev) = &event {
                    self.history = Ghost(self.history@.push(*ev));
                }
                proof {
                    assert(skipped(old(self).machine(), since.take(i), before.machine(), skips));
                    assert(next_kept(old(self).machine(), since, self.machine(), Some(event)));
                }
                self.outcomes = Ghost(self.outcomes@.push(Some(event)));
                proof {
                    assert(self.outcomes@.drop_last() =~= old(self).outcomes@);
                    self.lemma_traced_step(old(self));
                    if event is Ok && nested_so_far(old(self).history(), old(self).depth()) {
                        lemma_nested_push(old(self).history(), event->Ok_0, old(self).depth(), self.depth());
                    }
                }
                return Some(event);
            }
            proof {
                assert(skipped(old(self).machine(), since.take(i), before.machine(), skips));
                skips = skips + 1;
            }
        }
    }

    /// Returns whether `source` parses without error using `configuration`.
    ///
    /// When it does, the events read form a well nested sequence.
    pub fn validate(source: &str, configuration: Config) -> (valid: bool)
        ensures
            valid ==> exists|events: Seq<Event>|
                {
                    &&& well_nested(events)
                    &&& forall|i: int| 0 <= i < events.len() ==> event_reads(source@, #[trigger] events[i])
                },
            exists|reads: Seq<TokenRead>, q: int|
                #![trigger lexes(source@, q, reads)]
                lexes(source@, q, reads) && run_ends(
                    start_machine(configuration, byte_len(source@) as usize),
                    reads,
                    valid,
                ),
    {
        let mut parser = Parser::new(source, configuration);
        let ghost m0 = parser.machine();
        let ghost mut events: Seq<Event> = Seq::empty();

        loop
            invariant
                parser.inv(),
                parser.src() == source@,
                parser.config() == configuration,
                m0 == start_machine(configuration, byte_len(source@) as usize),
                depth_after(events) == parser.depth(),
                forall|i: int| 0 <= i <= events.len() ==> depth_after(#[trigger] events.take(i)) >= 0,
                forall|i: int| 0 <= i < events.len() ==> event_reads(source@, #[trigger] events[i]),
                parser.traced(),
                forall|k: int| 0 <= k < parser.outcomes().len() ==> #[trigger] parser.outcomes()[k] matches Some(Ok(_)),
            decreases parser.measure(),
        {
            let ghost prev = parser;
            let r = parser.next();
            proof {
                assert(lexes(source@, parser.tokens.pos() as int, parser.reads()));
                let outs = parser.outcomes();
                assert(events_then(outs)) by {
                    assert forall|k: int| 0 <= k < outs.len() - 1 implies #[trigger] outs[k] matches Some(Ok(_)) by {
                        assert(outs[k] == prev.outcomes()[k]);
                    }
                }
                assert(ran(m0, parser.reads(), parser.machine(), outs));
            }
            match r {
                None => {
                    assert(well_nested(events));
                    return true;
                },
                Some(Err(_)) => {
                    return false;
                },
                Some(Ok(ev)) => {
                    proof {
                        let before = events;
                        events = events.push(ev);
                        assert(events.drop_last() =~= before);
                        assert forall|i: int| 0 <= i <= events.len() implies depth_after(
                            #[trigger] events.take(i),
                        ) >= 0 by {
                            if i < events.len() {
                                assert(events.take(i) =~= before.take(i));
                            } else {
                                assert(events.take(i) =~= events);
                            }
                        }
                        assert forall|k: int| 0 <= k < parser.outcomes().len() implies #[trigger] parser.outcomes()[k] matches Some(Ok(_)) by {
                            if k < prev.outcomes().len() {
                                assert(parser.outcomes()[k] == prev.outcomes()[k]);
                            }
                        }
                    }
                },
            }
        }
    }
}

} // verus!
