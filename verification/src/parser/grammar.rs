use core::ops::Range;

use vstd::prelude::*;

use crate::parser::{
    list_state, Config, Error, ErrorKind, Event, EventKind, ListStateExpecting, MapStateExpecting,
    Name, Nested, NestedState, Primitive, State,
};
use crate::tokenizer::{self, Balanced, Integer, Token, TokenKind};

verus! {

/// What one read of the tokenizer gave: a token, an error, or `None` at the
/// end of the source.
pub type TokenRead = Option<Result<Token, tokenizer::Error>>;

/// What a parser holds between two events, as its grammar sees it.
pub struct Machine {
    /// The nested values that are open, innermost last: the offset where each
    /// starts and what it expects next.
    pub nested: Seq<(usize, NestedState)>,
    /// What the parser expects at the root.
    pub root: State,
    /// A token read ahead and not used yet, if any.
    pub peeked: TokenRead,
    /// How the parser reads its source.
    pub config: Config,
    /// The byte length of the source, where its end is reported.
    pub end: usize,
}

impl Machine {
    /// This machine with `nested` as its open nested values.
    pub open spec fn with_nested(self, nested: Seq<(usize, NestedState)>) -> Machine {
        Machine { nested, root: self.root, peeked: self.peeked, config: self.config, end: self.end }
    }

    /// This machine with `root` as what it expects at the root.
    pub open spec fn with_root(self, root: State) -> Machine {
        Machine { nested: self.nested, root, peeked: self.peeked, config: self.config, end: self.end }
    }

    /// This machine with `peeked` as the token read ahead.
    pub open spec fn with_peeked(self, peeked: TokenRead) -> Machine {
        Machine { nested: self.nested, root: self.root, peeked, config: self.config, end: self.end }
    }

    /// This machine with the innermost nested value expecting `state`.
    pub open spec fn with_top(self, state: NestedState) -> Machine {
        self.with_nested(
            self.nested.update(self.nested.len() - 1, (self.nested.last().0, state)),
        )
    }

    /// This machine with a nested value opened at `start`, expecting `state`.
    pub open spec fn pushed(self, start: usize, state: NestedState) -> Machine {
        self.with_nested(self.nested.push((start, state)))
    }

    /// This machine with its innermost nested value closed.
    pub open spec fn popped(self) -> Machine {
        self.with_nested(self.nested.drop_last())
    }
}

/// Takes the next token: the one read ahead, if any, else the first of
/// `reads`. Gives the machine after it, the token and what is left of
/// `reads`; `None` when there is nothing to take.
pub open spec fn take(m: Machine, reads: Seq<TokenRead>) -> Option<(Machine, TokenRead, Seq<TokenRead>)> {
    match m.peeked {
        Some(t) => Some((m.with_peeked(None), Some(t), reads)),
        None => if reads.len() > 0 {
            Some((m, reads[0], reads.drop_first()))
        } else {
            None
        },
    }
}

/// Reads a token ahead unless one is read ahead already.
pub open spec fn look_ahead(m: Machine, reads: Seq<TokenRead>) -> Option<(Machine, Seq<TokenRead>)> {
    if m.peeked is Some {
        Some((m, reads))
    } else if reads.len() > 0 {
        Some((m.with_peeked(reads[0]), reads.drop_first()))
    } else {
        None
    }
}

/// The outcome `r` in the machine `m`, when all of `reads` has been used.
pub open spec fn settle<R>(m: Machine, reads: Seq<TokenRead>, r: R) -> Option<(Machine, R)> {
    if reads.len() == 0 {
        Some((m, r))
    } else {
        None
    }
}

/// An outcome that may be the end of the events, from one that is not.
pub open spec fn lift(o: Option<(Machine, Result<Event, Error>)>) -> Option<
    (Machine, Option<Result<Event, Error>>),
> {
    match o {
        Some((m, r)) => Some((m, Some(r))),
        None => None,
    }
}

/// The event of `kind` at `location`.
pub open spec fn event(location: Range<usize>, kind: EventKind) -> Event {
    Event { location, kind }
}

/// The error of `kind` at `location`.
pub open spec fn error(location: Range<usize>, kind: ErrorKind) -> Error {
    Error { location, kind }
}

/// The error that a tokenizer error becomes.
pub open spec fn lexing_error(e: tokenizer::Error) -> Error {
    error(e.location, ErrorKind::Tokenizer(e.kind))
}

/// The empty range at the end of the source.
pub open spec fn end_range(m: Machine) -> Range<usize> {
    Range { start: m.end, end: m.end }
}

/// The range from the start of the source to its end.
pub open spec fn whole_range(m: Machine) -> Range<usize> {
    Range { start: 0, end: m.end }
}

/// The kind of nested value that `b` delimits.
pub open spec fn nested_of(b: Balanced) -> Nested {
    match b {
        Balanced::Paren => Nested::Tuple,
        Balanced::Bracket => Nested::List,
        Balanced::Brace => Nested::Mapping,
    }
}

/// What a nested value opened by `b` expects first.
pub open spec fn opened_state(b: Balanced) -> NestedState {
    match b {
        Balanced::Paren => NestedState::Tuple(ListStateExpecting::Value),
        Balanced::Bracket => NestedState::List(ListStateExpecting::Value),
        Balanced::Brace => NestedState::Mapping(MapStateExpecting::Key),
    }
}

/// The primitive `p` at `loc`.
pub open spec fn primitive_event(m: Machine, loc: Range<usize>, p: Primitive, reads: Seq<TokenRead>) -> Option<
    (Machine, Result<Event, Error>),
> {
    settle(m, reads, Ok(event(loc, EventKind::Primitive(p))))
}

/// The event that a token read where a value may stand gives. `close` is the
/// closing delimiter that may end the innermost nested value there. A name
/// reads one token ahead to see whether a tuple or map follows it.
pub open spec fn token_event(m: Machine, token: Token, close: Option<Balanced>, reads: Seq<TokenRead>) -> Option<
    (Machine, Result<Event, Error>),
> {
    let loc = token.location;
    match token.kind {
        TokenKind::Integer(i) => primitive_event(m, loc, Primitive::Integer(i), reads),
        TokenKind::Float(f) => primitive_event(m, loc, Primitive::Float(f), reads),
        TokenKind::Bool(b) => primitive_event(m, loc, Primitive::Bool(b), reads),
        TokenKind::Character(c) => primitive_event(m, loc, Primitive::Char(c), reads),
        TokenKind::Byte(b) => primitive_event(
            m,
            loc,
            Primitive::Integer(Integer::Usize(b as usize)),
            reads,
        ),
        TokenKind::String(s) => primitive_event(m, loc, Primitive::String(s), reads),
        TokenKind::Bytes(b) => primitive_event(m, loc, Primitive::Bytes(b), reads),
        TokenKind::Identifier(name) => identifier_event(m, loc, name, reads),
        TokenKind::Open(b) => settle(
            m.pushed(loc.start, opened_state(b)),
            reads,
            Ok(event(loc, EventKind::BeginNested { name: None, kind: nested_of(b) })),
        ),
        TokenKind::Close(b) => if close == Some(b) {
            settle(m.popped(), reads, Ok(event(loc, EventKind::EndNested)))
        } else {
            settle(m, reads, Err(error(loc, ErrorKind::ExpectedValue)))
        },
        TokenKind::Colon => settle(m, reads, Err(error(loc, ErrorKind::ExpectedValue))),
        TokenKind::Comma => settle(m, reads, Err(error(loc, ErrorKind::ExpectedValue))),
        TokenKind::Comment(c) => settle(m, reads, Ok(event(loc, EventKind::Comment(c)))),
        TokenKind::Whitespace(_) => None,
    }
}

/// The event that the name `name` at `loc` gives: a named tuple or map when
/// `(` or `{` follows, an error when `[` does, else an identifier. The token
/// that follows stays read ahead unless it opens the named value.
pub open spec fn identifier_event(m: Machine, loc: Range<usize>, name: String, reads: Seq<TokenRead>) -> Option<
    (Machine, Result<Event, Error>),
> {
    match look_ahead(m, reads) {
        None => None,
        Some((m1, rest)) => {
            let ident = Ok(event(loc, EventKind::Primitive(Primitive::Identifier(name))));
            match m1.peeked {
                Some(Ok(open)) => match open.kind {
                    TokenKind::Open(Balanced::Paren) => settle(
                        m1.with_peeked(None).pushed(
                            open.location.start,
                            NestedState::Tuple(ListStateExpecting::Value),
                        ),
                        rest,
                        Ok(
                            event(
                                open.location,
                                EventKind::BeginNested {
                                    name: Some(Name { location: loc, name }),
                                    kind: Nested::Tuple,
                                },
                            ),
                        ),
                    ),
                    TokenKind::Open(Balanced::Brace) => settle(
                        m1.with_peeked(None).pushed(
                            open.location.start,
                            NestedState::Mapping(MapStateExpecting::Key),
                        ),
                        rest,
                        Ok(
                            event(
                                open.location,
                                EventKind::BeginNested {
                                    name: Some(Name { location: loc, name }),
                                    kind: Nested::Mapping,
                                },
                            ),
                        ),
                    ),
                    TokenKind::Open(Balanced::Bracket) => settle(
                        m1,
                        rest,
                        Err(error(open.location, ErrorKind::ExpectedMapOrTuple)),
                    ),
                    _ => settle(m1, rest, ident),
                },
                _ => settle(m1, rest, ident),
            }
        },
    }
}

/// The next event inside a tuple or list that `end` closes, which expects
/// `state`: a value (or comment) where a value is expected; the end, or a
/// comma and then a value, where a comma is expected.
pub open spec fn sequence_event(
    m: Machine,
    state: ListStateExpecting,
    end: Balanced,
    reads: Seq<TokenRead>,
) -> Option<(Machine, Result<Event, Error>)>
    decreases
            if state == ListStateExpecting::Comma {
                1int
            } else {
                0
            },
{
    match take(m, reads) {
        None => None,
        Some((m1, read, rest)) => match state {
            ListStateExpecting::Value => match read {
                Some(Ok(tok)) => match tok.kind {
                    TokenKind::Comment(c) => settle(
                        m1,
                        rest,
                        Ok(event(tok.location, EventKind::Comment(c))),
                    ),
                    _ => token_event(
                        m1.with_top(list_state(end, ListStateExpecting::Comma)),
                        tok,
                        Some(end),
                        rest,
                    ),
                },
                Some(Err(e)) => settle(m1, rest, Err(lexing_error(e))),
                None => settle(m1, rest, Err(error(end_range(m1), ErrorKind::UnexpectedEof))),
            },
            ListStateExpecting::Comma => match read {
                Some(Ok(tok)) => match tok.kind {
                    TokenKind::Close(b) => if b == end {
                        settle(m1.popped(), rest, Ok(event(tok.location, EventKind::EndNested)))
                    } else {
                        settle(
                            m1,
                            rest,
                            Err(error(tok.location, ErrorKind::ExpectedCommaOrEnd(nested_of(end)))),
                        )
                    },
                    TokenKind::Comma => sequence_event(
                        m1.with_top(list_state(end, ListStateExpecting::Value)),
                        ListStateExpecting::Value,
                        end,
                        rest,
                    ),
                    TokenKind::Comment(c) => settle(
                        m1,
                        rest,
                        Ok(event(tok.location, EventKind::Comment(c))),
                    ),
                    _ => settle(
                        m1,
                        rest,
                        Err(error(tok.location, ErrorKind::ExpectedCommaOrEnd(nested_of(end)))),
                    ),
                },
                Some(Err(e)) => settle(m1, rest, Err(lexing_error(e))),
                None => settle(
                    m1,
                    rest,
                    Err(error(end_range(m1), ErrorKind::ExpectedCommaOrEnd(nested_of(end)))),
                ),
            },
        },
    }
}

/// The next event inside a map that expects `state`: a key, then a colon and
/// a value, then the end or a comma and the next key.
pub open spec fn map_event(m: Machine, state: MapStateExpecting, reads: Seq<TokenRead>) -> Option<
    (Machine, Result<Event, Error>),
>
    decreases
            if state == MapStateExpecting::Colon || state == MapStateExpecting::Comma {
                1int
            } else {
                0
            },
{
    match take(m, reads) {
        None => None,
        Some((m1, read, rest)) => match state {
            MapStateExpecting::Key => match read {
                Some(Ok(tok)) => match tok.kind {
                    TokenKind::Comment(c) => settle(
                        m1,
                        rest,
                        Ok(event(tok.location, EventKind::Comment(c))),
                    ),
                    _ => token_event(
                        m1.with_top(NestedState::Mapping(MapStateExpecting::Colon)),
                        tok,
                        Some(Balanced::Brace),
                        rest,
                    ),
                },
                Some(Err(e)) => settle(m1, rest, Err(lexing_error(e))),
                None => settle(m1, rest, Err(error(end_range(m1), ErrorKind::ExpectedKey))),
            },
            MapStateExpecting::Colon => match read {
                Some(Ok(tok)) => match tok.kind {
                    TokenKind::Colon => map_event(
                        m1.with_top(NestedState::Mapping(MapStateExpecting::Value)),
                        MapStateExpecting::Value,
                        rest,
                    ),
                    TokenKind::Comment(c) => settle(
                        m1,
                        rest,
                        Ok(event(tok.location, EventKind::Comment(c))),
                    ),
                    _ => settle(m1, rest, Err(error(tok.location, ErrorKind::ExpectedColon))),
                },
                Some(Err(e)) => settle(m1, rest, Err(lexing_error(e))),
                None => settle(m1, rest, Err(error(end_range(m1), ErrorKind::ExpectedColon))),
            },
            MapStateExpecting::Value => match read {
                Some(Ok(tok)) => match tok.kind {
                    TokenKind::Comment(c) => settle(
                        m1,
                        rest,
                        Ok(event(tok.location, EventKind::Comment(c))),
                    ),
                    _ => token_event(
                        m1.with_top(NestedState::Mapping(MapStateExpecting::Comma)),
                        tok,
                        None,
                        rest,
                    ),
                },
                Some(Err(e)) => settle(m1, rest, Err(lexing_error(e))),
                None => settle(m1, rest, Err(error(end_range(m1), ErrorKind::ExpectedValue))),
            },
            MapStateExpecting::Comma => match read {
                Some(Ok(tok)) => match tok.kind {
                    TokenKind::Close(Balanced::Brace) => settle(
                        m1.popped(),
                        rest,
                        Ok(event(tok.location, EventKind::EndNested)),
                    ),
                    TokenKind::Comma => map_event(
                        m1.with_top(NestedState::Mapping(MapStateExpecting::Key)),
                        MapStateExpecting::Key,
                        rest,
                    ),
                    TokenKind::Comment(c) => settle(
                        m1,
                        rest,
                        Ok(event(tok.location, EventKind::Comment(c))),
                    ),
                    _ => settle(
                        m1,
                        rest,
                        Err(error(tok.location, ErrorKind::ExpectedCommaOrEnd(Nested::Mapping))),
                    ),
                },
                Some(Err(e)) => settle(m1, rest, Err(lexing_error(e))),
                None => settle(
                    m1,
                    rest,
                    Err(error(end_range(m1), ErrorKind::ExpectedCommaOrEnd(Nested::Mapping))),
                ),
            },
        },
    }
}

/// The event that a key of the implicit root map gives: it must be a
/// primitive, after which the map expects a colon.
pub open spec fn implicit_key_event(m: Machine, token: Token, reads: Seq<TokenRead>) -> Option<
    (Machine, Result<Event, Error>),
> {
    match token_event(m, token, None, reads) {
        Some((m1, Ok(ev))) => if ev.kind is Primitive {
            Some((m1.with_root(State::ImplicitMap(MapStateExpecting::Colon)), Ok(ev)))
        } else {
            Some((m1, Err(error(ev.location, ErrorKind::ExpectedKey))))
        },
        other => other,
    }
}

/// The next event of the implicit map at the root, which expects `state`. The
/// end of the source, or a `}` where a comma may stand, ends the map.
pub open spec fn implicit_map_event(m: Machine, state: MapStateExpecting, reads: Seq<TokenRead>) -> Option<
    (Machine, Result<Event, Error>),
>
    decreases
            if state == MapStateExpecting::Colon || state == MapStateExpecting::Comma {
                1int
            } else {
                0
            },
{
    match take(m, reads) {
        None => None,
        Some((m1, read, rest)) => match state {
            MapStateExpecting::Key => match read {
                Some(Ok(tok)) => match tok.kind {
                    TokenKind::Comment(c) => settle(
                        m1,
                        rest,
                        Ok(event(tok.location, EventKind::Comment(c))),
                    ),
                    _ => implicit_key_event(m1, tok, rest),
                },
                Some(Err(e)) => settle(m1, rest, Err(lexing_error(e))),
                None => settle(
                    m1.with_root(State::Finished),
                    rest,
                    Ok(event(whole_range(m1), EventKind::EndNested)),
                ),
            },
            MapStateExpecting::Colon => match read {
                Some(Ok(tok)) => match tok.kind {
                    TokenKind::Colon => implicit_map_event(
                        m1.with_root(State::ImplicitMap(MapStateExpecting::Value)),
                        MapStateExpecting::Value,
                        rest,
                    ),
                    TokenKind::Comment(c) => settle(
                        m1,
                        rest,
                        Ok(event(tok.location, EventKind::Comment(c))),
                    ),
                    _ => settle(m1, rest, Err(error(tok.location, ErrorKind::ExpectedColon))),
                },
                Some(Err(e)) => settle(m1, rest, Err(lexing_error(e))),
                None => settle(m1, rest, Err(error(end_range(m1), ErrorKind::ExpectedColon))),
            },
            MapStateExpecting::Value => match read {
                Some(Ok(tok)) => match tok.kind {
                    TokenKind::Comment(c) => settle(
                        m1,
                        rest,
                        Ok(event(tok.location, EventKind::Comment(c))),
                    ),
                    _ => token_event(
                        m1.with_root(State::ImplicitMap(MapStateExpecting::Comma)),
                        tok,
                        None,
                        rest,
                    ),
                },
                Some(Err(e)) => settle(m1, rest, Err(lexing_error(e))),
                None => settle(m1, rest, Err(error(end_range(m1), ErrorKind::ExpectedValue))),
            },
            MapStateExpecting::Comma => match read {
                Some(Ok(tok)) => match tok.kind {
                    TokenKind::Comment(c) => settle(
                        m1,
                        rest,
                        Ok(event(tok.location, EventKind::Comment(c))),
                    ),
                    TokenKind::Close(Balanced::Brace) => settle(
                        m1.with_root(State::Finished),
                        rest,
                        Ok(event(tok.location, EventKind::EndNested)),
                    ),
                    TokenKind::Comma => implicit_map_event(
                        m1.with_root(State::ImplicitMap(MapStateExpecting::Key)),
                        MapStateExpecting::Key,
                        rest,
                    ),
                    _ => implicit_key_event(
                        m1.with_root(State::ImplicitMap(MapStateExpecting::Colon)),
                        tok,
                        rest,
                    ),
                },
                Some(Err(e)) => settle(m1, rest, Err(lexing_error(e))),
                None => settle(
                    m1.with_root(State::Finished),
                    rest,
                    Ok(event(whole_range(m1), EventKind::EndNested)),
                ),
            },
        },
    }
}

/// The first event at the root. When implicit maps are allowed and a colon
/// follows the first token, the root is an implicit map: its start comes
/// first, and the event of the first token is kept for the next call.
pub open spec fn start_event(m: Machine, reads: Seq<TokenRead>) -> Option<
    (Machine, Option<Result<Event, Error>>),
> {
    match take(m, reads) {
        None => None,
        Some((m1, read, rest)) => match read {
            Some(Ok(tok)) => match tok.kind {
                TokenKind::Comment(c) => settle(
                    m1,
                    rest,
                    Some(Ok(event(tok.location, EventKind::Comment(c)))),
                ),
                _ => if m1.config.allow_implicit_map_at_root {
                    match look_ahead(m1, rest) {
                        None => None,
                        Some((m2, rest2)) => if m2.peeked matches Some(Ok(t)) && t.kind is Colon {
                            match token_event(m2, tok, None, rest2) {
                                Some((m3, Ok(ev))) => Some(
                                    (
                                        m3.with_root(State::StartingImplicitMap(ev)),
                                        Some(
                                            Ok(
                                                event(
                                                    Range { start: 0, end: 0 },
                                                    EventKind::BeginNested {
                                                        name: None,
                                                        kind: Nested::Mapping,
                                                    },
                                                ),
                                            ),
                                        ),
                                    ),
                                ),
                                Some((m3, Err(e))) => Some((m3, Some(Err(e)))),
                                None => None,
                            }
                        } else {
                            lift(token_event(m2.with_root(State::Finished), tok, None, rest2))
                        },
                    }
                } else {
                    lift(token_event(m1.with_root(State::Finished), tok, None, rest))
                },
            },
            Some(Err(e)) => settle(m1, rest, Some(Err(lexing_error(e)))),
            None => settle(m1, rest, None),
        },
    }
}

/// The event kept while deciding that the root is an implicit map: the
/// first key, after which the map expects a colon.
pub open spec fn resume_event(m: Machine, reads: Seq<TokenRead>) -> Option<(Machine, Result<Event, Error>)> {
    match m.root {
        State::StartingImplicitMap(ev) => settle(
            m.with_root(State::ImplicitMap(MapStateExpecting::Colon)),
            reads,
            Ok(ev),
        ),
        _ => None,
    }
}

/// What follows the complete root value: comments, or else trailing data.
pub open spec fn after_root_event(m: Machine, reads: Seq<TokenRead>) -> Option<
    (Machine, Option<Result<Event, Error>>),
> {
    match take(m, reads) {
        None => None,
        Some((m1, read, rest)) => match read {
            Some(Ok(tok)) => match tok.kind {
                TokenKind::Comment(c) => settle(
                    m1,
                    rest,
                    Some(Ok(event(tok.location, EventKind::Comment(c)))),
                ),
                _ => settle(m1, rest, Some(Err(error(tok.location, ErrorKind::TrailingData)))),
            },
            Some(Err(e)) => settle(m1, rest, Some(Err(lexing_error(e)))),
            None => settle(m1, rest, None),
        },
    }
}

/// The next event, comments included, that the machine `m` gives when it
/// reads exactly `reads` from the tokenizer; `None` inside when the source
/// is done. `None` outside when `reads` is not what the machine reads.
pub open spec fn next_event(m: Machine, reads: Seq<TokenRead>) -> Option<
    (Machine, Option<Result<Event, Error>>),
> {
    if m.nested.len() == 0 {
        match m.root {
            State::AtStart => start_event(m, reads),
            State::StartingImplicitMap(_) => lift(resume_event(m, reads)),
            State::ImplicitMap(s) => lift(implicit_map_event(m, s, reads)),
            State::Finished => after_root_event(m, reads),
        }
    } else {
        match m.nested.last().1 {
            NestedState::Tuple(s) => lift(sequence_event(m, s, Balanced::Paren, reads)),
            NestedState::List(s) => lift(sequence_event(m, s, Balanced::Bracket, reads)),
            NestedState::Mapping(s) => lift(map_event(m, s, reads)),
        }
    }
}

/// The machine `m` with the configuration `config`, and otherwise the same.
pub open spec fn with_config(m: Machine, config: Config) -> Machine {
    Machine { nested: m.nested, root: m.root, peeked: m.peeked, config, end: m.end }
}

/// A step of the grammar, with the machine it leads to given `config`.
pub open spec fn stepped_with_config(
    o: Option<(Machine, Option<Result<Event, Error>>)>,
    config: Config,
) -> Option<(Machine, Option<Result<Event, Error>>)> {
    match o {
        Some((m, r)) => Some((with_config(m, config), r)),
        None => None,
    }
}

/// An event of the grammar, with the machine it leads to given `config`.
pub open spec fn read_with_config(
    o: Option<(Machine, Result<Event, Error>)>,
    config: Config,
) -> Option<(Machine, Result<Event, Error>)> {
    match o {
        Some((m, r)) => Some((with_config(m, config), r)),
        None => None,
    }
}

proof fn lemma_token_event_with_config(
    m: Machine,
    token: Token,
    close: Option<Balanced>,
    reads: Seq<TokenRead>,
    config: Config,
)
    ensures
        token_event(with_config(m, config), token, close, reads) == read_with_config(
            token_event(m, token, close, reads),
            config,
        ),
{
}

proof fn lemma_sequence_event_with_config(
    m: Machine,
    state: ListStateExpecting,
    end: Balanced,
    reads: Seq<TokenRead>,
    config: Config,
)
    ensures
        sequence_event(with_config(m, config), state, end, reads) == read_with_config(
            sequence_event(m, state, end, reads),
            config,
        ),
    decreases
            if state == ListStateExpecting::Comma {
                1int
            } else {
                0
            },
{
    if let Some((m1, read, rest)) = take(m, reads) {
        if let Some(Ok(tok)) = read {
            lemma_token_event_with_config(
                m1.with_top(list_state(end, ListStateExpecting::Comma)),
                tok,
                Some(end),
                rest,
                config,
            );
            if state == ListStateExpecting::Comma {
                lemma_sequence_event_with_config(
                    m1.with_top(list_state(end, ListStateExpecting::Value)),
                    ListStateExpecting::Value,
                    end,
                    rest,
                    config,
                );
            }
        }
    }
}

proof fn lemma_map_event_with_config(
    m: Machine,
    state: MapStateExpecting,
    reads: Seq<TokenRead>,
    config: Config,
)
    ensures
        map_event(with_config(m, config), state, reads) == read_with_config(
            map_event(m, state, reads),
            config,
        ),
    decreases
            if state == MapStateExpecting::Colon || state == MapStateExpecting::Comma {
                1int
            } else {
                0
            },
{
    if let Some((m1, read, rest)) = take(m, reads) {
        if let Some(Ok(tok)) = read {
            lemma_token_event_with_config(
                m1.with_top(NestedState::Mapping(MapStateExpecting::Colon)),
                tok,
                Some(Balanced::Brace),
                rest,
                config,
            );
            lemma_token_event_with_config(
                m1.with_top(NestedState::Mapping(MapStateExpecting::Comma)),
                tok,
                None,
                rest,
                config,
            );
            if state == MapStateExpecting::Colon {
                lemma_map_event_with_config(
                    m1.with_top(NestedState::Mapping(MapStateExpecting::Value)),
                    MapStateExpecting::Value,
                    rest,
                    config,
                );
            }
            if state == MapStateExpecting::Comma {
                lemma_map_event_with_config(
                    m1.with_top(NestedState::Mapping(MapStateExpecting::Key)),
                    MapStateExpecting::Key,
                    rest,
                    config,
                );
            }
        }
    }
}

proof fn lemma_implicit_map_event_with_config(
    m: Machine,
    state: MapStateExpecting,
    reads: Seq<TokenRead>,
    config: Config,
)
    ensures
        implicit_map_event(with_config(m, config), state, reads) == read_with_config(
            implicit_map_event(m, state, reads),
            config,
        ),
    decreases
            if state == MapStateExpecting::Colon || state == MapStateExpecting::Comma {
                1int
            } else {
                0
            },
{
    if let Some((m1, read, rest)) = take(m, reads) {
        if let Some(Ok(tok)) = read {
            lemma_token_event_with_config(m1, tok, None, rest, config);
            lemma_token_event_with_config(
                m1.with_root(State::ImplicitMap(MapStateExpecting::Colon)),
                tok,
                None,
                rest,
                config,
            );
            lemma_token_event_with_config(
                m1.with_root(State::ImplicitMap(MapStateExpecting::Comma)),
                tok,
                None,
                rest,
                config,
            );
            if state == MapStateExpecting::Colon {
                lemma_implicit_map_event_with_config(
                    m1.with_root(State::ImplicitMap(MapStateExpecting::Value)),
                    MapStateExpecting::Value,
                    rest,
                    config,
                );
            }
            if state == MapStateExpecting::Comma {
                lemma_implicit_map_event_with_config(
                    m1.with_root(State::ImplicitMap(MapStateExpecting::Key)),
                    MapStateExpecting::Key,
                    rest,
                    config,
                );
            }
        }
    }
}

proof fn lemma_start_event_with_config(m: Machine, reads: Seq<TokenRead>, config: Config)
    requires
        config.allow_implicit_map_at_root == m.config.allow_implicit_map_at_root,
    ensures
        start_event(with_config(m, config), reads) == stepped_with_config(start_event(m, reads), config),
{
    if let Some((m1, read, rest)) = take(m, reads) {
        if let Some(Ok(tok)) = read {
            lemma_token_event_with_config(m1.with_root(State::Finished), tok, None, rest, config);
            if let Some((m2, rest2)) = look_ahead(m1, rest) {
                lemma_token_event_with_config(m2, tok, None, rest2, config);
                lemma_token_event_with_config(m2.with_root(State::Finished), tok, None, rest2, config);
            }
        }
    }
}

/// Whether comments are kept does not steer the grammar: from the same
/// reads, a machine gives the same outcome, and moves to the same state,
/// whatever its configuration says of comments; only whether implicit maps
/// are allowed at the root matters. Only which of the outcomes a parser
/// hands out differs.
pub proof fn lemma_comments_do_not_steer(m: Machine, reads: Seq<TokenRead>, config: Config)
    requires
        config.allow_implicit_map_at_root == m.config.allow_implicit_map_at_root,
    ensures
        next_event(with_config(m, config), reads) == stepped_with_config(next_event(m, reads), config),
{
    if m.nested.len() == 0 {
        match m.root {
            State::AtStart => lemma_start_event_with_config(m, reads, config),
            State::ImplicitMap(s) => lemma_implicit_map_event_with_config(m, s, reads, config),
            _ => {},
        }
    } else {
        match m.nested.last().1 {
            NestedState::Tuple(s) => lemma_sequence_event_with_config(m, s, Balanced::Paren, reads, config),
            NestedState::List(s) => lemma_sequence_event_with_config(m, s, Balanced::Bracket, reads, config),
            NestedState::Mapping(s) => lemma_map_event_with_config(m, s, reads, config),
        }
    }
}

/// The outcome `r` is a comment that `config` leaves out.
pub open spec fn left_out(config: Config, r: Option<Result<Event, Error>>) -> bool {
    !config.include_comments && (r matches Some(Ok(ev)) && ev.kind is Comment)
}

/// Reading exactly `reads`, the machine goes from `m` to `m2` through `n`
/// events that `m`'s configuration leaves out.
pub open spec fn skipped(m: Machine, reads: Seq<TokenRead>, m2: Machine, n: nat) -> bool
    decreases n,
{
    if n == 0 {
        reads.len() == 0 && m2 == m
    } else {
        exists|i: int, m1: Machine|
            0 <= i <= reads.len() && skipped(m, reads.take(i), m1, (n - 1) as nat)
                && (#[trigger] next_event(m1, reads.skip(i)) matches Some((m3, s)) && m3 == m2
                && left_out(m.config, s))
    }
}

/// Reading exactly `reads`, the machine goes from `m` to `m2` and gives `r`,
/// the first outcome that `m`'s configuration keeps.
pub open spec fn next_kept(m: Machine, reads: Seq<TokenRead>, m2: Machine, r: Option<Result<Event, Error>>) -> bool {
    exists|i: int, m1: Machine, n: nat|
        0 <= i <= reads.len() && #[trigger] skipped(m, reads.take(i), m1, n) && next_event(
            m1,
            reads.skip(i),
        ) == Some((m2, r)) && !left_out(m.config, r)
}

/// Taking a token from reads that it uses up, followed by more, leaves the
/// more.
pub proof fn lemma_take_append(m: Machine, a: Seq<TokenRead>, b: Seq<TokenRead>)
    requires
        take(m, a) matches Some((_, _, rest)) && rest.len() == 0,
    ensures
        take(m, a + b) == Some((take(m, a).unwrap().0, take(m, a).unwrap().1, b)),
{
    if m.peeked is None {
        assert((a + b).drop_first() =~= b);
    } else {
        assert(a + b =~= b);
    }
}

/// Reading ahead from reads that it uses up, followed by more, leaves the
/// more.
pub proof fn lemma_look_ahead_append(m: Machine, a: Seq<TokenRead>, b: Seq<TokenRead>)
    requires
        look_ahead(m, a) matches Some((_, rest)) && rest.len() == 0,
    ensures
        look_ahead(m, a + b) == Some((look_ahead(m, a).unwrap().0, b)),
{
    if m.peeked is None {
        assert((a + b).drop_first() =~= b);
    } else {
        assert(a + b =~= b);
    }
}

/// Reading exactly `reads`, calls of a parser's `next` take the machine from
/// `m` to `m2` and give `outcomes`, one per call.
pub open spec fn ran(
    m: Machine,
    reads: Seq<TokenRead>,
    m2: Machine,
    outcomes: Seq<Option<Result<Event, Error>>>,
) -> bool
    decreases outcomes.len(),
{
    if outcomes.len() == 0 {
        reads.len() == 0 && m2 == m
    } else {
        exists|i: int, m1: Machine|
            0 <= i <= reads.len() && ran(m, reads.take(i), m1, outcomes.drop_last()) && #[trigger] next_kept(
                m1,
                reads.skip(i),
                m2,
                outcomes.last(),
            )
    }
}

/// The first of the outcomes of calls of `next` that ran from `m` is the
/// outcome of the first call, which reads a first part of the reads.
pub proof fn lemma_ran_first(m: Machine, reads: Seq<TokenRead>, m2: Machine, outcomes: Seq<Option<Result<Event, Error>>>)
    requires
        ran(m, reads, m2, outcomes),
        outcomes.len() > 0,
    ensures
        exists|i: int, m1: Machine| 0 <= i <= reads.len() && #[trigger] next_kept(m, reads.take(i), m1, outcomes[0]),
    decreases outcomes.len(),
{
    let (i, m1) = choose|i: int, m1: Machine|
        0 <= i <= reads.len() && ran(m, reads.take(i), m1, outcomes.drop_last()) && #[trigger] next_kept(
            m1,
            reads.skip(i),
            m2,
            outcomes.last(),
        );
    if outcomes.len() == 1 {
        assert(reads.take(i) =~= Seq::<TokenRead>::empty());
        assert(reads.skip(i) =~= reads.take(reads.len() as int));
        assert(outcomes.last() == outcomes[0]);
    } else {
        lemma_ran_first(m, reads.take(i), m1, outcomes.drop_last());
        let (j, mb) = choose|j: int, mb: Machine|
            0 <= j <= reads.take(i).len() && #[trigger] next_kept(m, reads.take(i).take(j), mb, outcomes.drop_last()[0]);
        assert(reads.take(i).take(j) =~= reads.take(j));
    }
}

/// The first of the events that the calls skipped from `m` is what a call
/// from `m` gives, reading a first part of the reads.
pub proof fn lemma_skipped_first(m: Machine, reads: Seq<TokenRead>, m2: Machine, n: nat)
    requires
        skipped(m, reads, m2, n),
        n > 0,
    ensures
        exists|j: int|
            0 <= j <= reads.len() && (#[trigger] next_event(m, reads.take(j)) matches Some((mb, s))
                && left_out(m.config, s)),
    decreases n,
{
    let (i, m1) = choose|i: int, m1: Machine|
        0 <= i <= reads.len() && skipped(m, reads.take(i), m1, (n - 1) as nat) && (#[trigger] next_event(
            m1,
            reads.skip(i),
        ) matches Some((m3, s)) && m3 == m2 && left_out(m.config, s));
    if n == 1 {
        assert(reads.take(i) =~= Seq::<TokenRead>::empty());
        assert(reads.skip(i) =~= reads.take(reads.len() as int));
    } else {
        lemma_skipped_first(m, reads.take(i), m1, (n - 1) as nat);
        let j = choose|j: int|
            0 <= j <= reads.take(i).len() && (#[trigger] next_event(m, reads.take(i).take(j)) matches Some(
                (mb, s),
            ) && left_out(m.config, s));
        assert(reads.take(i).take(j) =~= reads.take(j));
    }
}

/// A configuration like `config` that leaves comments out.
pub open spec fn leaving_out_comments(config: Config) -> Config {
    Config { allow_implicit_map_at_root: config.allow_implicit_map_at_root, include_comments: false }
}

/// The outcome `r` is a comment event.
pub open spec fn is_comment(r: Option<Result<Event, Error>>) -> bool {
    r matches Some(Ok(ev)) && ev.kind is Comment
}

/// `outcomes` without the comment events among them, in the same order.
pub open spec fn without_comments(outcomes: Seq<Option<Result<Event, Error>>>) -> Seq<
    Option<Result<Event, Error>>,
>
    decreases outcomes.len(),
{
    if outcomes.len() == 0 {
        outcomes
    } else if is_comment(outcomes.last()) {
        without_comments(outcomes.drop_last())
    } else {
        without_comments(outcomes.drop_last()).push(outcomes.last())
    }
}

/// With comments included, the next outcome that a parser keeps is the next
/// event of its grammar, and the configuration stays.
proof fn lemma_kept_step(m: Machine, reads: Seq<TokenRead>, m2: Machine, r: Option<Result<Event, Error>>)
    requires
        m.config.include_comments,
        next_kept(m, reads, m2, r),
    ensures
        next_event(m, reads) == Some((m2, r)),
        m2.config == m.config,
{
    let (i, m1, n) = choose|i: int, m1: Machine, n: nat|
        0 <= i <= reads.len() && #[trigger] skipped(m, reads.take(i), m1, n) && next_event(
            m1,
            reads.skip(i),
        ) == Some((m2, r)) && !left_out(m.config, r);
    if n > 0 {
        lemma_skipped_first(m, reads.take(i), m1, n);
    }
    assert(reads.take(i).len() == 0);
    assert(reads.skip(i) =~= reads);
    lemma_comments_do_not_steer(m, reads, m.config);
    assert(with_config(m, m.config) == m);
}

/// With comments included, a run keeps the configuration it started with.
proof fn lemma_ran_keeps_config(
    m: Machine,
    reads: Seq<TokenRead>,
    m2: Machine,
    outcomes: Seq<Option<Result<Event, Error>>>,
)
    requires
        m.config.include_comments,
        ran(m, reads, m2, outcomes),
    ensures
        m2.config == m.config,
    decreases outcomes.len(),
{
    if outcomes.len() > 0 {
        let (i, m1) = choose|i: int, m1: Machine|
            0 <= i <= reads.len() && ran(m, reads.take(i), m1, outcomes.drop_last()) && #[trigger] next_kept(
                m1,
                reads.skip(i),
                m2,
                outcomes.last(),
            );
        lemma_ran_keeps_config(m, reads.take(i), m1, outcomes.drop_last());
        lemma_kept_step(m1, reads.skip(i), m2, outcomes.last());
    }
}

/// One more event left out, after `n` of them, is `n + 1` left out.
proof fn lemma_skipped_push(
    m: Machine,
    reads: Seq<TokenRead>,
    i: int,
    m1: Machine,
    n: nat,
    m2: Machine,
    s: Option<Result<Event, Error>>,
)
    requires
        0 <= i <= reads.len(),
        skipped(m, reads.take(i), m1, n),
        next_event(m1, reads.skip(i)) == Some((m2, s)),
        left_out(m.config, s),
    ensures
        skipped(m, reads, m2, n + 1),
{
}

/// Events left out and then one kept make the next kept outcome.
proof fn lemma_kept_after_skipped(
    m: Machine,
    reads: Seq<TokenRead>,
    i: int,
    m1: Machine,
    n: nat,
    m2: Machine,
    r: Option<Result<Event, Error>>,
)
    requires
        0 <= i <= reads.len(),
        skipped(m, reads.take(i), m1, n),
        next_event(m1, reads.skip(i)) == Some((m2, r)),
        !left_out(m.config, r),
    ensures
        next_kept(m, reads, m2, r),
{
}

/// A run followed by one more call is a run.
proof fn lemma_ran_push(
    m: Machine,
    reads: Seq<TokenRead>,
    j: int,
    m1: Machine,
    outcomes: Seq<Option<Result<Event, Error>>>,
    m2: Machine,
    r: Option<Result<Event, Error>>,
)
    requires
        0 <= j <= reads.len(),
        ran(m, reads.take(j), m1, outcomes),
        next_kept(m1, reads.skip(j), m2, r),
    ensures
        ran(m, reads, m2, outcomes.push(r)),
{
    let all = outcomes.push(r);
    assert(all.drop_last() =~= outcomes);
    assert(all.last() == r);
    assert(ran(m, reads.take(j), m1, all.drop_last()));
    assert(next_kept(m1, reads.skip(j), m2, all.last()));
}

/// Leaving comments out changes nothing but which outcomes a parser hands
/// out: where calls of a parser that includes comments ran through `reads`
/// from the start, giving `outcomes`, calls of a parser that leaves them
/// out, from the start of the same source, run through a first part of the
/// same reads and give `outcomes` without the comments, in the same order and
/// at the same locations; what is left of the reads holds only comments,
/// which they pass over to reach the same state.
/// The step of `lemma_comments_left_out` for one more outcome.
#[verifier::spinoff_prover]
#[verifier::rlimit(100)]
proof fn lemma_left_out_step(
    config: Config,
    end: usize,
    reads: Seq<TokenRead>,
    m: Machine,
    outcomes: Seq<Option<Result<Event, Error>>>,
    i: int,
    m1: Machine,
    j: int,
    mf: Machine,
    n: nat,
)
    requires
        0 <= j <= i <= reads.len(),
        outcomes.len() > 0,
        ran(
            start_machine(leaving_out_comments(config), end),
            reads.take(j),
            mf,
            without_comments(outcomes.drop_last()),
        ),
        mf.config == leaving_out_comments(config),
        skipped(mf, reads.take(i).skip(j), with_config(m1, leaving_out_comments(config)), n),
        next_event(with_config(m1, leaving_out_comments(config)), reads.skip(i)) == Some(
            (with_config(m, leaving_out_comments(config)), outcomes.last()),
        ),
    ensures
        exists|j2: int, mf2: Machine, n2: nat|
            0 <= j2 <= reads.len() && #[trigger] ran(
                start_machine(leaving_out_comments(config), end),
                reads.take(j2),
                mf2,
                without_comments(outcomes),
            ) && mf2.config == leaving_out_comments(config) && #[trigger] skipped(
                mf2,
                reads.skip(j2),
                with_config(m, leaving_out_comments(config)),
                n2,
            ),
{
    let cf = leaving_out_comments(config);
    let sf = start_machine(cf, end);
    let o = outcomes.last();
    let chunk = reads.skip(j);
    assert(chunk.take(i - j) =~= reads.take(i).skip(j));
    assert(chunk.skip(i - j) =~= reads.skip(i));
    if is_comment(o) {
        lemma_skipped_push(mf, chunk, i - j, with_config(m1, cf), n, with_config(m, cf), o);
        assert(without_comments(outcomes) == without_comments(outcomes.drop_last()));
        assert(ran(sf, reads.take(j), mf, without_comments(outcomes)));
        assert(skipped(mf, reads.skip(j), with_config(m, cf), n + 1));
    } else {
        lemma_kept_after_skipped(mf, chunk, i - j, with_config(m1, cf), n, with_config(m, cf), o);
        lemma_ran_push(sf, reads, j, mf, without_comments(outcomes.drop_last()), with_config(m, cf), o);
        assert(reads.take(reads.len() as int) =~= reads);
        assert(reads.skip(reads.len() as int) =~= Seq::<TokenRead>::empty());
        assert(skipped(with_config(m, cf), reads.skip(reads.len() as int), with_config(m, cf), 0));
        assert(without_comments(outcomes) == without_comments(outcomes.drop_last()).push(o));
        assert(ran(sf, reads.take(reads.len() as int), with_config(m, cf), without_comments(outcomes)));
    }
}

/// Leaving comments out changes nothing but which outcomes a parser hands
/// out: where calls of a parser that includes comments ran through `reads`
/// from the start, giving `outcomes`, calls of a parser that leaves them
/// out, from the start of the same source, run through a first part of the
/// same reads and give `outcomes` without the comments, in the same order and
/// at the same locations; what is left of the reads holds only comments,
/// which they pass over to reach the same state.
pub proof fn lemma_comments_left_out(
    config: Config,
    end: usize,
    reads: Seq<TokenRead>,
    m: Machine,
    outcomes: Seq<Option<Result<Event, Error>>>,
)
    requires
        config.include_comments,
        ran(start_machine(config, end), reads, m, outcomes),
    ensures
        exists|j: int, mf: Machine, n: nat|
            0 <= j <= reads.len() && #[trigger] ran(
                start_machine(leaving_out_comments(config), end),
                reads.take(j),
                mf,
                without_comments(outcomes),
            ) && mf.config == leaving_out_comments(config) && #[trigger] skipped(
                mf,
                reads.skip(j),
                with_config(m, leaving_out_comments(config)),
                n,
            ),
    decreases outcomes.len(),
{
    let st = start_machine(config, end);
    let cf = leaving_out_comments(config);
    let sf = start_machine(cf, end);
    if outcomes.len() == 0 {
        assert(reads.take(0) =~= Seq::<TokenRead>::empty());
        assert(reads.skip(0) =~= reads);
        assert(with_config(st, cf) == sf);
        assert(ran(sf, reads.take(0), sf, without_comments(outcomes)));
        assert(skipped(sf, reads.skip(0), with_config(m, cf), 0));
    } else {
        let (i, m1) = choose|i: int, m1: Machine|
            0 <= i <= reads.len() && ran(st, reads.take(i), m1, outcomes.drop_last()) && #[trigger] next_kept(
                m1,
                reads.skip(i),
                m,
                outcomes.last(),
            );
        lemma_ran_keeps_config(st, reads.take(i), m1, outcomes.drop_last());
        lemma_kept_step(m1, reads.skip(i), m, outcomes.last());
        lemma_comments_do_not_steer(m1, reads.skip(i), cf);
        lemma_comments_left_out(config, end, reads.take(i), m1, outcomes.drop_last());
        let (j, mf, n) = choose|j: int, mf: Machine, n: nat|
            0 <= j <= reads.take(i).len() && #[trigger] ran(
                sf,
                reads.take(i).take(j),
                mf,
                without_comments(outcomes.drop_last()),
            ) && mf.config == cf && #[trigger] skipped(mf, reads.take(i).skip(j), with_config(m1, cf), n);
        assert(reads.take(i).take(j) =~= reads.take(j));
        lemma_left_out_step(config, end, reads, m, outcomes, i, m1, j, mf, n);
    }
}

/// Every outcome but the last is an event.
pub open spec fn events_then(outcomes: Seq<Option<Result<Event, Error>>>) -> bool {
    forall|k: int| 0 <= k < outcomes.len() - 1 ==> #[trigger] outcomes[k] matches Some(Ok(_))
}

/// Reading exactly `reads`, the calls of a parser's `next` from the machine
/// `m` give events until the end of the events, when `complete`, or until an
/// error, when not.
pub open spec fn run_ends(m: Machine, reads: Seq<TokenRead>, complete: bool) -> bool {
    exists|m2: Machine, outcomes: Seq<Option<Result<Event, Error>>>|
        #[trigger] ran(m, reads, m2, outcomes) && outcomes.len() > 0 && events_then(outcomes)
            && if complete {
            outcomes.last() is None
        } else {
            outcomes.last() matches Some(Err(_))
        }
}

/// The machine of a parser that has read nothing of a source of `end` bytes.
pub open spec fn start_machine(config: Config, end: usize) -> Machine {
    Machine { nested: Seq::empty(), root: State::AtStart, peeked: None, config, end }
}

} // verus!
