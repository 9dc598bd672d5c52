use vstd::prelude::*;

use crate::parser::grammar::{
    lemma_ran_first, lemma_skipped_first, next_event, next_kept, ran, skipped, start_machine,
    Machine, TokenRead,
};
use crate::parser::{Config, Error, Event, EventKind, Primitive};
use crate::text::byte_len;
use crate::tokenizer::lexeme::is_whitespace;
use crate::tokenizer::{
    lemma_lexes_first, lemma_lexes_from_start, lexes, literal_ok_at, read_step, token_reads, Token,
    TokenKind,
};
use crate::value::{
    byte_free, flatten, outcomes_of, read_value, step_of, steps, unfinished, value_config, Step,
    Value,
};
use crate::tokenizer::{float_text, lemma_float_token_reads_back};
use crate::writer::{
    render, decimal_text, holds_bytes, holds_integer, holds_string, lemma_bool_token_reads_back,
    lemma_bytes_token_reads_back, lemma_char_token_reads_back, lemma_decimal_text_shape,
    lemma_integer_token_reads_back, lemma_string_token_reads_back, quoted, quoted_bytes, quoted_char,
    Primitive as Rendered,
};

verus! {

/// The value that a literal token of `kind` stands for, when a value holds
/// it as it is.
pub open spec fn literal_value(kind: TokenKind) -> Option<Value> {
    match kind {
        TokenKind::Integer(i) => Some(Value::Integer(i)),
        TokenKind::Float(f) => Some(Value::Float(f)),
        TokenKind::Bool(b) => Some(Value::Bool(b)),
        TokenKind::Character(c) => Some(Value::Char(c)),
        TokenKind::String(s) => Some(Value::String(s)),
        TokenKind::Bytes(b) => Some(Value::Bytes(b)),
        _ => None,
    }
}

/// The primitive event that a literal token of `kind` gives.
spec fn literal_primitive(kind: TokenKind) -> Primitive {
    match kind {
        TokenKind::Integer(i) => Primitive::Integer(i),
        TokenKind::Float(f) => Primitive::Float(f),
        TokenKind::Bool(b) => Primitive::Bool(b),
        TokenKind::Character(c) => Primitive::Char(c),
        TokenKind::String(s) => Primitive::String(s),
        TokenKind::Bytes(b) => Primitive::Bytes(b),
        _ => Primitive::Bool(false),
    }
}

/// A value's steps start with one step; only a byte or a primitive value
/// starts with the step of a literal token, and that value is the token's.
proof fn lemma_leaf_value(v: Value, kind: TokenKind)
    requires
        literal_value(kind) is Some,
        byte_free(v),
        flatten(v).len() > 0 ==> flatten(v)[0] == Step::Leaf(literal_primitive(kind)),
    ensures
        flatten(v).len() > 0,
        v == literal_value(kind).unwrap(),
        flatten(v).len() == 1,
{
    match v {
        Value::Named(named) => match named.contents {
            crate::value::StructContents::Mapping(m) => {
                assert(flatten(v)[0] is Start);
            },
            crate::value::StructContents::Tuple(l) => {
                assert(flatten(v)[0] is Start);
            },
        },
        Value::Tuple(l) => {
            assert(flatten(v)[0] is Start);
        },
        Value::Array(l) => {
            assert(flatten(v)[0] is Start);
        },
        Value::Mapping(m) => {
            assert(flatten(v)[0] is Start);
        },
        _ => {},
    }
}

/// Where the first read of a tokenizer from the start of `src` is the token
/// `tok` of a literal that is the whole source, the first call of a parser's
/// `next` from its start, reading a first part `x` of those reads, gives the
/// primitive event of the token; no such call gives a comment.
proof fn lemma_first_call(
    src: Seq<char>,
    config: Config,
    reads: Seq<TokenRead>,
    tok: Token,
    x: Seq<TokenRead>,
    m1: Machine,
    o: Option<Result<Event, Error>>,
)
    requires
        reads.len() > 0,
        reads[0] == Some(Ok::<Token, crate::tokenizer::Error>(tok)),
        literal_value(tok.kind) is Some,
        reads.len() > 1 ==> reads[1] is None,
        x.len() <= reads.len(),
        forall|k: int| 0 <= k < x.len() ==> x[k] == reads[k],
        next_event(start_machine(value_config(config), byte_len(src) as usize), x) == Some((m1, o)),
    ensures
        o == Some(
            Ok::<Event, Error>(
                Event { location: tok.location, kind: EventKind::Primitive(literal_primitive(tok.kind)) },
            ),
        ),
{
    let m0 = start_machine(value_config(config), byte_len(src) as usize);
    assert(x.len() > 0);
    assert(x[0] == reads[0]);
    if value_config(config).allow_implicit_map_at_root {
        assert(x.drop_first().len() > 0);
        assert(x.drop_first()[0] == reads[1]);
        assert(x.drop_first().drop_first().len() == 0);
    } else {
        assert(x.drop_first().len() == 0);
    }
}

/// A source that is one literal, which the tokenizer reads without error
/// as exactly one token of a kind that `accepts` holds of, reads as a value
/// to the value of that token.
pub proof fn lemma_lone_literal_value(
    src: Seq<char>,
    accepts: spec_fn(TokenKind) -> bool,
    config: Config,
    reads: Seq<TokenRead>,
    q: int,
    m: Machine,
    outcomes: Seq<Option<Result<Event, Error>>>,
    r: Result<Value, Error>,
)
    requires
        src.len() > 0,
        !is_whitespace(src[0]),
        literal_ok_at(src, 0),
        forall|end: int, kind: TokenKind|
            0 < end <= src.len() && #[trigger] token_reads(src, 0, end, kind) ==> end == src.len()
                && accepts(kind) && literal_value(kind) is Some,
        lexes(src, q, reads),
        ran(start_machine(value_config(config), byte_len(src) as usize), reads, m, outcomes),
        read_value(outcomes, byte_len(src) as usize, r),
    ensures
        exists|kind: TokenKind| accepts(kind) && r == Ok::<Value, Error>(literal_value(kind).unwrap()),
{
    let m0 = start_machine(value_config(config), byte_len(src) as usize);
    let n = src.len() as int;
    let events = choose|events: Seq<Event>|
        #![trigger outcomes_of(events)]
        match r {
            Ok(v) => outcomes == outcomes_of(events) && steps(events) == flatten(v) && byte_free(v),
            Err(e) => {
                ||| outcomes == outcomes_of(events).push(Some(Err(e))) && unfinished(steps(events))
                ||| outcomes == outcomes_of(events).push(None) && events.len() == 0 && e == Error {
                    location: (byte_len(src) as usize)..(byte_len(src) as usize),
                    kind: crate::parser::ErrorKind::UnexpectedEof,
                }
                ||| outcomes == outcomes_of(events) && events.len() > 0 && events.last().kind is EndNested
                    && unfinished(steps(events.drop_last())) && e == Error {
                    location: events.last().location,
                    kind: crate::parser::ErrorKind::ExpectedValue,
                }
            },
        };
    // The calls gave at least one outcome.
    if let Ok(v) = r {
        if events.len() == 0 {
            assert(steps(events).len() == 0);
            match v {
                Value::Named(named) => match named.contents {
                    crate::value::StructContents::Mapping(_) => {},
                    crate::value::StructContents::Tuple(_) => {},
                },
                _ => {},
            }
            assert(flatten(v).len() > 0);
        }
    }
    assert(outcomes.len() > 0);
    // The first read is the token of the literal, and any read after it finds
    // the end of the source.
    lemma_lexes_from_start(src, q, reads);
    lemma_ran_first(m0, reads, m, outcomes);
    let (i, m1) = choose|i: int, m1: Machine|
        0 <= i <= reads.len() && #[trigger] next_kept(m0, reads.take(i), m1, outcomes[0]);
    let x = reads.take(i);
    let (j, ma, nn) = choose|j: int, ma: Machine, nn: nat|
        0 <= j <= x.len() && #[trigger] skipped(m0, x.take(j), ma, nn) && next_event(ma, x.skip(j))
            == Some((m1, outcomes[0])) && !crate::parser::grammar::left_out(m0.config, outcomes[0]);
    assert(reads.len() > 0) by {
        if reads.len() == 0 {
            if nn > 0 {
                lemma_skipped_first(m0, x.take(j), ma, nn);
                let jj = choose|jj: int|
                    0 <= jj <= x.take(j).len() && (#[trigger] next_event(m0, x.take(j).take(jj)) matches Some(
                        (mb, s),
                    ) && crate::parser::grammar::left_out(m0.config, s));
                assert(x.take(j).take(jj).len() == 0);
            } else {
                assert(x.skip(j).len() == 0);
            }
        }
    }
    lemma_lexes_first(src, 0, q, reads);
    let p1 = choose|p1: int| #[trigger] read_step(src, 0, p1, reads[0]) && crate::tokenizer::lexes_from(
        src,
        p1,
        q,
        reads.drop_first(),
    );
    assert(read_step(src, 0, p1, reads[0]));
    assert(reads[0] is Some && reads[0]->Some_0 is Ok);
    let tok = reads[0]->Some_0->Ok_0;
    let start = choose|start: int|
        #![trigger token_reads(src, start, p1, tok.kind)]
        0 <= start < p1 && (forall|k: int| 0 <= k < start ==> is_whitespace(#[trigger] src[k]))
            && token_reads(src, start, p1, tok.kind) && tok.location.start == crate::text::byte_offset(
            src,
            start,
        ) && tok.location.end == crate::text::byte_offset(src, p1) && !(tok.kind is Whitespace);
    if start > 0 {
        assert(is_whitespace(src[0]));
    }
    assert(p1 == n && accepts(tok.kind) && literal_value(tok.kind) is Some);
    if reads.len() > 1 {
        lemma_lexes_first(src, n, q, reads.drop_first());
        let p2 = choose|p2: int| #[trigger] read_step(src, n, p2, reads.drop_first()[0]) && crate::tokenizer::lexes_from(
            src,
            p2,
            q,
            reads.drop_first().drop_first(),
        );
        assert(reads.drop_first()[0] == reads[1]);
    }
    // No call before the first event skipped anything.
    if nn > 0 {
        lemma_skipped_first(m0, x.take(j), ma, nn);
        let jj = choose|jj: int|
            0 <= jj <= x.take(j).len() && (#[trigger] next_event(m0, x.take(j).take(jj)) matches Some(
                (mb, s),
            ) && crate::parser::grammar::left_out(m0.config, s));
        let y = x.take(j).take(jj);
        let (mb, s) = next_event(m0, y).unwrap();
        lemma_first_call(src, config, reads, tok, y, mb, s);
    }
    assert(nn == 0);
    assert(x.take(j).len() == 0);
    assert(x.skip(j) =~= x);
    lemma_first_call(src, config, reads, tok, x, m1, outcomes[0]);
    let ev = Event { location: tok.location, kind: EventKind::Primitive(literal_primitive(tok.kind)) };
    assert(step_of(ev.kind) == Step::Leaf(literal_primitive(tok.kind)));
    match r {
        Ok(v) => {
            assert(events[0] == ev);
            assert(steps(events)[0] == Step::Leaf(literal_primitive(tok.kind)));
            lemma_leaf_value(v, tok.kind);
            assert(r == Ok::<Value, Error>(literal_value(tok.kind).unwrap()));
        },
        Err(e) => {
            if outcomes == outcomes_of(events).push(Some(Err(e))) {
                assert(events.len() > 0);
                assert(events[0] == ev);
                assert(steps(events)[0] is Leaf);
            } else if outcomes == outcomes_of(events).push(None) {
                assert(outcomes[0] is None);
            } else {
                assert(events[0] == ev);
                assert(events.len() > 1);
                assert(steps(events.drop_last())[0] is Leaf);
            }
            assert(false);
        },
    }
}

/// The text that the writer renders for an integer within the range that
/// integer literals hold, read as a value, gives an integer that holds the
/// same value.
pub proof fn lemma_integer_value_reads_back(
    v: int,
    config: Config,
    reads: Seq<TokenRead>,
    q: int,
    m: Machine,
    outcomes: Seq<Option<Result<Event, Error>>>,
    r: Result<Value, Error>,
)
    requires
        i64::MIN <= v <= u64::MAX,
        lexes(decimal_text(v), q, reads),
        ran(start_machine(value_config(config), byte_len(decimal_text(v)) as usize), reads, m, outcomes),
        read_value(outcomes, byte_len(decimal_text(v)) as usize, r),
    ensures
        r matches Ok(Value::Integer(i)) && i.value() == v,
{
    let src = decimal_text(v);
    let accepts = |k: TokenKind| holds_integer(k, v);
    lemma_decimal_text_shape(v);
    lemma_integer_token_reads_back(v, src.len() as int, TokenKind::Comma);
    assert forall|end: int, kind: TokenKind|
        0 < end <= src.len() && #[trigger] token_reads(src, 0, end, kind) implies end == src.len()
            && accepts(kind) && literal_value(kind) is Some by {
        lemma_integer_token_reads_back(v, end, kind);
    }
    lemma_lone_literal_value(src, accepts, config, reads, q, m, outcomes, r);
}

/// The text that the writer renders for a boolean, read as a value, gives
/// the same boolean.
pub proof fn lemma_bool_value_reads_back(
    b: bool,
    config: Config,
    reads: Seq<TokenRead>,
    q: int,
    m: Machine,
    outcomes: Seq<Option<Result<Event, Error>>>,
    r: Result<Value, Error>,
)
    requires
        lexes(b.rendered(), q, reads),
        ran(start_machine(value_config(config), byte_len(b.rendered()) as usize), reads, m, outcomes),
        read_value(outcomes, byte_len(b.rendered()) as usize, r),
    ensures
        r == Ok::<Value, Error>(Value::Bool(b)),
{
    let src = b.rendered();
    let accepts = |k: TokenKind| k == TokenKind::Bool(b);
    lemma_bool_token_reads_back(b, src.len() as int, TokenKind::Comma);
    assert forall|end: int, kind: TokenKind|
        0 < end <= src.len() && #[trigger] token_reads(src, 0, end, kind) implies end == src.len()
            && accepts(kind) && literal_value(kind) is Some by {
        lemma_bool_token_reads_back(b, end, kind);
    }
    lemma_lone_literal_value(src, accepts, config, reads, q, m, outcomes, r);
}

/// The text that the writer renders for a string, read as a value, gives a
/// string holding the same characters.
pub proof fn lemma_string_value_reads_back(
    s: Seq<char>,
    config: Config,
    reads: Seq<TokenRead>,
    q: int,
    m: Machine,
    outcomes: Seq<Option<Result<Event, Error>>>,
    r: Result<Value, Error>,
)
    requires
        lexes(quoted(s), q, reads),
        ran(start_machine(value_config(config), byte_len(quoted(s)) as usize), reads, m, outcomes),
        read_value(outcomes, byte_len(quoted(s)) as usize, r),
    ensures
        r matches Ok(Value::String(t)) && t@ == s,
{
    let src = quoted(s);
    let accepts = |k: TokenKind| holds_string(k, s);
    assert(src.subrange(0, src.len() as int) =~= src);
    lemma_string_token_reads_back(src, 0, s, src.len() as int, TokenKind::Comma);
    assert forall|end: int, kind: TokenKind|
        0 < end <= src.len() && #[trigger] token_reads(src, 0, end, kind) implies end == src.len()
            && accepts(kind) && literal_value(kind) is Some by {
        lemma_string_token_reads_back(src, 0, s, end, kind);
    }
    lemma_lone_literal_value(src, accepts, config, reads, q, m, outcomes, r);
}

/// The text that the writer renders for a character, read as a value, gives
/// the same character.
pub proof fn lemma_char_value_reads_back(
    c: char,
    config: Config,
    reads: Seq<TokenRead>,
    q: int,
    m: Machine,
    outcomes: Seq<Option<Result<Event, Error>>>,
    r: Result<Value, Error>,
)
    requires
        lexes(quoted_char(c), q, reads),
        ran(start_machine(value_config(config), byte_len(quoted_char(c)) as usize), reads, m, outcomes),
        read_value(outcomes, byte_len(quoted_char(c)) as usize, r),
    ensures
        r == Ok::<Value, Error>(Value::Char(c)),
{
    let src = quoted_char(c);
    let accepts = |k: TokenKind| k == TokenKind::Character(c);
    assert(src.subrange(0, src.len() as int) =~= src);
    lemma_char_token_reads_back(src, 0, c, src.len() as int, TokenKind::Comma);
    assert forall|end: int, kind: TokenKind|
        0 < end <= src.len() && #[trigger] token_reads(src, 0, end, kind) implies end == src.len()
            && accepts(kind) && literal_value(kind) is Some by {
        lemma_char_token_reads_back(src, 0, c, end, kind);
    }
    lemma_lone_literal_value(src, accepts, config, reads, q, m, outcomes, r);
}

/// The text that the writer renders for a byte string, read as a value,
/// gives a byte string holding the same bytes.
pub proof fn lemma_bytes_value_reads_back(
    b: Seq<u8>,
    config: Config,
    reads: Seq<TokenRead>,
    q: int,
    m: Machine,
    outcomes: Seq<Option<Result<Event, Error>>>,
    r: Result<Value, Error>,
)
    requires
        lexes(quoted_bytes(b), q, reads),
        ran(start_machine(value_config(config), byte_len(quoted_bytes(b)) as usize), reads, m, outcomes),
        read_value(outcomes, byte_len(quoted_bytes(b)) as usize, r),
    ensures
        r matches Ok(Value::Bytes(t)) && t@ == b,
{
    let src = quoted_bytes(b);
    let accepts = |k: TokenKind| holds_bytes(k, b);
    assert(src.subrange(0, src.len() as int) =~= src);
    lemma_bytes_token_reads_back(src, 0, b, src.len() as int, TokenKind::Comma);
    assert forall|end: int, kind: TokenKind|
        0 < end <= src.len() && #[trigger] token_reads(src, 0, end, kind) implies end == src.len()
            && accepts(kind) && literal_value(kind) is Some by {
        lemma_bytes_token_reads_back(src, 0, b, end, kind);
    }
    lemma_lone_literal_value(src, accepts, config, reads, q, m, outcomes, r);
}

/// The text that the writer renders for a float value whose text is that of
/// a floating point literal without underscores, as every float read from
/// Rsn holds, read as a value gives a float holding the same text.
pub proof fn lemma_float_value_reads_back(
    f: String,
    layout: crate::writer::Config,
    depth: nat,
    config: Config,
    reads: Seq<TokenRead>,
    q: int,
    m: Machine,
    outcomes: Seq<Option<Result<Event, Error>>>,
    r: Result<Value, Error>,
)
    requires
        float_text(f@),
        lexes(render(Value::Float(f), layout, depth), q, reads),
        ran(
            start_machine(value_config(config), byte_len(render(Value::Float(f), layout, depth)) as usize),
            reads,
            m,
            outcomes,
        ),
        read_value(outcomes, byte_len(render(Value::Float(f), layout, depth)) as usize, r),
    ensures
        r matches Ok(Value::Float(t)) && t@ == f@,
{
    let src = render(Value::Float(f), layout, depth);
    assert(src == f@);
    let accepts = |k: TokenKind| k matches TokenKind::Float(g) && g@ == f@;
    lemma_float_token_reads_back(src, src.len() as int, TokenKind::Comma);
    assert forall|end: int, kind: TokenKind|
        0 < end <= src.len() && #[trigger] token_reads(src, 0, end, kind) implies end == src.len()
            && accepts(kind) && literal_value(kind) is Some by {
        lemma_float_token_reads_back(src, end, kind);
    }
    lemma_lone_literal_value(src, accepts, config, reads, q, m, outcomes, r);
}

/// A value read back is the scalar value `v` that was written: an integer of
/// the same value, and a float, a string or bytes holding the same text or
/// bytes, a boolean or a character itself.
pub open spec fn same_scalar(w: Value, v: Value) -> bool {
    match (w, v) {
        (Value::Integer(a), Value::Integer(b)) => a.value() == b.value(),
        (Value::Float(a), Value::Float(b)) => a@ == b@,
        (Value::Bool(a), Value::Bool(b)) => a == b,
        (Value::Char(a), Value::Char(b)) => a == b,
        (Value::String(a), Value::String(b)) => a@ == b@,
        (Value::Bytes(a), Value::Bytes(b)) => a@ == b@,
        _ => false,
    }
}

/// `v` is a scalar value that its text reads back as: an integer within the
/// range that integer literals hold, a float whose text is that of a
/// floating point literal without underscores, a boolean, a character, a
/// string or bytes.
pub open spec fn reads_back_as_itself(v: Value) -> bool {
    match v {
        Value::Integer(i) => i64::MIN <= i.value() <= u64::MAX,
        Value::Float(f) => float_text(f@),
        Value::Bool(_) | Value::Char(_) | Value::String(_) | Value::Bytes(_) => true,
        _ => false,
    }
}

/// Every scalar value that the writer renders reads back, as a value, as
/// the same value.
pub proof fn lemma_scalar_value_reads_back(
    v: Value,
    layout: crate::writer::Config,
    depth: nat,
    config: Config,
    reads: Seq<TokenRead>,
    q: int,
    m: Machine,
    outcomes: Seq<Option<Result<Event, Error>>>,
    r: Result<Value, Error>,
)
    requires
        reads_back_as_itself(v),
        lexes(render(v, layout, depth), q, reads),
        ran(
            start_machine(value_config(config), byte_len(render(v, layout, depth)) as usize),
            reads,
            m,
            outcomes,
        ),
        read_value(outcomes, byte_len(render(v, layout, depth)) as usize, r),
    ensures
        r matches Ok(w) && same_scalar(w, v),
{
    match v {
        Value::Integer(i) => lemma_integer_value_reads_back(i.value(), config, reads, q, m, outcomes, r),
        Value::Float(f) => lemma_float_value_reads_back(f, layout, depth, config, reads, q, m, outcomes, r),
        Value::Bool(b) => lemma_bool_value_reads_back(b, config, reads, q, m, outcomes, r),
        Value::Char(c) => lemma_char_value_reads_back(c, config, reads, q, m, outcomes, r),
        Value::String(t) => lemma_string_value_reads_back(t@, config, reads, q, m, outcomes, r),
        Value::Bytes(b) => lemma_bytes_value_reads_back(b@, config, reads, q, m, outcomes, r),
        _ => {},
    }
}

} // verus!
