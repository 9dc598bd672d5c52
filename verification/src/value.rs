use vstd::prelude::*;

use crate::parser::grammar::{ran, start_machine, Machine, TokenRead};
use crate::parser::{
    depth_step, event_reads, within, Config, Error, ErrorKind, Event, EventKind, Name, Nested,
    Parser, Primitive,
};
use crate::text::byte_len;
use crate::tokenizer::integer::in_range;
use crate::tokenizer::{lexes, Integer};

pub mod convert;
pub mod read_back;

verus! {

/// A value representable by Rsn. A floating point number is held as the text
/// of its literal.
#[derive(Debug, PartialEq)]
pub enum Value {
    /// An integer.
    Integer(Integer),
    /// A floating point number.
    Float(String),
    /// A boolean.
    Bool(bool),
    /// A character.
    Char(char),
    /// A byte.
    Byte(u8),
    /// An identifier (name).
    Identifier(String),
    /// A string.
    String(String),
    /// A byte string.
    Bytes(Vec<u8>),
    /// A named structure.
    Named(Named),
    /// A tuple of values.
    Tuple(List),
    /// An array of values.
    Array(List),
    /// A collection of key-value pairs.
    Mapping(Mapping),
}

/// A named structure.
#[derive(Debug, PartialEq)]
pub struct Named {
    /// The name of the structure.
    pub name: String,
    /// The contents of the structure.
    pub contents: StructContents,
}

/// The contents of a structure.
#[derive(Debug, PartialEq)]
pub enum StructContents {
    /// Named fields, represented as key-value pairs.
    Mapping(Mapping),
    /// A tuple of values.
    Tuple(List),
}

/// A list of key-value pairs.
#[derive(Debug, PartialEq)]
pub struct Mapping(pub Vec<(Value, Value)>);

impl Default for Mapping {
    fn default() -> (m: Self)
        ensures
            m.0@.len() == 0,
    {
        Mapping(Vec::new())
    }
}

/// A list of values.
#[derive(Debug, PartialEq)]
pub struct List(pub Vec<Value>);

impl List {
    /// Returns an empty list.
    pub fn new() -> (l: Self)
        ensures
            l.0@.len() == 0,
    {
        List(Vec::new())
    }
}

impl Default for List {
    fn default() -> (l: Self)
        ensures
            l.0@.len() == 0,
    {
        List::new()
    }
}

/// An event with its location left out: how a value is written as a
/// sequence of events.
pub enum Step {
    /// A nested value starts, with its name if it has one.
    Start(Option<String>, Nested),
    /// The innermost nested value ends.
    End,
    /// A primitive literal.
    Leaf(Primitive),
    /// A comment.
    Note(String),
}

/// The step that an event of `kind` takes.
pub open spec fn step_of(kind: EventKind) -> Step {
    match kind {
        EventKind::BeginNested { name, kind } => Step::Start(
            match name {
                Some(n) => Some(n.name),
                None => None,
            },
            kind,
        ),
        EventKind::EndNested => Step::End,
        EventKind::Primitive(p) => Step::Leaf(p),
        EventKind::Comment(c) => Step::Note(c),
    }
}

/// The steps that `events` take.
pub open spec fn steps(events: Seq<Event>) -> Seq<Step> {
    events.map_values(|e: Event| step_of(e.kind))
}

/// The steps that write `v`: a primitive as one leaf (a byte as the integer
/// it reads back as), a nested value as its start, the steps of its items in
/// order, and its end.
pub open spec fn flatten(v: Value) -> Seq<Step>
    decreases v,
{
    match v {
        Value::Integer(i) => seq![Step::Leaf(Primitive::Integer(i))],
        Value::Float(f) => seq![Step::Leaf(Primitive::Float(f))],
        Value::Bool(b) => seq![Step::Leaf(Primitive::Bool(b))],
        Value::Char(c) => seq![Step::Leaf(Primitive::Char(c))],
        Value::Byte(b) => seq![Step::Leaf(Primitive::Integer(Integer::Usize(b as usize)))],
        Value::Identifier(s) => seq![Step::Leaf(Primitive::Identifier(s))],
        Value::String(s) => seq![Step::Leaf(Primitive::String(s))],
        Value::Bytes(b) => seq![Step::Leaf(Primitive::Bytes(b))],
        Value::Named(named) => match named.contents {
            StructContents::Mapping(m) => seq![Step::Start(Some(named.name), Nested::Mapping)]
                + flatten_entries(m.0@) + seq![Step::End],
            StructContents::Tuple(l) => seq![Step::Start(Some(named.name), Nested::Tuple)]
                + flatten_list(l.0@) + seq![Step::End],
        },
        Value::Tuple(l) => seq![Step::Start(None, Nested::Tuple)] + flatten_list(l.0@) + seq![
            Step::End,
        ],
        Value::Array(l) => seq![Step::Start(None, Nested::List)] + flatten_list(l.0@) + seq![
            Step::End,
        ],
        Value::Mapping(m) => seq![Step::Start(None, Nested::Mapping)] + flatten_entries(m.0@)
            + seq![Step::End],
    }
}

/// The steps of `vs`, one value after the other.
pub open spec fn flatten_list(vs: Seq<Value>) -> Seq<Step>
    decreases vs,
{
    if vs.len() == 0 {
        seq![]
    } else {
        flatten_list(vs.drop_last()) + flatten(vs.last())
    }
}

/// The steps of `entries`, each key followed by its value.
pub open spec fn flatten_entries(entries: Seq<(Value, Value)>) -> Seq<Step>
    decreases entries,
{
    if entries.len() == 0 {
        seq![]
    } else {
        flatten_entries(entries.drop_last()) + flatten(entries.last().0) + flatten(
            entries.last().1,
        )
    }
}

/// `v` holds no byte: a byte reads back as an integer, so values read from a
/// source hold none.
pub open spec fn byte_free(v: Value) -> bool
    decreases v,
{
    match v {
        Value::Byte(_) => false,
        Value::Named(named) => match named.contents {
            StructContents::Mapping(m) => entries_byte_free(m.0@),
            StructContents::Tuple(l) => list_byte_free(l.0@),
        },
        Value::Tuple(l) => list_byte_free(l.0@),
        Value::Array(l) => list_byte_free(l.0@),
        Value::Mapping(m) => entries_byte_free(m.0@),
        _ => true,
    }
}

/// Each of `vs` holds no byte.
pub open spec fn list_byte_free(vs: Seq<Value>) -> bool
    decreases vs,
{
    if vs.len() == 0 {
        true
    } else {
        list_byte_free(vs.drop_last()) && byte_free(vs.last())
    }
}

/// Each key and value of `entries` holds no byte.
pub open spec fn entries_byte_free(entries: Seq<(Value, Value)>) -> bool
    decreases entries,
{
    if entries.len() == 0 {
        true
    } else {
        entries_byte_free(entries.drop_last()) && byte_free(entries.last().0) && byte_free(
            entries.last().1,
        )
    }
}

/// The name that a nested value's start carries, without its location.
pub open spec fn name_of(name: Option<Name>) -> Option<String> {
    match name {
        Some(n) => Some(n.name),
        None => None,
    }
}

/// The events of `history` from index `start` on write `v`.
pub open spec fn writes(history: Seq<Event>, start: int, v: Value) -> bool {
    &&& 0 <= start <= history.len()
    &&& steps(history.subrange(start, history.len() as int)) == flatten(v)
}

/// The steps of consecutive events are the steps of their parts, joined.
proof fn lemma_steps_split(h: Seq<Event>, a: int, b: int, c: int)
    requires
        0 <= a <= b <= c <= h.len(),
    ensures
        steps(h.subrange(a, c)) == steps(h.subrange(a, b)) + steps(h.subrange(b, c)),
{
    assert(steps(h.subrange(a, c)) =~= steps(h.subrange(a, b)) + steps(h.subrange(b, c)));
}

/// The steps of one event.
proof fn lemma_steps_one(h: Seq<Event>, i: int)
    requires
        0 <= i < h.len(),
    ensures
        steps(h.subrange(i, i + 1)) == seq![step_of(h[i].kind)],
{
    assert(steps(h.subrange(i, i + 1)) =~= seq![step_of(h[i].kind)]);
}

/// Adding a value to a list adds its steps at the end.
proof fn lemma_flatten_list_push(vs: Seq<Value>, v: Value)
    ensures
        flatten_list(vs.push(v)) == flatten_list(vs) + flatten(v),
{
    assert(vs.push(v).drop_last() =~= vs);
}

/// Adding an entry to a map adds the steps of its key and its value at the end.
proof fn lemma_flatten_entries_push(es: Seq<(Value, Value)>, k: Value, v: Value)
    ensures
        flatten_entries(es.push((k, v))) == flatten_entries(es) + flatten(k) + flatten(v),
{
    assert(es.push((k, v)).drop_last() =~= es);
}

/// A parser that reads values: its comments left out.
pub open spec fn reads_values(p: &Parser) -> bool {
    p.inv() && !p.config().include_comments
}

/// `new` continues `old`: the same source and configuration, the events
/// and outcomes handed out before kept, and no more work left.
pub open spec fn extends(old: &Parser, new: &Parser) -> bool {
    &&& reads_values(new)
    &&& new.src() == old.src()
    &&& new.config() == old.config()
    &&& new.history().len() >= old.history().len()
    &&& forall|i: int| 0 <= i < old.history().len() ==> new.history()[i] == old.history()[i]
    &&& new.outcomes().len() >= old.outcomes().len()
    &&& forall|i: int| 0 <= i < old.outcomes().len() ==> new.outcomes()[i] == old.outcomes()[i]
    &&& new.measure() <= old.measure()
    &&& old.traced() ==> new.traced()
}

/// The outcomes of calls of a parser's `next` that hand out `events`.
pub open spec fn outcomes_of(events: Seq<Event>) -> Seq<Option<Result<Event, Error>>> {
    events.map_values(|e: Event| Some(Ok(e)))
}

/// The events that `new` has handed out since it was `old`.
pub open spec fn history_since(old: &Parser, new: &Parser) -> Seq<Event> {
    new.history().subrange(old.history().len() as int, new.history().len() as int)
}

/// The outcomes of the calls of `next` on `new` since it was `old`.
pub open spec fn outcomes_since(old: &Parser, new: &Parser) -> Seq<Option<Result<Event, Error>>> {
    new.outcomes().subrange(old.outcomes().len() as int, new.outcomes().len() as int)
}

/// How deep the nested values that `s` starts and ends go at its end.
pub open spec fn step_depth(s: Seq<Step>) -> int
    decreases s.len(),
{
    if s.len() == 0 {
        0
    } else {
        step_depth(s.drop_last()) + match s.last() {
            Step::Start(..) => 1int,
            Step::End => -1int,
            _ => 0int,
        }
    }
}

/// `s` starts a value that it does not finish: it is empty, or it starts a
/// nested value and stays inside it.
pub open spec fn unfinished(s: Seq<Step>) -> bool {
    s.len() == 0 || (s[0] is Start && forall|k: int| 1 <= k <= s.len() ==> step_depth(#[trigger] s.take(k)) > 0)
}

/// Every prefix of `s` ends at depth zero or deeper, and `s` ends at depth zero.
pub open spec fn balanced(s: Seq<Step>) -> bool {
    &&& step_depth(s) == 0
    &&& forall|k: int| 0 <= k <= s.len() ==> step_depth(#[trigger] s.take(k)) >= 0
}

/// `s` is empty, or it starts a nested value and every nonempty prefix of it
/// stays inside.
spec fn opened(s: Seq<Step>) -> bool {
    s.len() > 0 ==> s[0] is Start && forall|k: int| 1 <= k <= s.len() ==> step_depth(#[trigger] s.take(k)) >= 1
}

/// The depth of steps one after the other adds up.
proof fn lemma_depth_append(a: Seq<Step>, b: Seq<Step>)
    ensures
        step_depth(a + b) == step_depth(a) + step_depth(b),
    decreases b.len(),
{
    if b.len() > 0 {
        assert((a + b).drop_last() =~= a + b.drop_last());
        lemma_depth_append(a, b.drop_last());
    } else {
        assert(a + b =~= a);
    }
}

/// Balanced steps one after the other are balanced.
proof fn lemma_balanced_append(a: Seq<Step>, b: Seq<Step>)
    requires
        balanced(a),
        balanced(b),
    ensures
        balanced(a + b),
{
    lemma_depth_append(a, b);
    assert forall|k: int| 0 <= k <= (a + b).len() implies step_depth(#[trigger] (a + b).take(k)) >= 0 by {
        if k <= a.len() {
            assert((a + b).take(k) =~= a.take(k));
        } else {
            assert((a + b).take(k) =~= a + b.take(k - a.len()));
            lemma_depth_append(a, b.take(k - a.len()));
        }
    }
}

/// A start, then balanced steps, stays inside the nested value it starts.
proof fn lemma_opened_after_start(step: Step, b: Seq<Step>)
    requires
        step is Start,
        balanced(b),
    ensures
        opened(seq![step] + b),
        step_depth(seq![step] + b) == 1,
{
    lemma_depth_append(seq![step], b);
    assert(seq![step].drop_last() =~= Seq::<Step>::empty());
    assert(step_depth(Seq::<Step>::empty()) == 0);
    assert(seq![step].last() == step);
    assert(step_depth(seq![step]) == 1);
    assert forall|k: int| 1 <= k <= (seq![step] + b).len() implies step_depth(
        #[trigger] (seq![step] + b).take(k),
    ) >= 1 by {
        assert((seq![step] + b).take(k) =~= seq![step] + b.take(k - 1));
        lemma_depth_append(seq![step], b.take(k - 1));
    }
}

/// Opened steps followed by balanced ones stay opened.
proof fn lemma_opened_append(a: Seq<Step>, b: Seq<Step>)
    requires
        a.len() > 0,
        opened(a),
        balanced(b),
    ensures
        opened(a + b),
        step_depth(a + b) == step_depth(a),
{
    lemma_depth_append(a, b);
    assert forall|k: int| 1 <= k <= (a + b).len() implies step_depth(#[trigger] (a + b).take(k)) >= 1 by {
        if k <= a.len() {
            assert((a + b).take(k) =~= a.take(k));
        } else {
            assert((a + b).take(k) =~= a + b.take(k - a.len()));
            lemma_depth_append(a, b.take(k - a.len()));
            assert(a.take(a.len() as int) =~= a);
        }
    }
    assert((a + b)[0] == a[0]);
}

/// A start followed by balanced steps opens a value and leaves it
/// unfinished.
proof fn lemma_start_then(step: Step, b: Seq<Step>)
    requires
        step is Start,
        balanced(b),
    ensures
        opened(seq![step] + b),
        unfinished(seq![step] + b),
{
    lemma_opened_after_start(step, b);
}

/// Opened steps leave the value they start unfinished.
proof fn lemma_opened_unfinished(a: Seq<Step>)
    requires
        opened(a),
    ensures
        unfinished(a),
{
}

/// Opened steps followed by unfinished ones leave the value unfinished.
proof fn lemma_unfinished_after(a: Seq<Step>, b: Seq<Step>)
    requires
        opened(a),
        unfinished(b),
    ensures
        unfinished(a + b),
{
    if a.len() == 0 {
        assert(a + b =~= b);
    } else {
        assert((a + b)[0] == a[0]);
        assert forall|k: int| 1 <= k <= (a + b).len() implies step_depth(#[trigger] (a + b).take(k)) > 0 by {
            if k <= a.len() {
                assert((a + b).take(k) =~= a.take(k));
            } else {
                assert((a + b).take(k) =~= a + b.take(k - a.len()));
                lemma_depth_append(a, b.take(k - a.len()));
                assert(a.take(a.len() as int) =~= a);
                if k - a.len() == 0 {
                    assert(b.take(0) =~= Seq::<Step>::empty());
                }
            }
        }
    }
}

/// The steps of a value are balanced.
proof fn lemma_flatten_balanced(v: Value)
    ensures
        balanced(flatten(v)),
    decreases v,
{
    match v {
        Value::Named(named) => match named.contents {
            StructContents::Mapping(m) => {
                lemma_entries_balanced(m.0@);
                lemma_wrapped_balanced(Step::Start(Some(named.name), Nested::Mapping), flatten_entries(m.0@));
            },
            StructContents::Tuple(l) => {
                lemma_list_balanced(l.0@);
                lemma_wrapped_balanced(Step::Start(Some(named.name), Nested::Tuple), flatten_list(l.0@));
            },
        },
        Value::Tuple(l) => {
            lemma_list_balanced(l.0@);
            lemma_wrapped_balanced(Step::Start(None, Nested::Tuple), flatten_list(l.0@));
        },
        Value::Array(l) => {
            lemma_list_balanced(l.0@);
            lemma_wrapped_balanced(Step::Start(None, Nested::List), flatten_list(l.0@));
        },
        Value::Mapping(m) => {
            lemma_entries_balanced(m.0@);
            lemma_wrapped_balanced(Step::Start(None, Nested::Mapping), flatten_entries(m.0@));
        },
        _ => {
            let s = flatten(v);
            assert(s.drop_last() =~= Seq::<Step>::empty());
            assert(s.last() is Leaf);
            assert(step_depth(Seq::<Step>::empty()) == 0);
            assert(step_depth(s) == 0);
            assert forall|k: int| 0 <= k <= s.len() implies step_depth(#[trigger] s.take(k)) >= 0 by {
                if k == 0 {
                    assert(s.take(k) =~= Seq::<Step>::empty());
                } else {
                    assert(s.take(k) =~= s);
                }
            }
        },
    }
}

/// A start, balanced steps and an end are balanced.
proof fn lemma_wrapped_balanced(step: Step, b: Seq<Step>)
    requires
        step is Start,
        balanced(b),
    ensures
        balanced(seq![step] + b + seq![Step::End]),
{
    lemma_opened_after_start(step, b);
    let a = seq![step] + b;
    let s = a + seq![Step::End];
    assert(s.drop_last() =~= a);
    assert forall|k: int| 0 <= k <= s.len() implies step_depth(#[trigger] s.take(k)) >= 0 by {
        if k == 0 {
            assert(s.take(k) =~= Seq::<Step>::empty());
        } else if k <= a.len() {
            assert(s.take(k) =~= a.take(k));
        } else {
            assert(s.take(k) =~= s);
        }
    }
}

/// The steps of a list of values are balanced.
proof fn lemma_list_balanced(vs: Seq<Value>)
    ensures
        balanced(flatten_list(vs)),
    decreases vs,
{
    if vs.len() == 0 {
        assert(flatten_list(vs).take(0) =~= Seq::<Step>::empty());
    } else {
        lemma_list_balanced(vs.drop_last());
        lemma_flatten_balanced(vs.last());
        lemma_balanced_append(flatten_list(vs.drop_last()), flatten(vs.last()));
    }
}

/// The steps of the entries of a map are balanced.
proof fn lemma_entries_balanced(entries: Seq<(Value, Value)>)
    ensures
        balanced(flatten_entries(entries)),
    decreases entries,
{
    if entries.len() == 0 {
        assert(flatten_entries(entries).take(0) =~= Seq::<Step>::empty());
    } else {
        lemma_entries_balanced(entries.drop_last());
        lemma_flatten_balanced(entries.last().0);
        lemma_flatten_balanced(entries.last().1);
        lemma_balanced_append(flatten_entries(entries.drop_last()), flatten(entries.last().0));
        lemma_balanced_append(
            flatten_entries(entries.drop_last()) + flatten(entries.last().0),
            flatten(entries.last().1),
        );
    }
}

/// Reading a value whose events start at index `start` of the history went
/// from `old` to `new` and stopped at `e`: after the events handed out, a
/// call of `next` failed with `e` inside the value, or found the end of the
/// source before it (an unexpected end there), or the last event handed out
/// ended a nested value where a value was expected.
pub open spec fn stopped_at(old: &Parser, new: &Parser, start: int, e: Error) -> bool {
    let events = outcomes_of(history_since(old, new));
    let vs = steps(new.history().subrange(start, new.history().len() as int));
    let end = byte_len(new.src()) as usize;
    &&& 0 <= start <= new.history().len()
    &&& {
        ||| outcomes_since(old, new) == events.push(Some(Err(e))) && unfinished(vs)
        ||| outcomes_since(old, new) == events.push(None) && vs.len() == 0 && e == Error {
            location: end..end,
            kind: ErrorKind::UnexpectedEof,
        }
        ||| outcomes_since(old, new) == events && vs.len() > 0 && new.history().last().kind is EndNested
            && unfinished(vs.drop_last()) && e == Error {
            location: new.history().last().location,
            kind: ErrorKind::ExpectedValue,
        }
    }
}

/// The value result `r` is what a value read from the start of a source of
/// `end` bytes gives, when the calls of a parser's `next` give `outcomes`:
/// the value that their events write, up to the event that completes it; or
/// the error that stopped it: a failed call before the value was complete,
/// the end of the source before the value, or the end of a nested value
/// where a value was expected.
pub open spec fn read_value(
    outcomes: Seq<Option<Result<Event, Error>>>,
    end: usize,
    r: Result<Value, Error>,
) -> bool {
    exists|events: Seq<Event>|
        #![trigger outcomes_of(events)]
        match r {
            Ok(v) => outcomes == outcomes_of(events) && steps(events) == flatten(v) && byte_free(v),
            Err(e) => {
                ||| outcomes == outcomes_of(events).push(Some(Err(e))) && unfinished(steps(events))
                ||| outcomes == outcomes_of(events).push(None) && events.len() == 0 && e == Error {
                    location: end..end,
                    kind: ErrorKind::UnexpectedEof,
                }
                ||| outcomes == outcomes_of(events) && events.len() > 0 && events.last().kind is EndNested
                    && unfinished(steps(events.drop_last())) && e == Error {
                    location: events.last().location,
                    kind: ErrorKind::ExpectedValue,
                }
            },
        }
}

/// The configuration in which values are read: comments left out.
pub open spec fn value_config(config: Config) -> Config {
    Config { allow_implicit_map_at_root: config.allow_implicit_map_at_root, include_comments: false }
}

/// What was handed out from `a` to `c` is what was handed out from `a` to
/// `b` and then from `b` to `c`.
proof fn lemma_since_chain(a: &Parser, b: &Parser, c: &Parser)
    requires
        extends(a, b),
        extends(b, c),
    ensures
        extends(a, c),
        history_since(a, c) == history_since(a, b) + history_since(b, c),
        outcomes_since(a, c) == outcomes_since(a, b) + outcomes_since(b, c),
        outcomes_of(history_since(a, c)) == outcomes_of(history_since(a, b)) + outcomes_of(
            history_since(b, c),
        ),
{
    assert(history_since(a, c) =~= history_since(a, b) + history_since(b, c)) by {
        assert forall|k: int| 0 <= k < history_since(a, b).len() implies history_since(a, c)[k]
            == history_since(a, b)[k] by {
            assert(c.history()[a.history().len() + k] == b.history()[a.history().len() + k]);
        }
    }
    assert(outcomes_since(a, c) =~= outcomes_since(a, b) + outcomes_since(b, c)) by {
        assert forall|k: int| 0 <= k < outcomes_since(a, b).len() implies outcomes_since(a, c)[k]
            == outcomes_since(a, b)[k] by {
            assert(c.outcomes()[a.outcomes().len() + k] == b.outcomes()[a.outcomes().len() + k]);
        }
    }
    assert(outcomes_of(history_since(a, c)) =~= outcomes_of(history_since(a, b)) + outcomes_of(
        history_since(b, c),
    ));
}

/// A value whose events start at `inner`, read from `b` to `c`, stopped at
/// `e`; events were read from `a` to `b`, and those from `outer` to `inner`
/// open a nested value. Reading the value whose events start at `outer`
/// from `a` stopped at `e`.
proof fn lemma_stopped_chain(a: &Parser, b: &Parser, c: &Parser, outer: int, inner: int, e: Error)
    requires
        extends(a, b),
        extends(b, c),
        outcomes_since(a, b) == outcomes_of(history_since(a, b)),
        stopped_at(b, c, inner, e),
        0 <= outer <= inner < c.history().len(),
        inner <= b.history().len(),
        opened(steps(b.history().subrange(outer, inner))),
    ensures
        extends(a, c),
        stopped_at(a, c, outer, e),
{
    lemma_since_chain(a, b, c);
    let x = outcomes_of(history_since(a, b));
    let y = outcomes_of(history_since(b, c));
    assert((x + y).push(Some(Err(e))) =~= x + y.push(Some(Err(e))));
    assert((x + y).push(None) =~= x + y.push(None));
    let h = c.history();
    let pre = steps(h.subrange(outer, inner));
    let vi = steps(h.subrange(inner, h.len() as int));
    assert(h.subrange(outer, inner) =~= b.history().subrange(outer, inner));
    assert(steps(h.subrange(outer, h.len() as int)) =~= pre + vi);
    if unfinished(vi) {
        lemma_unfinished_after(pre, vi);
    }
    if vi.len() > 0 && unfinished(vi.drop_last()) {
        assert((pre + vi).drop_last() =~= pre + vi.drop_last());
        lemma_unfinished_after(pre, vi.drop_last());
    }
}

/// A call of `next` from `b` to `c` that failed with `e`, after events read
/// from `a` to `b`, inside the value whose events start at `start`, or at
/// the end of the source before it: reading that value from `a` stopped at
/// `e`.
proof fn lemma_stopped_by_next(
    a: &Parser,
    b: &Parser,
    c: &Parser,
    start: int,
    r: Option<Result<Event, Error>>,
    e: Error,
)
    requires
        extends(a, b),
        reads_values(c),
        c.src() == b.src(),
        c.config() == b.config(),
        c.measure() <= b.measure(),
        b.traced() ==> c.traced(),
        c.history() == b.history(),
        c.outcomes() == b.outcomes().push(r),
        outcomes_since(a, b) == outcomes_of(history_since(a, b)),
        0 <= start <= b.history().len(),
        r == Some(Err::<Event, Error>(e)) && unfinished(
            steps(b.history().subrange(start, b.history().len() as int)),
        ) || (r is None && start == b.history().len() && e == Error {
            location: (byte_len(c.src()) as usize)..(byte_len(c.src()) as usize),
            kind: ErrorKind::UnexpectedEof,
        }),
    ensures
        extends(a, c),
        stopped_at(a, c, start, e),
{
    assert(history_since(b, c) =~= Seq::<Event>::empty());
    assert(outcomes_since(b, c) =~= seq![r]);
    assert(extends(b, c));
    lemma_since_chain(a, b, c);
    assert(outcomes_of(history_since(b, c)) =~= Seq::<Option<Result<Event, Error>>>::empty());
    assert(outcomes_since(a, c) =~= outcomes_of(history_since(a, c)).push(r));
    if r is None {
        assert(steps(c.history().subrange(start, c.history().len() as int)) =~= Seq::<Step>::empty());
    }
}

/// Events read from `a` to `b` and from `b` to `c` are read from `a` to `c`.
proof fn lemma_events_chain(a: &Parser, b: &Parser, c: &Parser)
    requires
        extends(a, b),
        extends(b, c),
        outcomes_since(a, b) == outcomes_of(history_since(a, b)),
        outcomes_since(b, c) == outcomes_of(history_since(b, c)),
    ensures
        extends(a, c),
        outcomes_since(a, c) == outcomes_of(history_since(a, c)),
{
    lemma_since_chain(a, b, c);
}

/// One call of `next` that handed out `ev` from `a` to `b`.
proof fn lemma_one_event(a: &Parser, b: &Parser, ev: Event)
    requires
        b.history() == a.history().push(ev),
        b.outcomes() == a.outcomes().push(Some(Ok(ev))),
    ensures
        history_since(a, b) == seq![ev],
        outcomes_since(a, b) == outcomes_of(history_since(a, b)),
{
    assert(history_since(a, b) =~= seq![ev]);
    assert(outcomes_since(a, b) =~= outcomes_of(history_since(a, b)));
}

impl Value {
    /// Reads the value that `event`, the last event handed out by `parser`,
    /// starts.
    fn from_parser_event(event: Event, parser: &mut Parser) -> (r: Result<Value, Error>)
        requires
            reads_values(old(parser)),
            old(parser).history().len() > 0,
            old(parser).history().last() == event,
            !(event.kind is Comment),
            event.kind is BeginNested ==> old(parser).depth() > 0,
        ensures
            extends(old(parser), final(parser)),
            r matches Ok(v) ==> {
                &&& writes(final(parser).history(), old(parser).history().len() - 1, v)
                &&& final(parser).depth() == old(parser).depth() - (if event.kind is BeginNested {
                    1int
                } else {
                    0
                })
            },
            r matches Err(e) ==> within(final(parser).src(), e.location),
            r matches Ok(v) ==> byte_free(v),
            event.kind is EndNested ==> r is Err,
            r is Ok ==> outcomes_since(old(parser), final(parser)) == outcomes_of(
                history_since(old(parser), final(parser)),
            ),
            r matches Err(e) ==> stopped_at(
                old(parser),
                final(parser),
                old(parser).history().len() - 1,
                e,
            ),
        decreases old(parser).measure(), 1nat,
    {
        proof {
            parser.lemma_history_reads();
            lemma_steps_one(parser.history(), parser.history().len() - 1);
            assert(history_since(parser, parser) =~= Seq::<Event>::empty());
            assert(outcomes_since(parser, parser) =~= outcomes_of(history_since(parser, parser)));
        }
        let Event { location, kind } = event;
        match kind {
            EventKind::BeginNested { name, kind: Nested::Mapping } => Self::parse_map(name, parser),
            EventKind::BeginNested { name, kind } => Self::parse_sequence(name, parser, kind),
            EventKind::Primitive(primitive) => Ok(
                match primitive {
                    Primitive::Bool(value) => Value::Bool(value),
                    Primitive::Integer(value) => Value::Integer(value),
                    Primitive::Float(value) => Value::Float(value),
                    Primitive::Char(value) => Value::Char(value),
                    Primitive::String(value) => Value::String(value),
                    Primitive::Identifier(value) => Value::Identifier(value),
                    Primitive::Bytes(value) => Value::Bytes(value),
                },
            ),
            EventKind::EndNested => {
                proof {
                    let h = parser.history();
                    assert(steps(h.subrange(h.len() - 1, h.len() as int)).drop_last()
                        =~= Seq::<Step>::empty());
                }
                Err(Error::new(location, ErrorKind::ExpectedValue))
            },
            EventKind::Comment(_) => vstd::pervasive::unreached(),
        }
    }

    /// Reads the items of the tuple or list whose start, named `name`, is the
    /// last event handed out by `parser`, up to its end.
    fn parse_sequence(name: Option<Name>, parser: &mut Parser, kind: Nested) -> (r: Result<
        Value,
        Error,
    >)
        requires
            reads_values(old(parser)),
            kind != Nested::Mapping,
            name is Some ==> kind == Nested::Tuple,
            old(parser).history().len() > 0,
            step_of(old(parser).history().last().kind) == Step::Start(name_of(name), kind),
            old(parser).depth() > 0,
        ensures
            extends(old(parser), final(parser)),
            r matches Ok(v) ==> {
                &&& writes(final(parser).history(), old(parser).history().len() - 1, v)
                &&& final(parser).depth() == old(parser).depth() - 1
            },
            r matches Err(e) ==> within(final(parser).src(), e.location),
            r matches Ok(v) ==> byte_free(v),
            r is Ok ==> outcomes_since(old(parser), final(parser)) == outcomes_of(
                history_since(old(parser), final(parser)),
            ),
            r matches Err(e) ==> stopped_at(
                old(parser),
                final(parser),
                old(parser).history().len() - 1,
                e,
            ),
        decreases old(parser).measure(), 0nat,
    {
        let mut list = List::new();
        let ghost p0 = *parser;
        let ghost start = parser.history().len() - 1;
        let ghost h0 = parser.history();
        let ghost depth = parser.depth();
        let ghost measure = parser.measure();
        let ghost step = Step::Start(name_of(name), kind);
        proof {
            lemma_steps_one(parser.history(), start);
        }
        loop
            invariant
                reads_values(parser),
                parser.src() == old(parser).src(),
                parser.config() == old(parser).config(),
                kind != Nested::Mapping,
                name is Some ==> kind == Nested::Tuple,
                step == Step::Start(name_of(name), kind),
                0 <= start < h0.len() <= parser.history().len(),
                h0 == old(parser).history(),
                start == h0.len() - 1,
                forall|i: int| 0 <= i < h0.len() ==> parser.history()[i] == h0[i],
                steps(parser.history().subrange(start, parser.history().len() as int)) == seq![step]
                    + flatten_list(list.0@),
                list_byte_free(list.0@),
                parser.depth() == depth,
                depth == old(parser).depth(),
                depth > 0,
                parser.measure() <= measure,
                measure == old(parser).measure(),
                p0 == *old(parser),
                extends(&p0, parser),
                outcomes_since(&p0, parser) == outcomes_of(history_since(&p0, parser)),
            decreases parser.measure(),
        {
            let ghost before = parser.history();
            let ghost pb = *parser;
            let event = match parser.next() {
                Some(Ok(event)) => event,
                Some(Err(err)) => {
                    proof {
                        lemma_list_balanced(list.0@);
                        lemma_start_then(step, flatten_list(list.0@));
                        lemma_stopped_by_next(&p0, &pb, parser, start, Some(Err(err)), err);
                    }
                    return Err(err);
                },
                None => vstd::pervasive::unreached(),
            };
            proof {
                lemma_one_event(&pb, parser, event);
                lemma_events_chain(&p0, &pb, parser);
                let h = parser.history();
                lemma_steps_split(h, start, before.len() as int, h.len() as int);
                lemma_steps_one(h, before.len() as int);
                assert(h.subrange(start, before.len() as int) =~= before.subrange(
                    start,
                    before.len() as int,
                ));
            }
            let ends = match &event.kind {
                EventKind::EndNested => true,
                _ => false,
            };
            if ends {
                proof {
                    assert(steps(parser.history().subrange(start, parser.history().len() as int))
                        =~= seq![step] + flatten_list(list.0@) + seq![Step::End]);
                }
                return Ok(
                    match name {
                        Some(name) => Value::Named(
                            Named { name: name.name, contents: StructContents::Tuple(list) },
                        ),
                        None => if kind == Nested::List {
                            Value::Array(list)
                        } else {
                            Value::Tuple(list)
                        },
                    },
                );
            }
            let ghost at = parser.history().len() - 1;
            let ghost mid = parser.history();
            let ghost pm = *parser;
            let item = match Self::from_parser_event(event, parser) {
                Ok(item) => item,
                Err(err) => {
                    proof {
                        lemma_list_balanced(list.0@);
                        lemma_start_then(step, flatten_list(list.0@));
                        assert(pm.history().subrange(start, at) =~= before.subrange(
                            start,
                            before.len() as int,
                        ));
                        lemma_stopped_chain(&p0, &pm, parser, start, at, err);
                    }
                    return Err(err);
                },
            };
            proof {
                lemma_events_chain(&p0, &pm, parser);
                let h = parser.history();
                lemma_steps_split(h, start, at, h.len() as int);
                assert(h.subrange(start, at) =~= mid.subrange(start, at));
                lemma_flatten_list_push(list.0@, item);
                assert(list.0@.push(item).drop_last() =~= list.0@);
            }
            list.0.push(item);
        }
    }

    /// Reads the entries of the map whose start, named `name`, is the last
    /// event handed out by `parser`, up to its end.
    #[verifier::spinoff_prover]
    #[verifier::rlimit(50)]
    fn parse_map(name: Option<Name>, parser: &mut Parser) -> (r: Result<Value, Error>)
        requires
            reads_values(old(parser)),
            old(parser).history().len() > 0,
            step_of(old(parser).history().last().kind) == Step::Start(
                name_of(name),
                Nested::Mapping,
            ),
            old(parser).depth() > 0,
        ensures
            extends(old(parser), final(parser)),
            r matches Ok(v) ==> {
                &&& writes(final(parser).history(), old(parser).history().len() - 1, v)
                &&& final(parser).depth() == old(parser).depth() - 1
            },
            r matches Err(e) ==> within(final(parser).src(), e.location),
            r matches Ok(v) ==> byte_free(v),
            r is Ok ==> outcomes_since(old(parser), final(parser)) == outcomes_of(
                history_since(old(parser), final(parser)),
            ),
            r matches Err(e) ==> stopped_at(
                old(parser),
                final(parser),
                old(parser).history().len() - 1,
                e,
            ),
        decreases old(parser).measure(), 0nat,
    {
        let mut map = Mapping::default();
        let ghost p0 = *parser;
        let ghost start = parser.history().len() - 1;
        let ghost h0 = parser.history();
        let ghost depth = parser.depth();
        let ghost measure = parser.measure();
        let ghost step = Step::Start(name_of(name), Nested::Mapping);
        proof {
            lemma_steps_one(parser.history(), start);
        }
        loop
            invariant
                reads_values(parser),
                parser.src() == old(parser).src(),
                parser.config() == old(parser).config(),
                step == Step::Start(name_of(name), Nested::Mapping),
                0 <= start < h0.len() <= parser.history().len(),
                h0 == old(parser).history(),
                start == h0.len() - 1,
                forall|i: int| 0 <= i < h0.len() ==> parser.history()[i] == h0[i],
                steps(parser.history().subrange(start, parser.history().len() as int)) == seq![step]
                    + flatten_entries(map.0@),
                entries_byte_free(map.0@),
                parser.depth() == depth,
                depth == old(parser).depth(),
                depth > 0,
                parser.measure() <= measure,
                measure == old(parser).measure(),
                p0 == *old(parser),
                extends(&p0, parser),
                outcomes_since(&p0, parser) == outcomes_of(history_since(&p0, parser)),
            decreases parser.measure(),
        {
            let ghost before = parser.history();
            let ghost pb = *parser;
            let event = match parser.next() {
                Some(Ok(event)) => event,
                Some(Err(err)) => {
                    proof {
                        lemma_entries_balanced(map.0@);
                        lemma_start_then(step, flatten_entries(map.0@));
                        lemma_stopped_by_next(&p0, &pb, parser, start, Some(Err(err)), err);
                    }
                    return Err(err);
                },
                None => vstd::pervasive::unreached(),
            };
            proof {
                lemma_one_event(&pb, parser, event);
                lemma_events_chain(&p0, &pb, parser);
                let h = parser.history();
                lemma_steps_split(h, start, before.len() as int, h.len() as int);
                lemma_steps_one(h, before.len() as int);
                assert(h.subrange(start, before.len() as int) =~= before.subrange(
                    start,
                    before.len() as int,
                ));
            }
            let ends = match &event.kind {
                EventKind::EndNested => true,
                _ => false,
            };
            if ends {
                proof {
                    assert(steps(parser.history().subrange(start, parser.history().len() as int))
                        =~= seq![step] + flatten_entries(map.0@) + seq![Step::End]);
                }
                let ghost entries = map.0@;
                let value = match name {
                    Some(name) => Value::Named(
                        Named { name: name.name, contents: StructContents::Mapping(map) },
                    ),
                    None => Value::Mapping(map),
                };
                return Ok(value);
            }
            let ghost key_at = parser.history().len() - 1;
            let ghost mid = parser.history();
            let ghost pm = *parser;
            let key = match Self::from_parser_event(event, parser) {
                Ok(key) => key,
                Err(err) => {
                    proof {
                        lemma_entries_balanced(map.0@);
                        lemma_start_then(step, flatten_entries(map.0@));
                        assert(pm.history().subrange(start, key_at) =~= before.subrange(
                            start,
                            before.len() as int,
                        ));
                        lemma_stopped_chain(&p0, &pm, parser, start, key_at, err);
                    }
                    return Err(err);
                },
            };
            proof {
                lemma_events_chain(&p0, &pm, parser);
                let h = parser.history();
                lemma_steps_split(h, start, key_at, h.len() as int);
                assert(h.subrange(start, key_at) =~= before.subrange(start, before.len() as int));
                lemma_entries_balanced(map.0@);
                lemma_start_then(step, flatten_entries(map.0@));
                lemma_flatten_balanced(key);
                lemma_opened_append(seq![step] + flatten_entries(map.0@), flatten(key));
                lemma_opened_unfinished(seq![step] + flatten_entries(map.0@) + flatten(key));
            }
            let ghost after_key = parser.history();
            let ghost pk = *parser;
            let value_event = match parser.next() {
                Some(Ok(event)) => event,
                Some(Err(err)) => {
                    proof {
                        lemma_stopped_by_next(&p0, &pk, parser, start, Some(Err(err)), err);
                    }
                    return Err(err);
                },
                None => vstd::pervasive::unreached(),
            };
            proof {
                lemma_one_event(&pk, parser, value_event);
                lemma_events_chain(&p0, &pk, parser);
            }
            let ghost value_at = parser.history().len() - 1;
            let ghost mid2 = parser.history();
            let ghost pv = *parser;
            let value = match Self::from_parser_event(value_event, parser) {
                Ok(value) => value,
                Err(err) => {
                    proof {
                        assert(pv.history().subrange(start, value_at) =~= after_key.subrange(
                            start,
                            after_key.len() as int,
                        ));
                        lemma_stopped_chain(&p0, &pv, parser, start, value_at, err);
                    }
                    return Err(err);
                },
            };
            proof {
                lemma_events_chain(&p0, &pv, parser);
                let h = parser.history();
                lemma_steps_split(h, start, key_at, h.len() as int);
                lemma_steps_split(h, key_at, value_at, h.len() as int);
                assert(h.subrange(start, key_at) =~= mid.subrange(start, key_at));
                assert(h.subrange(key_at, value_at) =~= after_key.subrange(key_at, value_at));
                lemma_flatten_entries_push(map.0@, key, value);
                assert(map.0@.push((key, value)).drop_last() =~= map.0@);
            }
            map.0.push((key, value));
        }
    }

    /// Reads the next value from `parser`.
    fn parse(parser: &mut Parser) -> (r: Result<Value, Error>)
        requires
            reads_values(old(parser)),
        ensures
            extends(old(parser), final(parser)),
            r matches Ok(v) ==> writes(final(parser).history(), old(parser).history().len() as int, v),
            r matches Err(e) ==> within(final(parser).src(), e.location),
            r matches Ok(v) ==> byte_free(v),
            r is Ok ==> outcomes_since(old(parser), final(parser)) == outcomes_of(
                history_since(old(parser), final(parser)),
            ),
            r matches Err(e) ==> stopped_at(
                old(parser),
                final(parser),
                old(parser).history().len() as int,
                e,
            ),
    {
        let ghost p0 = *parser;
        proof {
            assert(history_since(&p0, &p0) =~= Seq::<Event>::empty());
            assert(outcomes_since(&p0, &p0) =~= outcomes_of(history_since(&p0, &p0)));
        }
        let event = match parser.next() {
            Some(Ok(event)) => event,
            Some(Err(err)) => {
                proof {
                    let h = p0.history();
                    assert(steps(h.subrange(h.len() as int, h.len() as int)) =~= Seq::<Step>::empty());
                    lemma_stopped_by_next(&p0, &p0, parser, h.len() as int, Some(Err(err)), err);
                }
                return Err(err);
            },
            None => {
                let offset = parser.current_offset();
                let err = Error::new(offset..offset, ErrorKind::UnexpectedEof);
                proof {
                    lemma_stopped_by_next(&p0, &p0, parser, p0.history().len() as int, None, err);
                }
                return Err(err);
            },
        };
        proof {
            lemma_one_event(&p0, parser, event);
        }
        let ghost p1 = *parser;
        let r = Self::from_parser_event(event, parser);
        proof {
            if r is Ok {
                lemma_events_chain(&p0, &p1, parser);
            } else {
                let h = p1.history();
                assert(steps(h.subrange(h.len() - 1, h.len() - 1)) =~= Seq::<Step>::empty());
                lemma_stopped_chain(&p0, &p1, parser, h.len() - 1, h.len() - 1, r->Err_0);
            }
        }
        r
    }

    /// Parses `source` as a [`Value`], with comments left out.
    ///
    /// The value is the one that the events read from `source` write.
    pub fn from_str(source: &str, config: Config) -> (r: Result<Value, Error>)
        ensures
            exists|reads: Seq<TokenRead>, q: int, m: Machine, outcomes: Seq<Option<Result<Event, Error>>>|
                #![trigger lexes(source@, q, reads), ran(start_machine(value_config(config), byte_len(source@) as usize), reads, m, outcomes)]
                lexes(source@, q, reads) && ran(
                    start_machine(value_config(config), byte_len(source@) as usize),
                    reads,
                    m,
                    outcomes,
                ) && read_value(outcomes, byte_len(source@) as usize, r),
            r matches Ok(v) ==> exists|events: Seq<Event>|
                {
                    &&& steps(events) == flatten(v)
                    &&& forall|i: int|
                        0 <= i < events.len() ==> event_reads(source@, #[trigger] events[i])
                },
            r matches Err(e) ==> within(source@, e.location),
    {
        let mut parser = Parser::new(source, config.include_comments(false));
        let ghost p0 = parser;
        let r = Self::parse(&mut parser);
        proof {
            parser.lemma_history_reads();
            let h = parser.history();
            assert(h.subrange(0, h.len() as int) =~= h);
            assert forall|i: int| 0 <= i < h.len() implies event_reads(source@, #[trigger] h[i]) by {
            }
            assert(history_since(&p0, &parser) =~= h);
            assert(outcomes_since(&p0, &parser) =~= parser.outcomes());
            assert(parser.config() == value_config(config));
            parser.lemma_reads_lex();
            let q = choose|q: int| lexes(source@, q, parser.reads());
            assert(outcomes_of(h) == outcomes_of(h));
            assert(steps(h).len() == h.len());
            if h.len() > 0 {
                assert(steps(h).drop_last() =~= steps(h.drop_last()));
            }
            assert(read_value(parser.outcomes(), byte_len(source@) as usize, r));
            assert(ran(
                start_machine(value_config(config), byte_len(source@) as usize),
                parser.reads(),
                parser.machine(),
                parser.outcomes(),
            ));
        }
        r
    }

    /// Returns the value that stands for the unit type: an empty tuple.
    pub fn unit() -> (v: Value)
        ensures
            v matches Value::Tuple(l) && l.0@.len() == 0,
    {
        Value::Tuple(List::new())
    }
}

/// The number that `v` holds, if it is an integer.
pub open spec fn integer_value(v: Value) -> Option<int> {
    match v {
        Value::Integer(i) => Some(i.value()),
        _ => None,
    }
}

impl Value {
    /// Returns this value as a `u8`, if it is an integer that fits.
    pub fn as_u8(&self) -> (r: Option<u8>)
        ensures
            r == (match integer_value(*self) {
                Some(n) => if in_range(n, 0, 0xff) {
                    Some(n as u8)
                } else {
                    None
                },
                None => None,
            }),
    {
        match self {
            Value::Integer(value) => value.as_u8(),
            _ => None,
        }
    }

    /// Returns this value as a `u16`, if it is an integer that fits.
    pub fn as_u16(&self) -> (r: Option<u16>)
        ensures
            r == (match integer_value(*self) {
                Some(n) => if in_range(n, 0, 0xffff) {
                    Some(n as u16)
                } else {
                    None
                },
                None => None,
            }),
    {
        match self {
            Value::Integer(value) => value.as_u16(),
            _ => None,
        }
    }

    /// Returns this value as a `u32`, if it is an integer that fits.
    pub fn as_u32(&self) -> (r: Option<u32>)
        ensures
            r == (match integer_value(*self) {
                Some(n) => if in_range(n, 0, 0xffff_ffff) {
                    Some(n as u32)
                } else {
                    None
                },
                None => None,
            }),
    {
        match self {
            Value::Integer(value) => value.as_u32(),
            _ => None,
        }
    }

    /// Returns this value as a `u64`, if it is an integer that fits.
    pub fn as_u64(&self) -> (r: Option<u64>)
        ensures
            r == (match integer_value(*self) {
                Some(n) => if in_range(n, 0, 0xffff_ffff_ffff_ffff) {
                    Some(n as u64)
                } else {
                    None
                },
                None => None,
            }),
    {
        match self {
            Value::Integer(value) => value.as_u64(),
            _ => None,
        }
    }

    /// Returns this value as a `usize`, if it is an integer that fits.
    pub fn as_usize(&self) -> (r: Option<usize>)
        ensures
            r == (match integer_value(*self) {
                Some(n) => if in_range(n, 0, usize::MAX as int) {
                    Some(n as usize)
                } else {
                    None
                },
                None => None,
            }),
    {
        match self {
            Value::Integer(value) => value.as_usize(),
            _ => None,
        }
    }

    /// Returns this value as an `i8`, if it is an integer that fits.
    pub fn as_i8(&self) -> (r: Option<i8>)
        ensures
            r == (match integer_value(*self) {
                Some(n) => if in_range(n, -0x80, 0x7f) {
                    Some(n as i8)
                } else {
                    None
                },
                None => None,
            }),
    {
        match self {
            Value::Integer(value) => value.as_i8(),
            _ => None,
        }
    }

    /// Returns this value as an `i16`, if it is an integer that fits.
    pub fn as_i16(&self) -> (r: Option<i16>)
        ensures
            r == (match integer_value(*self) {
                Some(n) => if in_range(n, -0x8000, 0x7fff) {
                    Some(n as i16)
                } else {
                    None
                },
                None => None,
            }),
    {
        match self {
            Value::Integer(value) => value.as_i16(),
            _ => None,
        }
    }

    /// Returns this value as an `i32`, if it is an integer that fits.
    pub fn as_i32(&self) -> (r: Option<i32>)
        ensures
            r == (match integer_value(*self) {
                Some(n) => if in_range(n, -0x8000_0000, 0x7fff_ffff) {
                    Some(n as i32)
                } else {
                    None
                },
                None => None,
            }),
    {
        match self {
            Value::Integer(value) => value.as_i32(),
            _ => None,
        }
    }

    /// Returns this value as an `i64`, if it is an integer that fits.
    pub fn as_i64(&self) -> (r: Option<i64>)
        ensures
            r == (match integer_value(*self) {
                Some(n) => if in_range(n, -0x8000_0000_0000_0000, 0x7fff_ffff_ffff_ffff) {
                    Some(n as i64)
                } else {
                    None
                },
                None => None,
            }),
    {
        match self {
            Value::Integer(value) => value.as_i64(),
            _ => None,
        }
    }

    /// Returns this value as an `isize`, if it is an integer that fits.
    pub fn as_isize(&self) -> (r: Option<isize>)
        ensures
            r == (match integer_value(*self) {
                Some(n) => if in_range(n, isize::MIN as int, isize::MAX as int) {
                    Some(n as isize)
                } else {
                    None
                },
                None => None,
            }),
    {
        match self {
            Value::Integer(value) => value.as_isize(),
            _ => None,
        }
    }

    /// Returns this value as a `u128`, if it is an integer that is not negative.
    pub fn as_u128(&self) -> (r: Option<u128>)
        ensures
            r == (match integer_value(*self) {
                Some(n) => if n >= 0 {
                    Some(n as u128)
                } else {
                    None
                },
                None => None,
            }),
    {
        match self {
            Value::Integer(value) => value.as_u128(),
            _ => None,
        }
    }

    /// Returns this value as an `i128`, if it is an integer.
    pub fn as_i128(&self) -> (r: Option<i128>)
        ensures
            r == (match integer_value(*self) {
                Some(n) => Some(n as i128),
                None => None,
            }),
    {
        match self {
            Value::Integer(value) => value.as_i128(),
            _ => None,
        }
    }

    /// Returns this value as text: an identifier or a string as it is, a
    /// byte string if it is valid UTF-8.
    pub fn as_str(&self) -> (r: Option<&str>)
        ensures
            match *self {
                Value::Identifier(s) => r matches Some(t) && t@ == s@,
                Value::String(s) => r matches Some(t) && t@ == s@,
                Value::Bytes(b) => (r is Some <==> vstd::utf8::valid_utf8(b@)) && (r matches Some(t)
                    ==> t@ == vstd::utf8::decode_utf8(b@)),
                _ => r is None,
            },
    {
        match self {
            Value::Identifier(text) => Some(text.as_str()),
            Value::String(text) => Some(text.as_str()),
            Value::Bytes(bytes) => match crate::text::str_from_utf8(bytes.as_slice()) {
                Ok(text) => Some(text),
                Err(_) => None,
            },
            _ => None,
        }
    }

    /// Returns the bytes of this value: the UTF-8 encoding of an identifier or
    /// a string, the contents of a byte string.
    pub fn as_bytes(&self) -> (r: Option<&[u8]>)
        ensures
            match *self {
                Value::Identifier(s) => r matches Some(b) && b@ == vstd::utf8::encode_utf8(s@),
                Value::String(s) => r matches Some(b) && b@ == vstd::utf8::encode_utf8(s@),
                Value::Bytes(bytes) => r matches Some(b) && b@ == bytes@,
                _ => r is None,
            },
    {
        match self {
            Value::Identifier(text) => Some(text.as_str().as_bytes()),
            Value::String(text) => Some(text.as_str().as_bytes()),
            Value::Bytes(bytes) => Some(bytes.as_slice()),
            _ => None,
        }
    }
}

} // verus!
