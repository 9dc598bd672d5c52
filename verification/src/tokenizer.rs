use core::ops::Range;

use vstd::prelude::*;

use crate::text::{byte_len, digits_text, push_char, push_decimal, push_str};
use crate::tokenizer::char_iterator::CharIterator;
use crate::tokenizer::lexeme::{
    ascii_seq, byte_escape_at, byte_from, lemma_pound_end, lemma_raw_close_range, lemma_raw_close_skip, pound_end,
    pounds_at, raw_close, bytes_from, char_from, char_from_u32, continue_end, digit_of,
    digits_value, escape_at, has_digit, hex_pair_at, hex_run_end, is_ascii, is_continue_whitespace,
    is_dec_digit, is_dec_digit_exec, is_digit_in, is_digit_run, is_rust_whitespace, is_whitespace,
    is_xid_continue,
    is_xid_start, is_ascii_alpha, lemma_continue_end, lemma_digits_value_nonneg, lemma_digits_value_prefix,
    lemma_digits_value_push, lemma_hex_run_end, lemma_strip_push, opt_bytes, opt_seq,
    simple_escape, simple_escape_of, string_from, strip_underscores, to_digit, unicode_escape_at,
    xid_continue, xid_start,
};

pub mod char_iterator;
pub mod integer;
pub mod lexeme;

verus! {

/// A token read from Rsn source: its byte range and what it holds.
#[derive(Debug, PartialEq, Eq)]
pub struct Token {
    pub location: Range<usize>,
    pub kind: TokenKind,
}

impl Token {
    /// Returns a token of `kind` covering `location`.
    pub fn new(location: Range<usize>, kind: TokenKind) -> (token: Self)
        ensures
            token.location == location,
            token.kind == kind,
    {
        Self { location, kind }
    }
}

/// The kinds of tokens.
///
/// A floating point literal is held as its text, in the syntax that
/// `f64::from_str` accepts (underscores removed).
#[derive(Clone, Debug, PartialEq, Eq)]
pub enum TokenKind {
    Integer(Integer),
    Float(String),
    Bool(bool),
    Character(char),
    Colon,
    Comma,
    Byte(u8),
    String(String),
    Bytes(Vec<u8>),
    Identifier(String),
    Open(Balanced),
    Close(Balanced),
    Comment(String),
    Whitespace(String),
}

/// An integer literal, in the smallest of the representations that holds it.
#[derive(Clone, Copy, Debug, PartialEq, Eq, Structural)]
pub enum Integer {
    Usize(usize),
    Isize(isize),
    UnsignedLarge(u64),
    SignedLarge(i64),
}

/// The larger unsigned representation of integers.
pub type UnsignedLarge = u64;

/// The larger signed representation of integers.
pub type SignedLarge = i64;

impl Integer {
    /// The mathematical value of this integer.
    pub open spec fn value(self) -> int {
        match self {
            Integer::Usize(v) => v as int,
            Integer::Isize(v) => v as int,
            Integer::UnsignedLarge(v) => v as int,
            Integer::SignedLarge(v) => v as int,
        }
    }

    /// Returns whether this integer is zero.
    pub fn is_zero(self) -> (zero: bool)
        ensures
            zero == (self.value() == 0),
    {
        match self {
            Integer::Usize(value) => value == 0,
            Integer::Isize(value) => value == 0,
            Integer::UnsignedLarge(value) => value == 0,
            Integer::SignedLarge(value) => value == 0,
        }
    }
}

/// The three kinds of balanced delimiters.
#[derive(Clone, Copy, Debug, PartialEq, Eq, Structural)]
pub enum Balanced {
    Paren,
    Brace,
    Bracket,
}

/// An error that arose while tokenizing.
#[derive(Debug, PartialEq, Eq)]
pub struct Error {
    pub location: Range<usize>,
    pub kind: ErrorKind,
}

impl Error {
    /// Returns an error of `kind` at `location`.
    pub fn new(location: Range<usize>, kind: ErrorKind) -> (err: Self)
        ensures
            err.location == location,
            err.kind == kind,
    {
        Self { location, kind }
    }
}

/// The kinds of tokenizer errors.
#[derive(Clone, Debug, PartialEq, Eq, Structural)]
pub enum ErrorKind {
    UnexpectedEof,
    Unexpected(char),
    ExpectedDigit,
    IntegerTooLarge,
    InvalidUnicode,
    InvalidAscii,
    InvalidFloat,
    IsolatedCarriageReturn,
}

impl ErrorKind {
    /// How this kind of error reads in a message.
    pub open spec fn text(self) -> Seq<char> {
        match self {
            ErrorKind::UnexpectedEof => "unexpected eof"@,
            ErrorKind::Unexpected(ch) => "unexpected `"@.push(ch) + "`"@,
            ErrorKind::ExpectedDigit => "expected digit"@,
            ErrorKind::InvalidUnicode => "invalid unicode escape sequence"@,
            ErrorKind::InvalidAscii => "invalid ascii escape sequence"@,
            ErrorKind::IsolatedCarriageReturn => "unexpected isolated carriage return"@,
            ErrorKind::IntegerTooLarge => "value overflowed the maximum size"@,
            ErrorKind::InvalidFloat => "invalid floating point literal"@,
        }
    }

    /// A description of this kind of error.
    pub fn message(&self) -> (message: String)
        ensures
            message@ == self.text(),
    {
        match self {
            ErrorKind::UnexpectedEof => "unexpected eof".to_owned(),
            ErrorKind::Unexpected(ch) => {
                let mut s = "unexpected `".to_owned();
                push_char(&mut s, *ch);
                push_str(&mut s, "`");
                s
            },
            ErrorKind::ExpectedDigit => "expected digit".to_owned(),
            ErrorKind::InvalidUnicode => "invalid unicode escape sequence".to_owned(),
            ErrorKind::InvalidAscii => "invalid ascii escape sequence".to_owned(),
            ErrorKind::IsolatedCarriageReturn => "unexpected isolated carriage return".to_owned(),
            ErrorKind::IntegerTooLarge => "value overflowed the maximum size".to_owned(),
            ErrorKind::InvalidFloat => "invalid floating point literal".to_owned(),
        }
    }
}

/// The text `"{start}..{end}"` of a byte range.
pub open spec fn range_text(range: Range<usize>) -> Seq<char> {
    digits_text(range.start as nat) + ".."@ + digits_text(range.end as nat)
}

/// Appends `"{start}..{end}"` to `s`.
pub fn push_range(s: &mut String, range: &Range<usize>)
    ensures
        final(s)@ == old(s)@ + range_text(*range),
{
    push_decimal(s, range.start as u128);
    push_str(s, "..");
    push_decimal(s, range.end as u128);
}

impl Error {
    /// How this error reads in a message: its kind, then where it arose.
    pub open spec fn text(self) -> Seq<char> {
        self.kind.text() + " at "@ + range_text(self.location)
    }

    /// A description of this error and of where it arose.
    pub fn message(&self) -> (message: String)
        ensures
            message@ == self.text(),
    {
        let mut s = self.kind.message();
        push_str(&mut s, " at ");
        push_range(&mut s, &self.location);
        s
    }
}

/// The largest magnitude that an integer literal of the given form can hold:
/// unsigned literals up to `u64::MAX`, positive signed ones up to `i64::MAX` and
/// negative ones down to `i64::MIN`.
pub open spec fn integer_limit(signed: bool, negative: bool) -> int {
    if negative {
        0x8000_0000_0000_0000
    } else if signed {
        0x7FFF_FFFF_FFFF_FFFF
    } else {
        0xFFFF_FFFF_FFFF_FFFF
    }
}

/// The integer that a decimal literal of magnitude `v` reads as: the small
/// representation when it holds the value, else the large one.
pub open spec fn decimal_integer(v: int, signed: bool, negative: bool) -> Integer {
    if negative {
        if -v >= isize::MIN {
            Integer::Isize((-v) as isize)
        } else {
            Integer::SignedLarge((-v) as i64)
        }
    } else if signed {
        if v <= isize::MAX {
            Integer::Isize(v as isize)
        } else {
            Integer::SignedLarge(v as i64)
        }
    } else {
        if v <= usize::MAX {
            Integer::Usize(v as usize)
        } else {
            Integer::UnsignedLarge(v as u64)
        }
    }
}

/// The integer that a radix literal whose digits hold `v` (at most
/// `usize::MAX`) reads as: signed literals take the bit pattern of `v`.
pub open spec fn radix_integer(v: int, signed: bool, negative: bool) -> Integer {
    if negative {
        Integer::Isize((-v) as isize)
    } else if signed {
        Integer::Isize(v as isize)
    } else {
        Integer::Usize(v as usize)
    }
}

/// The radix that a radix prefix character introduces: `x`, `o` and `b`.
pub open spec fn radix_of_prefix(c: char) -> int {
    if c == 'x' || c == 'X' {
        16
    } else if c == 'o' || c == 'O' {
        8
    } else if c == 'b' || c == 'B' {
        2
    } else {
        0
    }
}

/// Splits a numeric literal into whether it is signed, whether it is
/// negative, and the text after the sign.
pub open spec fn sign_split(text: Seq<char>) -> (bool, bool, Seq<char>) {
    if text.len() > 0 && text[0] == '+' {
        (true, false, text.drop_first())
    } else if text.len() > 0 && text[0] == '-' {
        (true, true, text.drop_first())
    } else {
        (false, false, text)
    }
}

/// `text` is a decimal integer literal that reads as `kind`.
pub open spec fn decimal_reads(text: Seq<char>, kind: TokenKind) -> bool {
    let (signed, negative, body) = sign_split(text);
    &&& body.len() > 0
    &&& is_dec_digit(body[0])
    &&& is_digit_run(body, 10)
    &&& digits_value(body, 10) <= integer_limit(signed, negative)
    &&& kind == TokenKind::Integer(decimal_integer(digits_value(body, 10), signed, negative))
}

/// From `from` up to `to`, `src` holds an exponent marker `e` or `E`.
pub open spec fn has_exponent_in(src: Seq<char>, from: int, to: int) -> bool {
    exists|k: int| from <= k < to && (#[trigger] src[k] == 'e' || src[k] == 'E')
}

/// `c` marks a floating point literal: its decimal point or its exponent.
pub open spec fn is_float_marker(c: char) -> bool {
    c == '.' || c == 'e' || c == 'E'
}

/// `text` holds a decimal point or an exponent.
pub open spec fn has_float_marker(text: Seq<char>) -> bool {
    exists|k: int| 0 <= k < text.len() && is_float_marker(#[trigger] text[k])
}

/// A decimal integer literal ending at `end` of `src` runs as far as it can:
/// what follows, if anything, is no digit, underscore, decimal point or
/// exponent.
pub open spec fn decimal_end(src: Seq<char>, end: int) -> bool {
    end < src.len() ==> !(is_dec_digit(src[end]) || src[end] == '_' || is_float_marker(src[end]))
}

/// From `ds` up to `end`, `src` holds a decimal digit and then decimal
/// digits and underscores, where a decimal literal ends, and their value is
/// at most `limit`.
pub open spec fn decimal_run(src: Seq<char>, ds: int, end: int, limit: int) -> bool {
    &&& 0 <= ds < end <= src.len()
    &&& is_dec_digit(src[ds])
    &&& forall|k: int| ds <= k < end ==> is_dec_digit(#[trigger] src[k]) || src[k] == '_'
    &&& decimal_end(src, end)
    &&& digits_value(src.subrange(ds, end), 10) <= limit
}

/// From `p` up to `e`, `src` holds decimal digits and underscores, and the
/// fraction of a floating point literal ends at `e`: no digit, underscore or
/// exponent follows.
pub open spec fn float_tail(src: Seq<char>, p: int, e: int) -> bool {
    &&& 0 <= p <= e <= src.len()
    &&& forall|k: int| p <= k < e ==> is_dec_digit(#[trigger] src[k]) || src[k] == '_'
    &&& e < src.len() ==> !(is_dec_digit(src[e]) || src[e] == '_' || src[e] == 'e' || src[e] == 'E')
}

/// From `p`, just after an `e` or `E`, up to `e`, `src` holds the rest of an
/// exponent: an optional sign, then decimal digits, at least one, and no
/// digit or underscore follows.
pub open spec fn exponent_tail(src: Seq<char>, p: int, e: int) -> bool {
    let q = if 0 <= p < src.len() && (src[p] == '+' || src[p] == '-') {
        p + 1
    } else {
        p
    };
    &&& 0 <= p <= q < e <= src.len()
    &&& forall|k: int| q <= k < e ==> is_dec_digit(#[trigger] src[k])
    &&& e < src.len() ==> !(is_dec_digit(src[e]) || src[e] == '_')
}

/// From `p` up to `x`, `src` holds decimal digits and underscores, at `x` an
/// exponent marker, and then the rest of an exponent that ends at `e`.
pub open spec fn fraction_then_exponent(src: Seq<char>, p: int, x: int, e: int) -> bool {
    &&& 0 <= p <= x < src.len()
    &&& forall|k: int| p <= k < x ==> is_dec_digit(#[trigger] src[k]) || src[k] == '_'
    &&& (src[x] == 'e' || src[x] == 'E')
    &&& exponent_tail(src, x + 1, e)
}

/// From `ds`, `src` holds a floating point literal: a decimal digit, then
/// digits and underscores worth at most `limit` up to the float marker at
/// `d`, then either a decimal point and a fraction with or without an
/// exponent, or an exponent, ending at `e`.
pub open spec fn float_run(src: Seq<char>, ds: int, d: int, e: int, limit: int) -> bool {
    &&& 0 <= ds < d < e <= src.len()
    &&& is_dec_digit(src[ds])
    &&& forall|k: int| ds <= k < d ==> is_dec_digit(#[trigger] src[k]) || src[k] == '_'
    &&& digits_value(src.subrange(ds, d), 10) <= limit
    &&& {
        ||| src[d] == '.' && float_tail(src, d + 1, e)
        ||| src[d] == '.' && exists|x: int| #[trigger] fraction_then_exponent(src, d + 1, x, e)
        ||| (src[d] == 'e' || src[d] == 'E') && exponent_tail(src, d + 1, e)
    }
}

/// Where the digits of a numeric literal at `s` of `src` start: after its
/// sign, if it has one.
pub open spec fn digits_start(src: Seq<char>, s: int) -> int {
    if 0 <= s < src.len() && (src[s] == '+' || src[s] == '-') {
        s + 1
    } else {
        s
    }
}

/// The largest magnitude that a numeric literal at `s` of `src` can hold,
/// by its sign.
pub open spec fn limit_at(src: Seq<char>, s: int) -> int {
    integer_limit(
        0 <= s < src.len() && (src[s] == '+' || src[s] == '-'),
        0 <= s < src.len() && src[s] == '-',
    )
}

/// From `ds` up to `e`, `src` holds decimal digits and underscores whose
/// value exceeds `limit`.
pub open spec fn decimal_overflow_at(src: Seq<char>, ds: int, e: int, limit: int) -> bool {
    &&& 0 <= ds < e <= src.len()
    &&& forall|k: int| ds <= k < e ==> is_dec_digit(#[trigger] src[k]) || src[k] == '_'
    &&& digits_value(src.subrange(ds, e), 10) > limit
}

/// From `ds` up to `e`, `src` holds digits of `radix` and underscores whose
/// value exceeds `u64::MAX`.
pub open spec fn radix_overflow_at(src: Seq<char>, ds: int, e: int, radix: int) -> bool {
    &&& 0 <= ds <= e <= src.len()
    &&& forall|k: int| ds <= k < e ==> is_digit_in(#[trigger] src[k], radix) || src[k] == '_'
    &&& digits_value(src.subrange(ds, e), radix) > u64::MAX
}

/// At `s`, `src` holds a numeric literal whose digits hold more than its
/// kind can: decimal digits beyond the limit of its sign, or the digits of a
/// radix literal beyond `u64::MAX`.
pub open spec fn number_too_large_at(src: Seq<char>, s: int) -> bool {
    let ds = digits_start(src, s);
    ||| 0 <= s && ds < src.len() && is_dec_digit(src[ds]) && exists|e: int|
        #[trigger] decimal_overflow_at(src, ds, e, limit_at(src, s))
    ||| 0 <= s && ds + 1 < src.len() && src[ds] == '0' && radix_of_prefix(src[ds + 1]) > 0 && exists|
        e: int,
    | #[trigger] radix_overflow_at(src, ds + 2, e, radix_of_prefix(src[ds + 1]))
}

/// At `s`, `src` holds a floating point literal with an optional sign that
/// ends at `e`, read as far as it goes.
pub open spec fn float_literal_at(src: Seq<char>, s: int, e: int) -> bool {
    &&& 0 <= s
    &&& exists|d: int| #[trigger] float_run(src, digits_start(src, s), d, e, limit_at(src, s))
}

/// `t` is the text of a floating point literal without underscores, as a
/// float read from Rsn holds it.
pub open spec fn float_text(t: Seq<char>) -> bool {
    &&& float_literal_at(t, 0, t.len() as int)
    &&& forall|k: int| 0 <= k < t.len() ==> t[k] != '_'
}

/// Two runs of decimal digits and underscores from `p`, each ending where
/// neither follows, end at the same place.
proof fn lemma_run_stop_unique(src: Seq<char>, p: int, a: int, b: int)
    requires
        0 <= p <= a <= src.len(),
        p <= b <= src.len(),
        forall|k: int| p <= k < a ==> is_dec_digit(#[trigger] src[k]) || src[k] == '_',
        forall|k: int| p <= k < b ==> is_dec_digit(#[trigger] src[k]) || src[k] == '_',
        a < src.len() ==> !(is_dec_digit(src[a]) || src[a] == '_'),
        b < src.len() ==> !(is_dec_digit(src[b]) || src[b] == '_'),
    ensures
        a == b,
{
    if a < b {
        assert(is_dec_digit(src[a]) || src[a] == '_');
    }
    if b < a {
        assert(is_dec_digit(src[b]) || src[b] == '_');
    }
}

/// An exponent ends at one place.
proof fn lemma_exponent_tail_unique(src: Seq<char>, p: int, a: int, b: int)
    requires
        exponent_tail(src, p, a),
        exponent_tail(src, p, b),
    ensures
        a == b,
{
    let q = if 0 <= p < src.len() && (src[p] == '+' || src[p] == '-') {
        p + 1
    } else {
        p
    };
    lemma_run_stop_unique(src, q, a, b);
}

/// A floating point literal read as far as it goes ends at one place.
proof fn lemma_float_run_unique(
    src: Seq<char>,
    ds: int,
    d1: int,
    e1: int,
    l1: int,
    d2: int,
    e2: int,
    l2: int,
)
    requires
        float_run(src, ds, d1, e1, l1),
        float_run(src, ds, d2, e2, l2),
    ensures
        e1 == e2,
{
    lemma_run_stop_unique(src, ds, d1, d2);
    let d = d1;
    if src[d] == '.' {
        let t1 = float_tail(src, d + 1, e1);
        let t2 = float_tail(src, d + 1, e2);
        if t1 && t2 {
            lemma_run_stop_unique(src, d + 1, e1, e2);
        } else if t1 {
            let x2 = choose|x: int| #[trigger] fraction_then_exponent(src, d + 1, x, e2);
            lemma_run_stop_unique(src, d + 1, e1, x2);
        } else if t2 {
            let x1 = choose|x: int| #[trigger] fraction_then_exponent(src, d + 1, x, e1);
            lemma_run_stop_unique(src, d + 1, x1, e2);
        } else {
            let x1 = choose|x: int| #[trigger] fraction_then_exponent(src, d + 1, x, e1);
            let x2 = choose|x: int| #[trigger] fraction_then_exponent(src, d + 1, x, e2);
            lemma_run_stop_unique(src, d + 1, x1, x2);
            lemma_exponent_tail_unique(src, x1 + 1, e1, e2);
        }
    } else {
        lemma_exponent_tail_unique(src, d + 1, e1, e2);
    }
}

/// Text without underscores is its own text without underscores.
pub proof fn lemma_strip_none(t: Seq<char>)
    requires
        forall|k: int| 0 <= k < t.len() ==> t[k] != '_',
    ensures
        strip_underscores(t) == t,
    decreases t.len(),
{
    if t.len() == 0 {
        reveal_with_fuel(Seq::filter, 1);
        assert(strip_underscores(t) =~= t);
    } else {
        let s = t.drop_last();
        assert(forall|k: int| 0 <= k < s.len() ==> s[k] == t[k]);
        lemma_strip_none(s);
        lemma_strip_push(s, t.last());
        assert(s.push(t.last()) =~= t);
    }
}

/// The text of a floating point literal, read from its start, reads as one
/// token: the whole text, a float holding it. A tokenizer that reaches its
/// first character reads it without error.
pub proof fn lemma_float_token_reads_back(src: Seq<char>, end: int, kind: TokenKind)
    requires
        float_text(src),
        0 < end <= src.len(),
    ensures
        token_reads(src, 0, end, kind) ==> end == src.len() && (kind matches TokenKind::Float(g) && g@
            == src),
        literal_ok_at(src, 0),
        !crate::tokenizer::lexeme::is_whitespace(src[0]),
{
    let ds = digits_start(src, 0);
    let d = choose|d: int| #[trigger] float_run(src, ds, d, src.len() as int, limit_at(src, 0));
    assert(float_run(src, ds, d, src.len() as int, limit_at(src, 0)));
    assert(is_dec_digit(src[ds]));
    assert(ds <= 1);
    let text = src.subrange(0, end);
    assert(text[0] == src[0]);
    if end > 1 {
        assert(text[1] == src[1]);
    }
    if ds + 1 < src.len() {
        assert(is_dec_digit(src[ds + 1]) || src[ds + 1] == '_' || src[ds + 1] == '.' || src[ds + 1] == 'e'
            || src[ds + 1] == 'E');
    }
    if token_reads(src, 0, end, kind) {
        if float_reads(text, kind) {
            let d2 = choose|d2: int| #[trigger] float_run(src, ds, d2, end, limit_at(src, 0));
            lemma_float_run_unique(src, ds, d, src.len() as int, limit_at(src, 0), d2, end, limit_at(src, 0));
            assert(text =~= src);
            lemma_strip_none(src);
        } else {
            let (sg, ng, body) = sign_split(text);
            assert(sg == (ds == 1));
            assert(body =~= src.subrange(ds, end));
            if decimal_reads(text, kind) {
                if end > d {
                    assert(body[d - ds] == src[d]);
                } else if end < d {
                    assert(is_dec_digit(src[end]) || src[end] == '_');
                }
            }
            if radix_reads(text, kind) {
                assert(body[1] == src[ds + 1]);
            }
        }
    }
    assert(src.subrange(ds, src.len() as int).len() >= 0);
    assert(number_run(src, ds, src.len() as int, limit_at(src, 0)));
    assert(decimal_literal_at(src, 0, src.len() as int));
    assert(number_literal_at(src, 0, src.len() as int));
}

/// From `ds` up to `e`, `src` holds a decimal integer or a floating point
/// literal, read as far as it goes.
pub open spec fn number_run(src: Seq<char>, ds: int, e: int, limit: int) -> bool {
    ||| decimal_run(src, ds, e, limit)
    ||| exists|d: int| float_run(src, ds, d, e, limit)
}

/// At `s`, `src` holds a decimal literal that ends at `e`: an optional sign,
/// then either decimal digits and underscores whose value fits the literal's
/// kind, or such digits followed by a fraction, an exponent or both, each
/// read as far as it goes; a leading `0` is not followed by a radix prefix.
pub open spec fn decimal_literal_at(src: Seq<char>, s: int, e: int) -> bool {
    let signed = 0 <= s < src.len() && (src[s] == '+' || src[s] == '-');
    let negative = 0 <= s < src.len() && src[s] == '-';
    let ds = if signed {
        s + 1
    } else {
        s
    };
    &&& 0 <= s
    &&& number_run(src, ds, e, integer_limit(signed, negative))
    &&& !(src[ds] == '0' && ds + 1 < src.len() && radix_of_prefix(src[ds + 1]) > 0)
}

/// From `ds` up to `e`, `src` holds digits of `radix` and underscores, a
/// digit among them, worth at most `usize::MAX`, and the literal ends at `e`:
/// no such digit or underscore follows.
pub open spec fn radix_run(src: Seq<char>, ds: int, e: int, radix: int) -> bool {
    &&& 0 <= ds <= e <= src.len()
    &&& is_digit_run(src.subrange(ds, e), radix)
    &&& has_digit(src.subrange(ds, e))
    &&& digits_value(src.subrange(ds, e), radix) <= usize::MAX
    &&& e < src.len() ==> !(is_digit_in(src[e], radix) || src[e] == '_')
}

/// At `s`, `src` holds a radix literal that ends at `e`: an optional sign,
/// `0`, a radix prefix, then digits of that radix that fit a `usize`, read as
/// far as they go.
pub open spec fn radix_literal_at(src: Seq<char>, s: int, e: int) -> bool {
    let signed = 0 <= s < src.len() && (src[s] == '+' || src[s] == '-');
    let z = if signed {
        s + 1
    } else {
        s
    };
    &&& 0 <= s
    &&& z + 1 < src.len()
    &&& src[z] == '0'
    &&& radix_of_prefix(src[z + 1]) > 0
    &&& radix_run(src, z + 2, e, radix_of_prefix(src[z + 1]))
}

/// At `s`, `src` holds a numeric literal that reads without error and ends
/// at `e`: a decimal one or a radix one.
pub open spec fn number_literal_at(src: Seq<char>, s: int, e: int) -> bool {
    decimal_literal_at(src, s, e) || radix_literal_at(src, s, e)
}

/// `text` is a floating point literal that reads as `kind`: its text without
/// underscores.
pub open spec fn float_reads(text: Seq<char>, kind: TokenKind) -> bool {
    let (signed, negative, body) = sign_split(text);
    &&& body.len() > 0
    &&& is_dec_digit(body[0])
    &&& has_float_marker(text)
    &&& kind matches TokenKind::Float(f) && f@ == strip_underscores(text)
}

/// `text` is a `0x`, `0o` or `0b` integer literal that reads as `kind`: its
/// digits, of the prefix's radix, hold a value; up to `usize::MAX` it reads
/// as `radix_integer` of it, beyond that, up to `u64::MAX`, as
/// `radix_large_integer` of it.
pub open spec fn radix_reads(text: Seq<char>, kind: TokenKind) -> bool {
    let (signed, negative, body) = sign_split(text);
    let radix = radix_of_prefix(body[1]);
    let run = body.subrange(2, body.len() as int);
    let v = digits_value(run, radix);
    &&& body.len() >= 3
    &&& body[0] == '0'
    &&& radix > 0
    &&& has_digit(run)
    &&& is_digit_run(run, radix)
    &&& v <= u64::MAX
    &&& kind matches TokenKind::Integer(i) && if v <= usize::MAX {
        i == radix_integer(v, signed, negative)
    } else {
        i == radix_large_integer(v, signed, negative)
    }
}

/// The integer that a radix literal whose digits hold `v`, beyond
/// `usize::MAX` and at most `u64::MAX`, reads as: the large representation,
/// signed literals taking the bit pattern of `v`.
pub open spec fn radix_large_integer(v: int, signed: bool, negative: bool) -> Integer {
    if negative {
        Integer::SignedLarge((-v) as i64)
    } else if signed {
        Integer::SignedLarge(v as i64)
    } else {
        Integer::UnsignedLarge(v as u64)
    }
}

/// A radix literal whose text is `text` ends at `end` of `src`: no digit of
/// its radix and no underscore follows.
pub open spec fn radix_end(src: Seq<char>, text: Seq<char>, end: int) -> bool {
    let (signed, negative, body) = sign_split(text);
    end < src.len() ==> !(is_digit_in(src[end], radix_of_prefix(body[1])) || src[end] == '_')
}

/// A comment starting at `start` of `src` ends at `end`: a line comment at
/// the end of its line, a block comment where it closes.
pub open spec fn comment_end(src: Seq<char>, start: int, end: int) -> bool {
    if src[start + 1] == '/' {
        line_end(src, start + 2, end)
    } else {
        block_close(src, start + 2, 1) == Some(end)
    }
}

/// `c` may start an identifier: an ASCII letter, or a character beyond ASCII
/// with the Unicode property XID_Start.
pub open spec fn ident_start(c: char) -> bool {
    if is_ascii(c) {
        is_ascii_alpha(c)
    } else {
        xid_start(c)
    }
}

/// `c` may continue an identifier: an ASCII letter, digit or `_`, or a
/// character beyond ASCII with the Unicode property XID_Continue.
pub open spec fn ident_continue(c: char) -> bool {
    if is_ascii(c) {
        is_ascii_alpha(c) || is_dec_digit(c) || c == '_'
    } else {
        xid_continue(c)
    }
}

/// The characters `from..end` of `src` may continue an identifier, and the
/// character after them, if any, may not.
pub open spec fn ident_run(src: Seq<char>, from: int, end: int) -> bool {
    &&& forall|k: int| from <= k < end ==> ident_continue(#[trigger] src[k])
    &&& end < src.len() ==> !ident_continue(src[end])
}

/// The identifier that starts at `start` of `src` and ends at `end`: its
/// first character may start an identifier (or is `_`), and it runs as far
/// as characters may continue it.
pub open spec fn ident_span(src: Seq<char>, start: int, end: int) -> bool {
    &&& start < end
    &&& ident_start(src[start]) || src[start] == '_'
    &&& ident_run(src, start + 1, end)
}

/// At `start`, `src` holds the prefix of a byte, byte string, raw byte string
/// or raw string literal (`b'`, `b"`, `br#`, `br"`, `r#`, `r"`), which is
/// not read as an identifier.
pub open spec fn literal_prefix_at(src: Seq<char>, start: int) -> bool {
    &&& start + 1 < src.len()
    &&& {
        ||| src[start] == 'b' && (src[start + 1] == '\'' || src[start + 1] == '"')
        ||| src[start] == 'b' && src[start + 1] == 'r' && start + 2 < src.len() && (src[start + 2]
            == '#' || src[start + 2] == '"')
        ||| src[start] == 'r' && (src[start + 1] == '#' || src[start + 1] == '"')
    }
}

/// `text` is an identifier that reads as `kind`: the keywords `true` and
/// `false` read as booleans, `inf` and `NaN` (with an optional sign) as
/// floats, and anything else as the identifier itself.
pub open spec fn identifier_reads(text: Seq<char>, kind: TokenKind) -> bool {
    if text == seq!['t', 'r', 'u', 'e'] {
        kind == TokenKind::Bool(true)
    } else if text == seq!['f', 'a', 'l', 's', 'e'] {
        kind == TokenKind::Bool(false)
    } else if is_special_float(text) {
        kind matches TokenKind::Float(f) && f@ == text
    } else {
        kind matches TokenKind::Identifier(name) && name@ == text
    }
}

/// The texts that read as infinity or NaN.
pub open spec fn is_special_float(text: Seq<char>) -> bool {
    ||| text == seq!['i', 'n', 'f']
    ||| text == seq!['+', 'i', 'n', 'f']
    ||| text == seq!['-', 'i', 'n', 'f']
    ||| text == seq!['N', 'a', 'N']
    ||| text == seq!['+', 'N', 'a', 'N']
    ||| text == seq!['-', 'N', 'a', 'N']
}

/// `text` is a numeric literal that reads as `kind`.
pub open spec fn number_reads(text: Seq<char>, kind: TokenKind) -> bool {
    ||| decimal_reads(text, kind)
    ||| float_reads(text, kind)
    ||| radix_reads(text, kind)
    ||| text.len() > 1 && (text[0] == '+' || text[0] == '-') && (text[1] == 'i' || text[1] == 'N')
        && (forall|k: int| 1 <= k < text.len() ==> ident_continue(#[trigger] text[k]))
        && identifier_reads(text, kind)
}

/// `text` is a comment that reads as `kind`: the comment holds its whole text.
pub open spec fn comment_reads(text: Seq<char>, kind: TokenKind) -> bool {
    &&& text.len() >= 2
    &&& text[0] == '/'
    &&& (text[1] == '/' || text[1] == '*')
    &&& kind matches TokenKind::Comment(c) && c@ == text
}

/// The single-character tokens: delimiters, `:` and `,`.
pub open spec fn punctuation_kind(c: char) -> Option<TokenKind> {
    if c == '(' {
        Some(TokenKind::Open(Balanced::Paren))
    } else if c == ')' {
        Some(TokenKind::Close(Balanced::Paren))
    } else if c == '{' {
        Some(TokenKind::Open(Balanced::Brace))
    } else if c == '}' {
        Some(TokenKind::Close(Balanced::Brace))
    } else if c == '[' {
        Some(TokenKind::Open(Balanced::Bracket))
    } else if c == ']' {
        Some(TokenKind::Close(Balanced::Bracket))
    } else if c == ':' {
        Some(TokenKind::Colon)
    } else if c == ',' {
        Some(TokenKind::Comma)
    } else {
        None
    }
}

/// The raw string starting at `start` (after `r`, or `br` for a raw byte
/// string, its `#`s and its quote) ends at `end` and reads as `kind`.
pub open spec fn raw_reads(src: Seq<char>, start: int, end: int, kind: TokenKind, bytes: bool) -> bool {
    let o = start + if bytes {
        2int
    } else {
        1int
    };
    let h = pound_end(src, o);
    let q = raw_close(src, h + 1, h - o, bytes)->0;
    &&& (if bytes {
        src[start] == 'b' && src[start + 1] == 'r'
    } else {
        src[start] == 'r' && (src[start + 1] == '#' || src[start + 1] == '"')
    })
    &&& h < src.len()
    &&& src[h] == '"'
    &&& raw_close(src, h + 1, h - o, bytes) is Some
    &&& end == q + 1 + (h - o)
    &&& if bytes {
        kind matches TokenKind::Bytes(b) && b@ == ascii_seq(src.subrange(h + 1, q))
    } else {
        kind matches TokenKind::String(s) && s@ == src.subrange(h + 1, q)
    }
}

/// The literal from `start` to `end` of `src` is a lone `0`, with an optional
/// sign, followed by a radix prefix: the start of a radix literal.
pub open spec fn zero_before_prefix(src: Seq<char>, start: int, end: int) -> bool {
    &&& end == digits_start(src, start) + 1
    &&& 0 < end < src.len()
    &&& src[end - 1] == '0'
    &&& radix_of_prefix(src[end]) > 0
}

/// A numeric token that reads as `kind` from `start` to `end` of `src` runs
/// as far as its literal goes; a decimal one does not stop at a radix prefix.
pub open spec fn number_ends(src: Seq<char>, start: int, end: int, kind: TokenKind) -> bool {
    let text = src.subrange(start, end);
    &&& decimal_reads(text, kind) ==> decimal_end(src, end) && !zero_before_prefix(src, start, end)
    &&& float_reads(text, kind) ==> float_literal_at(src, start, end)
    &&& radix_reads(text, kind) ==> radix_end(src, text, end)
    &&& identifier_reads(text, kind) ==> (end < src.len() ==> !ident_continue(src[end]))
}

/// The characters `start..end` of `src` form a token that reads as `kind`.
pub open spec fn token_reads(src: Seq<char>, start: int, end: int, kind: TokenKind) -> bool {
    let text = src.subrange(start, end);
    ||| number_reads(text, kind) && number_ends(src, start, end, kind)
    ||| ident_span(src, start, end) && !literal_prefix_at(src, start) && identifier_reads(text, kind)
    ||| text.len() > 2 && text[0] == 'r' && text[1] == '#' && ident_start(src[start + 2])
        && ident_run(src, start + 3, end) && (kind matches TokenKind::Identifier(name) && name@
        == text.subrange(2, text.len() as int))
    ||| src[start] == '"' && (kind matches TokenKind::String(s) && string_from(src, start + 1)
        == Some((end - 1, s@)))
    ||| raw_reads(src, start, end, kind, false)
    ||| src[start] == 'b' && src[start + 1] == '"' && (kind matches TokenKind::Bytes(b)
        && bytes_from(src, start + 2) == Some((end - 1, b@)))
    ||| raw_reads(src, start, end, kind, true)
    ||| src[start] == '\'' && (kind matches TokenKind::Character(c) && char_from(src, start + 1)
        == Some((end - 1, c)))
    ||| src[start] == 'b' && src[start + 1] == '\'' && (kind matches TokenKind::Byte(b)
        && byte_from(src, start + 2) == Some((end - 1, b)))
    ||| end == start + 1 && punctuation_kind(src[start]) == Some(kind)
    ||| text.len() > 0 && (forall|k: int| 0 <= k < text.len() ==> is_whitespace(#[trigger] text[k]))
        && (kind matches TokenKind::Whitespace(w) && w@ == text) && (end < src.len() ==> !is_whitespace(
        src[end],
    ))
    ||| comment_reads(text, kind) && comment_end(src, start, end)
}

/// `loc` is the byte range of characters of `src` that read as a token of `kind`.
pub open spec fn token_at(src: Seq<char>, loc: Range<usize>, kind: TokenKind) -> bool {
    &&& loc.start <= loc.end <= byte_len(src)
    &&& exists|start: int, end: int|
        0 <= start < end <= src.len() && loc.start == crate::text::byte_offset(src, start)
            && loc.end == crate::text::byte_offset(src, end) && #[trigger] token_reads(
            src,
            start,
            end,
            kind,
        )
}

/// At `s`, `src` holds a raw string or a raw byte string that reads without
/// error: `r` (or `br`), any number of `#`, a `"`, and contents closed by a
/// `"` and as many `#`.
pub open spec fn raw_string_ok_at(src: Seq<char>, s: int) -> bool {
    ||| src[s] == 'r' && s + 1 < src.len() && (src[s + 1] == '#' || src[s + 1] == '"') && pound_end(
        src,
        s + 1,
    ) < src.len() && src[pound_end(src, s + 1)] == '"' && raw_close(
        src,
        pound_end(src, s + 1) + 1,
        pound_end(src, s + 1) - s - 1,
        false,
    ) is Some
    ||| src[s] == 'b' && s + 2 < src.len() && src[s + 1] == 'r' && (src[s + 2] == '#' || src[s + 2]
        == '"') && pound_end(src, s + 2) < src.len() && src[pound_end(src, s + 2)] == '"' && raw_close(
        src,
        pound_end(src, s + 2) + 1,
        pound_end(src, s + 2) - s - 2,
        true,
    ) is Some
}

/// At `s`, `src` holds a line comment that reads without error: `//` and
/// the rest of its line, which holds no carriage return.
pub open spec fn line_comment_ok_at(src: Seq<char>, s: int) -> bool {
    &&& 0 <= s && s + 1 < src.len()
    &&& src[s] == '/' && src[s + 1] == '/'
    &&& exists|e: int|
        #![trigger line_end(src, s + 2, e)]
        line_end(src, s + 2, e)
}

/// Reading a block comment from `p` of `src` with `nests` comments open,
/// where they all close: each `/*` opens one more, each `*/` closes one, and
/// each carriage return is followed by a line feed. `None` when the source
/// ends first or a carriage return stands alone.
pub open spec fn block_close(src: Seq<char>, p: int, nests: nat) -> Option<int>
    decreases src.len() - p,
{
    if nests == 0 {
        Some(p)
    } else if p < 0 || p >= src.len() {
        None
    } else if src[p] == '*' && p + 1 < src.len() && src[p + 1] == '/' {
        block_close(src, p + 2, (nests - 1) as nat)
    } else if src[p] == '/' && p + 1 < src.len() && src[p + 1] == '*' {
        block_close(src, p + 2, nests + 1)
    } else if src[p] == '\r' && !(p + 1 < src.len() && src[p + 1] == '\n') {
        None
    } else {
        block_close(src, p + 1, nests)
    }
}

/// At `s`, `src` holds a block comment that is closed.
pub open spec fn block_comment_ok_at(src: Seq<char>, s: int) -> bool {
    &&& 0 <= s && s + 1 < src.len()
    &&& src[s] == '/' && src[s + 1] == '*'
    &&& block_close(src, s + 2, 1) is Some
}

/// From `p` to `e`, `src` holds neither line feed nor carriage return, and
/// `e` is the end of the source or a line feed.
pub open spec fn line_end(src: Seq<char>, p: int, e: int) -> bool {
    &&& p <= e <= src.len()
    &&& forall|k: int| p <= k < e ==> #[trigger] src[k] != '\n' && src[k] != '\r'
    &&& e < src.len() ==> src[e] == '\n'
}

/// `c` starts no token: it is none of the characters that a number,
/// literal, identifier, comment, punctuation or whitespace starts with.
pub open spec fn starts_nothing(c: char) -> bool {
    &&& !is_dec_digit(c)
    &&& c != '+' && c != '-' && c != '"' && c != '\'' && c != 'r' && c != 'b' && c != '/' && c != '_'
    &&& punctuation_kind(c) is None
    &&& !is_whitespace(c)
    &&& !ident_start(c)
}

/// At `s`, `src` holds a token that reads without error: a punctuation
/// character, a string, character, byte string or byte literal whose body
/// reads, an identifier (a keyword such as `true` among them) or a raw
/// identifier, a decimal integer of digits and underscores that fits its
/// kind, a floating point literal, a radix integer that fits
/// a `usize`, a raw string or raw byte string, or a line comment or a closed
/// block comment.
pub open spec fn literal_ok_at(src: Seq<char>, s: int) -> bool {
    &&& 0 <= s < src.len()
    &&& {
        ||| punctuation_kind(src[s]) is Some
        ||| src[s] == '"' && string_from(src, s + 1) is Some
        ||| src[s] == '\'' && char_from(src, s + 1) is Some
        ||| src[s] == 'b' && s + 1 < src.len() && src[s + 1] == '"' && bytes_from(src, s + 2) is Some
        ||| src[s] == 'b' && s + 1 < src.len() && src[s + 1] == '\'' && byte_from(src, s + 2) is Some
        ||| (ident_start(src[s]) || src[s] == '_') && !is_whitespace(src[s]) && !literal_prefix_at(src, s)
        ||| exists|e: int| number_literal_at(src, s, e)
        ||| src[s] == 'r' && s + 2 < src.len() && src[s + 1] == '#' && ident_start(src[s + 2])
        ||| raw_string_ok_at(src, s)
        ||| line_comment_ok_at(src, s)
        ||| block_comment_ok_at(src, s)
    }
}

/// One read of a tokenizer that skips whitespace, going from the character
/// at `p` of `src` to the one at `q`, gives `read`: after whitespace, a token
/// that reads as its kind and whose range covers it, an error within the
/// source, or `None`, which it is exactly when only whitespace is left.
/// Where a literal that reads without error follows the whitespace, the read
/// is that token.
pub open spec fn read_step(src: Seq<char>, p: int, q: int, read: Option<Result<Token, Error>>) -> bool {
    &&& 0 <= p <= q <= src.len()
    &&& match read {
        None => q == src.len() && forall|k: int| p <= k < q ==> is_whitespace(#[trigger] src[k]),
        Some(Ok(tok)) => exists|start: int|
            #![trigger token_reads(src, start, q, tok.kind)]
            p <= start < q && (forall|k: int| p <= k < start ==> is_whitespace(#[trigger] src[k]))
                && token_reads(src, start, q, tok.kind) && tok.location.start == crate::text::byte_offset(src, start)
                && tok.location.end == crate::text::byte_offset(src, q) && !(tok.kind is Whitespace),
        Some(Err(e)) => p < q && e.location.start <= e.location.end <= byte_len(src),
    }
    &&& forall|s: int|
        #![trigger literal_ok_at(src, s)]
        p <= s && (forall|k: int| p <= k < s ==> is_whitespace(#[trigger] src[k])) && literal_ok_at(src, s)
            ==> (read matches Some(Ok(tok)) && tok.location.start == crate::text::byte_offset(src, s))
    &&& (forall|k: int| p <= k < src.len() ==> is_whitespace(#[trigger] src[k])) ==> read is None
}

/// Reading `src` from its start, the reads of a tokenizer that skips
/// whitespace give `reads`, one after the other, and end at the character at
/// `q`.
pub open spec fn lexes(src: Seq<char>, q: int, reads: Seq<Option<Result<Token, Error>>>) -> bool
    decreases reads.len(),
{
    if reads.len() == 0 {
        q == 0
    } else {
        exists|p: int| lexes(src, p, reads.drop_last()) && #[trigger] read_step(src, p, q, reads.last())
    }
}

/// Reading `src` from the character at `p`, the reads of a tokenizer that
/// skips whitespace give `reads`, one after the other, and end at the
/// character at `q`.
pub open spec fn lexes_from(src: Seq<char>, p: int, q: int, reads: Seq<Option<Result<Token, Error>>>) -> bool
    decreases reads.len(),
{
    if reads.len() == 0 {
        q == p
    } else {
        exists|r: int| lexes_from(src, p, r, reads.drop_last()) && #[trigger] read_step(src, r, q, reads.last())
    }
}

/// Reads from the start of the source are reads from its first character.
pub proof fn lemma_lexes_from_start(src: Seq<char>, q: int, reads: Seq<Option<Result<Token, Error>>>)
    requires
        lexes(src, q, reads),
    ensures
        lexes_from(src, 0, q, reads),
    decreases reads.len(),
{
    if reads.len() > 0 {
        let r = choose|r: int| lexes(src, r, reads.drop_last()) && #[trigger] read_step(src, r, q, reads.last());
        lemma_lexes_from_start(src, r, reads.drop_last());
    }
}

/// The first of the reads from `p` is one step of the tokenizer from `p`;
/// the others read on from where it ended.
pub proof fn lemma_lexes_first(src: Seq<char>, p: int, q: int, reads: Seq<Option<Result<Token, Error>>>)
    requires
        lexes_from(src, p, q, reads),
        reads.len() > 0,
    ensures
        exists|p1: int| #[trigger] read_step(src, p, p1, reads[0]) && lexes_from(src, p1, q, reads.drop_first()),
    decreases reads.len(),
{
    let r = choose|r: int| lexes_from(src, p, r, reads.drop_last()) && #[trigger] read_step(src, r, q, reads.last());
    if reads.len() == 1 {
        assert(reads.drop_first() =~= Seq::<Option<Result<Token, Error>>>::empty());
        assert(reads.last() == reads[0]);
    } else {
        lemma_lexes_first(src, p, r, reads.drop_last());
        let p1 = choose|p1: int| #[trigger] read_step(src, p, p1, reads.drop_last()[0]) && lexes_from(
            src,
            p1,
            r,
            reads.drop_last().drop_first(),
        );
        assert(reads.drop_first().drop_last() =~= reads.drop_last().drop_first());
        assert(reads.drop_first().last() == reads.last());
        assert(lexes_from(src, p1, q, reads.drop_first()));
    }
}

/// Reads Rsn source as a sequence of tokens. With `INCLUDE_ALL`, whitespace is
/// reported as tokens too; without it, whitespace is skipped.
#[derive(Debug)]
pub struct Tokenizer<const INCLUDE_ALL: bool> {
    chars: CharIterator,
}

impl Tokenizer<false> {
    /// Returns a tokenizer of `source` that skips whitespace.
    pub fn minified(source: &str) -> (t: Self)
        ensures
            t.inv(),
            t.src() == source@,
            t.pos() == 0,
    {
        Self::new(source)
    }
}

impl Tokenizer<true> {
    /// Returns a tokenizer of `source` that reports whitespace.
    pub fn full(source: &str) -> (t: Self)
        ensures
            t.inv(),
            t.src() == source@,
            t.pos() == 0,
    {
        Self::new(source)
    }
}

impl<const INCLUDE_ALL: bool> Tokenizer<INCLUDE_ALL> {
    /// The characters of the source.
    pub closed spec fn src(&self) -> Seq<char> {
        self.chars.chars()
    }

    /// The number of characters read so far.
    pub closed spec fn pos(&self) -> nat {
        self.chars.pos()
    }

    /// The character index at which the token being read starts.
    pub closed spec fn mark(&self) -> nat {
        self.chars.mark()
    }

    pub closed spec fn wf(&self) -> bool {
        self.chars.inv()
    }

    /// The tokenizer is internally consistent.
    pub open spec fn inv(&self) -> bool {
        &&& self.wf()
        &&& self.pos() <= self.src().len()
        &&& self.mark() <= self.pos()
        &&& byte_len(self.src()) <= usize::MAX
        &&& self.src().len() <= usize::MAX
    }

    /// The byte offset of the `i`-th character of the source.
    pub open spec fn offset_of(&self, i: int) -> nat {
        crate::text::byte_offset(self.src(), i)
    }

    /// `range` covers the characters `start..end` of the source.
    pub open spec fn covers(&self, range: Range<usize>, start: int, end: int) -> bool {
        range.start == self.offset_of(start) && range.end == self.offset_of(end)
    }

    /// `range` lies within the source.
    pub open spec fn within(&self, range: Range<usize>) -> bool {
        range.start <= range.end <= byte_len(self.src())
    }

    /// `self` continues reading the same source as `old`.
    pub open spec fn continues(&self, old: &Self) -> bool {
        &&& self.inv()
        &&& self.src() == old.src()
        &&& self.mark() == old.mark()
        &&& old.pos() <= self.pos()
    }

    proof fn lemma_offsets(&self, i: int, j: int)
        requires
            self.inv(),
            0 <= i <= j <= self.src().len(),
        ensures
            self.offset_of(i) <= self.offset_of(j) <= byte_len(self.src()),
    {
        self.chars.lemma_offsets(i, j);
        self.chars.lemma_offsets(j, self.src().len() as int);
        crate::text::lemma_byte_offset_end(self.src());
    }

    fn new(source: &str) -> (t: Self)
        ensures
            t.inv(),
            t.src() == source@,
            t.pos() == 0,
    {
        Self { chars: CharIterator::new(source) }
    }

    /// The byte offset just past the characters read so far.
    pub fn current_offset(&self) -> (offset: usize)
        requires
            self.inv(),
        ensures
            offset == self.offset_of(self.pos() as int),
    {
        self.chars.current_offset()
    }

    fn peek(&mut self) -> (ch: Option<char>)
        requires
            old(self).inv(),
        ensures
            *final(self) == *old(self),
            old(self).pos() < old(self).src().len() ==> ch == Some(
                old(self).src()[old(self).pos() as int],
            ),
            old(self).pos() >= old(self).src().len() ==> ch.is_none(),
    {
        self.chars.peek()
    }

    fn advance(&mut self) -> (ch: Option<char>)
        requires
            old(self).inv(),
        ensures
            final(self).continues(old(self)),
            old(self).pos() < old(self).src().len() ==> ch == Some(
                old(self).src()[old(self).pos() as int],
            ) && final(self).pos() == old(self).pos() + 1,
            old(self).pos() >= old(self).src().len() ==> ch.is_none() && final(self).pos()
                == old(self).pos(),
    {
        self.chars.next()
    }

    fn next_or_eof(&mut self) -> (r: Result<char, Error>)
        requires
            old(self).inv(),
        ensures
            final(self).continues(old(self)),
            r is Ok <==> old(self).pos() < old(self).src().len(),
            r matches Ok(ch) ==> ch == old(self).src()[old(self).pos() as int] && final(self).pos()
                == old(self).pos() + 1,
            r matches Err(e) ==> final(self).pos() == old(self).pos() && e.kind
                == ErrorKind::UnexpectedEof && final(self).within(e.location),
    {
        match self.advance() {
            Some(ch) => Ok(ch),
            None => Err(self.error_at_last_char(ErrorKind::UnexpectedEof)),
        }
    }

    fn error(&self, kind: ErrorKind) -> (e: Error)
        requires
            self.inv(),
        ensures
            e.kind == kind,
            self.covers(e.location, self.mark() as int, self.pos() as int),
            self.within(e.location),
    {
        proof {
            self.lemma_offsets(self.mark() as int, self.pos() as int);
        }
        Error::new(self.chars.marked_range(), kind)
    }

    fn error_at_last_char(&self, kind: ErrorKind) -> (e: Error)
        requires
            self.inv(),
        ensures
            e.kind == kind,
            self.within(e.location),
            self.pos() > 0 ==> self.covers(e.location, self.pos() - 1, self.pos() as int),
    {
        proof {
            if self.pos() > 0 {
                self.lemma_offsets(self.pos() - 1, self.pos() as int);
            }
        }
        Error::new(self.chars.last_char_range(), kind)
    }

    fn error_at_next_char(&mut self, kind: ErrorKind) -> (e: Error)
        requires
            old(self).inv(),
        ensures
            *final(self) == *old(self),
            e.kind == kind,
            final(self).within(e.location),
            old(self).pos() < old(self).src().len() ==> final(self).covers(
                e.location,
                old(self).pos() as int,
                old(self).pos() as int + 1,
            ),
            old(self).pos() >= old(self).src().len() ==> e.location.start == e.location.end,
    {
        let range = if let Some((offset, ch)) = self.chars.peek_full() {
            proof {
                self.lemma_offsets(self.pos() as int, self.pos() as int + 1);
                self.chars.lemma_offsets(self.pos() as int, self.pos() as int);
            }
            offset..offset + crate::text::len_utf8(ch)
        } else {
            let range = self.chars.last_char_range();
            proof {
                if self.pos() > 0 {
                    self.lemma_offsets(self.pos() - 1, self.pos() as int);
                }
            }
            range.end..range.end
        };
        Error::new(range, kind)
    }
}


impl<const INCLUDE_ALL: bool> Tokenizer<INCLUDE_ALL> {
    /// Reads decimal digits and underscores, adding them to `value`, until a
    /// character that is neither; a `.`, `e` or `E` that ends the digits is
    /// consumed and reported. Fails once the value would exceed `limit`.
    fn scan_decimal_digits(&mut self, Ghost(ds): Ghost<int>, value: u64, limit: u64) -> (r: Result<
        (u64, bool, bool),
        Error,
    >)
        requires
            old(self).inv(),
            old(self).mark() <= ds <= old(self).pos(),
            is_digit_run(old(self).src().subrange(ds, old(self).pos() as int), 10),
            value == digits_value(old(self).src().subrange(ds, old(self).pos() as int), 10),
            value <= limit,
        ensures
            final(self).continues(old(self)),
            r matches Ok((v, dec, exp)) ==> {
                let src = final(self).src();
                let p = if dec {
                    final(self).pos() - 1
                } else {
                    final(self).pos() as int
                };
                &&& ds <= p
                &&& is_digit_run(src.subrange(ds, p), 10)
                &&& v == digits_value(src.subrange(ds, p), 10)
                &&& v <= limit
                &&& dec ==> (src[p] == '.' || src[p] == 'e' || src[p] == 'E') && (exp <==> src[p]
                    != '.')
                &&& !dec ==> !exp && (p == src.len() || !(is_dec_digit(src[p]) || src[p] == '_'
                    || src[p] == '.' || src[p] == 'e' || src[p] == 'E'))
            },
            r matches Err(e) ==> {
                let src = final(self).src();
                let p = final(self).pos() as int;
                &&& e.kind == ErrorKind::IntegerTooLarge
                &&& p < src.len()
                &&& is_dec_digit(src[p])
                &&& is_digit_run(src.subrange(ds, p), 10)
                &&& digits_value(src.subrange(ds, p + 1), 10) > limit
                &&& final(self).covers(e.location, final(self).mark() as int, p)
                &&& final(self).within(e.location)
            },
            forall|e: int|
                #![trigger decimal_run(old(self).src(), ds, e, limit as int)]
                decimal_run(old(self).src(), ds, e, limit as int) && old(self).pos() <= e ==> (r matches Ok(
                    (v, dec, exp),
                ) && !dec && final(self).pos() == e),
            r is Err <==> exists|e: int| #[trigger] decimal_overflow_at(old(self).src(), ds, e, limit as int),
            forall|d: int, e: int|
                #![trigger float_run(old(self).src(), ds, d, e, limit as int)]
                float_run(old(self).src(), ds, d, e, limit as int) && old(self).pos() <= d ==> (r matches Ok(
                    (v, dec, exp),
                ) && dec && final(self).pos() == d + 1),
    {
        proof {
            assert forall|e: int| decimal_overflow_at(self.src(), ds, e, limit as int) implies self.pos() < e by {
                if e <= self.pos() {
                    let run = self.src().subrange(ds, self.pos() as int);
                    lemma_digits_value_prefix(run, e - ds, 10);
                    assert(run.take(e - ds) =~= self.src().subrange(ds, e));
                }
            }
        }
        let mut value = value;
        loop
            invariant
                self.continues(old(self)),
                old(self).mark() <= ds <= old(self).pos() <= self.pos(),
                is_digit_run(self.src().subrange(ds, self.pos() as int), 10),
                value == digits_value(self.src().subrange(ds, self.pos() as int), 10),
                value <= limit,
                forall|e: int|
                    #![trigger decimal_run(self.src(), ds, e, limit as int)]
                    decimal_run(self.src(), ds, e, limit as int) && old(self).pos() <= e ==> self.pos() <= e,
                forall|d: int, e: int|
                    #![trigger float_run(self.src(), ds, d, e, limit as int)]
                    float_run(self.src(), ds, d, e, limit as int) && old(self).pos() <= d ==> self.pos() <= d,
                forall|e: int|
                    #![trigger decimal_overflow_at(self.src(), ds, e, limit as int)]
                    decimal_overflow_at(self.src(), ds, e, limit as int) ==> self.pos() < e,
            decreases self.src().len() - self.pos(),
        {
            let ghost p = self.pos() as int;
            let ghost src = self.src();
            match self.peek() {
                None => {
                    return Ok((value, false, false));
                },
                Some(ch) => {
                    proof {
                        assert(src.subrange(ds, p + 1) =~= src.subrange(ds, p).push(ch));
                        lemma_digits_value_push(src.subrange(ds, p), ch, 10);
                    }
                    if let Some(digit) = to_digit(ch, 10) {
                        let next = (value as u128) * 10 + (digit as u128);
                        if next > limit as u128 {
                            proof {
                                assert forall|e: int|
                                    decimal_run(src, ds, e, limit as int) && old(self).pos() <= e implies false by {
                                    if p < e {
                                        let run = src.subrange(ds, e);
                                        assert(is_digit_run(run, 10)) by {
                                            assert forall|i: int| 0 <= i < run.len() implies (run[i] == '_'
                                                || is_digit_in(#[trigger] run[i], 10)) by {
                                                assert(run[i] == src[ds + i]);
                                            }
                                        }
                                        lemma_digits_value_prefix(run, p + 1 - ds, 10);
                                        assert(run.take(p + 1 - ds) =~= src.subrange(ds, p + 1));
                                    }
                                }
                                assert forall|d: int, e: int|
                                    float_run(src, ds, d, e, limit as int) && old(self).pos() <= d implies false by {
                                    if p < d {
                                        let run = src.subrange(ds, d);
                                        assert(is_digit_run(run, 10)) by {
                                            assert forall|i: int| 0 <= i < run.len() implies (run[i] == '_'
                                                || is_digit_in(#[trigger] run[i], 10)) by {
                                                assert(run[i] == src[ds + i]);
                                            }
                                        }
                                        lemma_digits_value_prefix(run, p + 1 - ds, 10);
                                        assert(run.take(p + 1 - ds) =~= src.subrange(ds, p + 1));
                                    }
                                }
                            }
                            proof {
                                assert forall|k: int| ds <= k < p + 1 implies is_dec_digit(#[trigger] src[k])
                                    || src[k] == '_' by {
                                    if k < p {
                                        assert(src.subrange(ds, p)[k - ds] == src[k]);
                                    }
                                }
                                assert(decimal_overflow_at(src, ds, p + 1, limit as int));
                            }
                            return Err(self.error(ErrorKind::IntegerTooLarge));
                        }
                        value = next as u64;
                        self.advance();
                        proof {
                            assert forall|i: int|
                                0 <= i < src.subrange(ds, p + 1).len() implies (src.subrange(
                                ds,
                                p + 1,
                            )[i] == '_' || is_digit_in(
                                #[trigger] src.subrange(ds, p + 1)[i],
                                10,
                            )) by {
                                if i < p - ds {
                                    assert(src.subrange(ds, p + 1)[i] == src.subrange(ds, p)[i]);
                                }
                            }
                        }
                    } else if ch == '.' {
                        self.advance();
                        return Ok((value, true, false));
                    } else if ch == 'e' || ch == 'E' {
                        self.advance();
                        return Ok((value, true, true));
                    } else if ch == '_' {
                        self.advance();
                        proof {
                            assert forall|i: int|
                                0 <= i < src.subrange(ds, p + 1).len() implies (src.subrange(
                                ds,
                                p + 1,
                            )[i] == '_' || is_digit_in(
                                #[trigger] src.subrange(ds, p + 1)[i],
                                10,
                            )) by {
                                if i < p - ds {
                                    assert(src.subrange(ds, p + 1)[i] == src.subrange(ds, p)[i]);
                                }
                            }
                        }
                    } else {
                        return Ok((value, false, false));
                    }
                },
            }
        }
    }
}

/// Returns `decimal_integer(v, signed, negative)`.
fn decimal_integer_of(v: u64, signed: bool, negative: bool) -> (i: Integer)
    requires
        v <= integer_limit(signed, negative),
    ensures
        i == decimal_integer(v as int, signed, negative),
{
    if negative {
        let n: i128 = -(v as i128);
        if n >= isize::MIN as i128 {
            Integer::Isize(n as isize)
        } else {
            Integer::SignedLarge(n as i64)
        }
    } else if signed {
        if v as u128 <= isize::MAX as u128 {
            Integer::Isize(v as isize)
        } else {
            Integer::SignedLarge(v as i64)
        }
    } else {
        if v as u128 <= usize::MAX as u128 {
            Integer::Usize(v as usize)
        } else {
            Integer::UnsignedLarge(v)
        }
    }
}

impl<const INCLUDE_ALL: bool> Tokenizer<INCLUDE_ALL> {
    /// The characters `start..end` of the source, without underscores.
    fn stripped_range(&self, start: usize, end: usize) -> (v: Vec<char>)
        requires
            self.inv(),
            start <= end <= self.src().len(),
        ensures
            v@ == strip_underscores(self.src().subrange(start as int, end as int)),
    {
        let mut v: Vec<char> = Vec::new();
        let mut i = start;
        proof {
            assert(self.src().subrange(start as int, start as int) =~= Seq::<char>::empty());
            assert(strip_underscores(Seq::<char>::empty()) =~= Seq::<char>::empty());
        }
        while i < end
            invariant
                self.inv(),
                start <= i <= end <= self.src().len(),
                v@ == strip_underscores(self.src().subrange(start as int, i as int)),
            decreases end - i,
        {
            let ch = self.chars.char_at(i);
            proof {
                assert(self.src().subrange(start as int, i + 1) =~= self.src().subrange(
                    start as int,
                    i as int,
                ).push(ch));
                lemma_strip_push(self.src().subrange(start as int, i as int), ch);
            }
            if ch != '_' {
                v.push(ch);
            }
            i = i + 1;
        }
        v
    }

    /// Reads the rest of a floating point literal whose integer part, and the
    /// `.`, `e` or `E` after it, have been read.
    fn tokenize_float(&mut self, has_exponent: bool) -> (r: Result<Token, Error>)
        requires
            old(self).inv(),
            old(self).mark() < old(self).pos(),
            has_float_marker(old(self).src().subrange(old(self).mark() as int, old(self).pos() as int)),
            has_exponent ==> old(self).src()[old(self).pos() - 1] == 'e' || old(self).src()[old(self).pos()
                - 1] == 'E',
        ensures
            r is Ok ==> {
                let src = final(self).src();
                let p = final(self).pos() as int;
                p < src.len() ==> !is_dec_digit(src[p]) && src[p] != '_' && (!has_exponent_in(
                    src,
                    old(self).pos() - 1,
                    p,
                ) ==> src[p] != 'e' && src[p] != 'E')
            },
            r is Err ==> has_exponent_in(old(self).src(), old(self).pos() - 1, final(self).pos() as int),
            r is Ok && has_exponent ==> exponent_tail(
                old(self).src(),
                old(self).pos() as int,
                final(self).pos() as int,
            ),
            r is Ok && !has_exponent ==> float_tail(
                old(self).src(),
                old(self).pos() as int,
                final(self).pos() as int,
            ) || exists|x: int|
                #[trigger] fraction_then_exponent(
                    old(self).src(),
                    old(self).pos() as int,
                    x,
                    final(self).pos() as int,
                ),
            !has_exponent ==> forall|e: int|
                #![trigger float_tail(old(self).src(), old(self).pos() as int, e)]
                float_tail(old(self).src(), old(self).pos() as int, e) ==> r is Ok && final(self).pos()
                    == e,
            !has_exponent ==> forall|x: int, e: int|
                #![trigger fraction_then_exponent(old(self).src(), old(self).pos() as int, x, e)]
                fraction_then_exponent(old(self).src(), old(self).pos() as int, x, e) ==> r is Ok
                    && final(self).pos() == e,
            has_exponent ==> forall|e: int|
                #![trigger exponent_tail(old(self).src(), old(self).pos() as int, e)]
                exponent_tail(old(self).src(), old(self).pos() as int, e) ==> r is Ok && final(self).pos()
                    == e,
            final(self).continues(old(self)),
            r matches Ok(tok) ==> {
                &&& final(self).covers(
                    tok.location,
                    final(self).mark() as int,
                    final(self).pos() as int,
                )
                &&& has_float_marker(
                    final(self).src().subrange(final(self).mark() as int, final(self).pos() as int),
                )
                &&& tok.kind matches TokenKind::Float(f) && f@ == strip_underscores(
                    final(self).src().subrange(final(self).mark() as int, final(self).pos() as int),
                )
            },
            r matches Err(e) ==> final(self).within(e.location) && (e.kind
                == ErrorKind::ExpectedDigit || e.kind == ErrorKind::InvalidFloat),
    {
        let mut has_exponent = has_exponent;
        let ghost src0 = self.src();
        let ghost from = self.pos() - 1;
        let ghost mut ek: int = from;
        let mut scratch = self.stripped_range(
            self.chars.marked_position(),
            self.chars.position(),
        );
        if !has_exponent {
            // Read any decimal digits
            loop
                invariant_except_break
                    !has_exponent,
                    forall|k: int|
                        old(self).pos() <= k < self.pos() ==> is_dec_digit(#[trigger] src0[k]) || src0[k]
                            == '_',
                invariant
                    self.continues(old(self)),
                    scratch@ == strip_underscores(
                        self.src().subrange(self.mark() as int, self.pos() as int),
                    ),
                    src0 == self.src(),
                    from == old(self).pos() - 1,
                    has_exponent ==> from <= ek < self.pos() && (src0[ek] == 'e' || src0[ek] == 'E'),
                    forall|e: int|
                        #![trigger float_tail(src0, old(self).pos() as int, e)]
                        float_tail(src0, old(self).pos() as int, e) ==> self.pos() <= e && !has_exponent,
                    old(self).pos() <= self.pos(),
                    forall|x: int, e: int|
                        #![trigger fraction_then_exponent(src0, old(self).pos() as int, x, e)]
                        fraction_then_exponent(src0, old(self).pos() as int, x, e) ==> if has_exponent {
                            ek == x && self.pos() == x + 1
                        } else {
                            self.pos() <= x
                        },
                ensures
                    self.continues(old(self)),
                    scratch@ == strip_underscores(
                        self.src().subrange(self.mark() as int, self.pos() as int),
                    ),
                    src0 == self.src(),
                    has_exponent ==> from <= ek < self.pos() && (src0[ek] == 'e' || src0[ek] == 'E'),
                    !has_exponent ==> (self.pos() < src0.len() ==> !is_dec_digit(src0[self.pos() as int])
                        && src0[self.pos() as int] != '_' && src0[self.pos() as int] != 'e'
                        && src0[self.pos() as int] != 'E'),
                    forall|e: int|
                        #![trigger float_tail(src0, old(self).pos() as int, e)]
                        float_tail(src0, old(self).pos() as int, e) ==> self.pos() == e && !has_exponent,
                    forall|x: int, e: int|
                        #![trigger fraction_then_exponent(src0, old(self).pos() as int, x, e)]
                        fraction_then_exponent(src0, old(self).pos() as int, x, e) ==> has_exponent && ek == x
                            && self.pos() == x + 1,
                    old(self).pos() <= self.pos(),
                    !has_exponent ==> forall|k: int|
                        old(self).pos() <= k < self.pos() ==> is_dec_digit(#[trigger] src0[k]) || src0[k]
                            == '_',
                    has_exponent ==> old(self).pos() <= ek == self.pos() - 1 && forall|k: int|
                        old(self).pos() <= k < ek ==> is_dec_digit(#[trigger] src0[k]) || src0[k] == '_',
                decreases self.src().len() - self.pos(),
            {
                let ghost src = self.src();
                let ghost p = self.pos() as int;
                match self.peek() {
                    Some(ch) => {
                        proof {
                            assert(src.subrange(self.mark() as int, p + 1) =~= src.subrange(
                                self.mark() as int,
                                p,
                            ).push(ch));
                            lemma_strip_push(src.subrange(self.mark() as int, p), ch);
                            assert(ch == src0[p]);
                            assert forall|x: int, e: int|
                                #[trigger] fraction_then_exponent(src0, old(self).pos() as int, x, e) && ch
                                    != 'e' && ch != 'E' implies p < x by {
                                if p == x {
                                    assert(src0[x] == 'e' || src0[x] == 'E');
                                }
                            }
                        }
                        if is_dec_digit_exec(ch) {
                            scratch.push(ch);
                            self.advance();
                        } else if ch == '_' {
                            self.advance();
                        } else if ch == 'e' || ch == 'E' {
                            scratch.push(ch);
                            has_exponent = true;
                            proof {
                                ek = p;
                            }
                            self.advance();
                            break ;
                        } else {
                            break ;
                        }
                    },
                    None => {
                        break ;
                    },
                }
            }
        }
        let mut exponent_underscore = false;
        let ghost xp = self.pos() as int;
        assert(src0 == self.src());
        assert(has_exponent ==> from <= ek < self.pos() && (src0[ek] == 'e' || src0[ek] == 'E'));
        if has_exponent {
            // Handle the exponent sign
            let ghost src = self.src();
            let ghost p = self.pos() as int;
            if let Some(ch) = self.peek() {
                if ch == '+' || ch == '-' {
                    proof {
                        assert(src.subrange(self.mark() as int, p + 1) =~= src.subrange(
                            self.mark() as int,
                            p,
                        ).push(ch));
                        lemma_strip_push(src.subrange(self.mark() as int, p), ch);
                    }
                    scratch.push(ch);
                    self.advance();
                }
            }
            // Require at least one digit for the exponent, but allow
            // skipping underscores.

            let mut has_exponent_digit = false;
            let ghost q = self.pos() as int;
            loop
                invariant
                    xp <= q <= self.pos(),
                    q == (if 0 <= xp < src0.len() && (src0[xp] == '+' || src0[xp] == '-') {
                        xp + 1
                    } else {
                        xp
                    }),
                    forall|e: int|
                        #![trigger exponent_tail(src0, xp, e)]
                        exponent_tail(src0, xp, e) ==> self.pos() <= e && !exponent_underscore && (q
                            < self.pos() ==> has_exponent_digit),
                    !exponent_underscore ==> forall|k: int|
                        q <= k < self.pos() ==> is_dec_digit(#[trigger] src0[k]),
                    has_exponent_digit ==> q < self.pos(),
                    self.continues(old(self)),
                    !exponent_underscore ==> scratch@ == strip_underscores(
                        self.src().subrange(self.mark() as int, self.pos() as int),
                    ),
                    src0 == self.src(),
                    from <= ek < self.pos() && (src0[ek] == 'e' || src0[ek] == 'E'),
                ensures
                    self.continues(old(self)),
                    !exponent_underscore ==> scratch@ == strip_underscores(
                        self.src().subrange(self.mark() as int, self.pos() as int),
                    ),
                    src0 == self.src(),
                    from <= ek < self.pos() && (src0[ek] == 'e' || src0[ek] == 'E'),
                    self.pos() < src0.len() ==> !is_dec_digit(src0[self.pos() as int])
                        && src0[self.pos() as int] != '_',
                    forall|e: int|
                        #![trigger exponent_tail(src0, xp, e)]
                        exponent_tail(src0, xp, e) ==> self.pos() == e && !exponent_underscore
                            && has_exponent_digit,
                    xp <= q <= self.pos(),
                    !exponent_underscore ==> forall|k: int|
                        q <= k < self.pos() ==> is_dec_digit(#[trigger] src0[k]),
                    has_exponent_digit ==> q < self.pos(),
                decreases self.src().len() - self.pos(),
            {
                let ghost src = self.src();
                let ghost p = self.pos() as int;
                match self.peek() {
                    Some(ch) => {
                        proof {
                            assert(src.subrange(self.mark() as int, p + 1) =~= src.subrange(
                                self.mark() as int,
                                p,
                            ).push(ch));
                            lemma_strip_push(src.subrange(self.mark() as int, p), ch);
                        }
                        let is_digit = is_dec_digit_exec(ch);
                        if is_digit || ch == '_' {
                            has_exponent_digit = has_exponent_digit || is_digit;
                            if ch == '_' {
                                exponent_underscore = true;
                            }
                            scratch.push(ch);
                            self.advance();
                        } else {
                            break ;
                        }
                    },
                    None => {
                        break ;
                    },
                }
            }
            if !has_exponent_digit {
                assert(has_exponent_in(src0, from, self.pos() as int));
                return Err(self.error_at_next_char(ErrorKind::ExpectedDigit));
            }
            assert(has_exponent_in(src0, from, self.pos() as int));
            assert(!exponent_underscore ==> exponent_tail(src0, xp, self.pos() as int));
        }
        // An underscore in the exponent is outside of the floating point
        // literal syntax.

        if exponent_underscore {
            return Err(self.error(ErrorKind::InvalidFloat));
        }
        proof {
            self.lemma_offsets(self.mark() as int, self.pos() as int);
            assert(src0 == old(self).src());
            if has_exponent && xp != old(self).pos() {
                assert(fraction_then_exponent(src0, old(self).pos() as int, ek, self.pos() as int));
            } else if !has_exponent {
                assert(float_tail(src0, old(self).pos() as int, self.pos() as int));
            }
        }
        let text = crate::text::string_from_chars(scratch.as_slice());
        Ok(Token::new(self.chars.marked_range(), TokenKind::Float(text)))
    }
}

impl<const INCLUDE_ALL: bool> Tokenizer<INCLUDE_ALL> {
    /// Reads the rest of a decimal literal whose digits start at `ds` and
    /// whose value so far is `value`; the sign, if any, is at `ds - 1`.
    fn tokenize_decimal(&mut self, Ghost(ds): Ghost<int>, value: u64, signed: bool, negative: bool) -> (r:
        Result<Token, Error>)
        requires
            old(self).inv(),
            signed ==> ds == old(self).mark() + 1,
            !signed ==> ds == old(self).mark(),
            negative ==> signed,
            ds + 1 == old(self).pos(),
            sign_split(old(self).src().subrange(old(self).mark() as int, ds + 1)) == (
                signed,
                negative,
                old(self).src().subrange(ds, ds + 1),
            ),
            is_dec_digit(old(self).src()[ds]),
            value == digit_of(old(self).src()[ds]),
        ensures
            final(self).continues(old(self)),
            r matches Ok(tok) ==> {
                let text = final(self).src().subrange(
                    final(self).mark() as int,
                    final(self).pos() as int,
                );
                &&& final(self).covers(
                    tok.location,
                    final(self).mark() as int,
                    final(self).pos() as int,
                )
                &&& (decimal_reads(text, tok.kind) && decimal_end(final(self).src(), final(self).pos() as int)
                    || float_reads(text, tok.kind) && float_literal_at(
                    final(self).src(),
                    final(self).mark() as int,
                    final(self).pos() as int,
                ))
            },
            r matches Err(e) ==> final(self).within(e.location) && (e.kind == ErrorKind::IntegerTooLarge
                || e.kind == ErrorKind::ExpectedDigit || e.kind == ErrorKind::InvalidFloat),
            (exists|e: int| #[trigger] decimal_overflow_at(old(self).src(), ds, e, integer_limit(signed, negative))) <==> (r matches Err(
                e,
            ) && e.kind == ErrorKind::IntegerTooLarge),
            forall|e: int|
                #![trigger number_run(old(self).src(), ds, e, integer_limit(signed, negative))]
                number_run(old(self).src(), ds, e, integer_limit(signed, negative)) ==> (r is Ok
                    && final(self).pos() == e),
    {
        let limit: u64 = if negative {
            0x8000_0000_0000_0000
        } else if signed {
            0x7FFF_FFFF_FFFF_FFFF
        } else {
            0xFFFF_FFFF_FFFF_FFFF
        };
        let ghost src = self.src();
        let ghost m = self.mark() as int;
        proof {
            let run = src.subrange(ds, ds + 1);
            assert(run.drop_last() =~= Seq::<char>::empty());
            assert(run.last() == src[ds]);
            assert(digits_value(run.drop_last(), 10) == 0);
            assert(digits_value(run, 10) == digit_of(src[ds]));
            assert(is_digit_run(run, 10)) by {
                assert forall|i: int| 0 <= i < run.len() implies (run[i] == '_' || is_digit_in(
                    #[trigger] run[i],
                    10,
                )) by {
                    assert(run[i] == src[ds]);
                }
            }
        }
        assert(limit as int == integer_limit(signed, negative));
        let ghost lim = integer_limit(signed, negative);
        let scanned = self.scan_decimal_digits(Ghost(ds), value, limit);
        proof {
            assert forall|e: int| number_run(src, ds, e, lim) && !decimal_run(src, ds, e, lim) implies (
            scanned matches Ok((v, dec, exp)) && dec && if exp {
                exponent_tail(src, self.pos() as int, e)
            } else {
                float_tail(src, self.pos() as int, e) || exists|x: int|
                    #[trigger] fraction_then_exponent(src, self.pos() as int, x, e)
            }) by {
                let d = choose|d: int| float_run(src, ds, d, e, lim);
                assert(float_run(src, ds, d, e, lim));
            }
        }
        match scanned {
            Err(e) => Err(e),
            Ok((v, false, _)) => {
                proof {
                    self.lemma_offsets(m, self.pos() as int);
                    let text = src.subrange(m, self.pos() as int);
                    let body = src.subrange(ds, self.pos() as int);
                    if signed {
                        assert(text.drop_first() =~= body);
                        assert(text[0] == src[m]);
                        assert(src.subrange(m, ds + 1)[0] == src[m]);
                    } else {
                        assert(text =~= body);
                        assert(src.subrange(m, ds + 1)[0] == src[m]);
                        assert(src.subrange(ds, ds + 1)[0] == src[m]);
                    }
                    assert(body[0] == src[ds]);
                }
                Ok(
                    Token::new(
                        self.chars.marked_range(),
                        TokenKind::Integer(decimal_integer_of(v, signed, negative)),
                    ),
                )
            },
            Ok((_, true, has_exponent)) => {
                proof {
                    let text = src.subrange(m, self.pos() as int);
                    let k = self.pos() - 1 - m;
                    assert(text[k] == src[self.pos() - 1]);
                    assert(is_float_marker(text[k]));
                }
                let ghost p1 = self.pos() as int;
                let r = self.tokenize_float(has_exponent);
                proof {
                    if r is Ok {
                        let d = p1 - 1;
                        let e = self.pos() as int;
                        assert forall|k: int| ds <= k < d implies is_dec_digit(#[trigger] src[k]) || src[k]
                            == '_' by {
                            assert(src.subrange(ds, d)[k - ds] == src[k]);
                        }
                        if !has_exponent && !float_tail(src, p1, e) {
                            let x = choose|x: int| fraction_then_exponent(src, p1, x, e);
                            assert(fraction_then_exponent(src, p1, x, e));
                        }
                        assert(float_run(src, ds, d, e, lim));
                        assert(src.subrange(m, ds + 1)[0] == src[m]);
                        if !signed {
                            assert(src.subrange(ds, ds + 1)[0] == src[m]);
                        }
                        assert(digits_start(src, m) == ds);
                        assert(limit_at(src, m) == lim);
                        assert(float_literal_at(src, m, e));
                    }
                    assert forall|e: int| number_run(src, ds, e, lim) implies r is Ok && self.pos() == e by {
                        if !decimal_run(src, ds, e, lim) {
                            if has_exponent {
                                assert(exponent_tail(src, p1, e));
                            } else if !float_tail(src, p1, e) {
                                let x = choose|x: int| fraction_then_exponent(src, p1, x, e);
                                assert(fraction_then_exponent(src, p1, x, e));
                            }
                        }
                    }
                    if r is Ok {
                        let text = src.subrange(m, self.pos() as int);
                        let body = src.subrange(ds, self.pos() as int);
                        assert(src.subrange(m, ds + 1)[0] == src[m]);
                        assert(text[0] == src[m]);
                        if signed {
                            assert(text.drop_first() =~= body);
                        } else {
                            assert(text =~= body);
                            assert(src.subrange(ds, ds + 1)[0] == src[m]);
                        }
                        assert(body[0] == src[ds]);
                    }
                }
                r
            },
        }
    }

    /// Reads the rest of a positive decimal literal whose first digit, worth
    /// `value`, has been read.
    fn tokenize_positive_integer(&mut self, value: u64, signed: bool) -> (r: Result<Token, Error>)
        requires
            old(self).inv(),
            old(self).pos() == old(self).mark() + 1 + (if signed {
                1int
            } else {
                0
            }),
            signed ==> old(self).src()[old(self).mark() as int] == '+',
            is_dec_digit(old(self).src()[old(self).pos() - 1]),
            value == digit_of(old(self).src()[old(self).pos() - 1]),
        ensures
            final(self).continues(old(self)),
            r matches Ok(tok) ==> {
                let text = final(self).src().subrange(
                    final(self).mark() as int,
                    final(self).pos() as int,
                );
                &&& final(self).covers(
                    tok.location,
                    final(self).mark() as int,
                    final(self).pos() as int,
                )
                &&& (decimal_reads(text, tok.kind) && decimal_end(final(self).src(), final(self).pos() as int)
                    || float_reads(text, tok.kind) && float_literal_at(
                    final(self).src(),
                    final(self).mark() as int,
                    final(self).pos() as int,
                ))
            },
            r matches Err(e) ==> final(self).within(e.location) && (e.kind == ErrorKind::IntegerTooLarge
                || e.kind == ErrorKind::ExpectedDigit || e.kind == ErrorKind::InvalidFloat),
            (exists|e: int| #[trigger] decimal_overflow_at(old(self).src(), old(self).pos() - 1, e, integer_limit(signed, false))) <==> (r matches Err(
                e,
            ) && e.kind == ErrorKind::IntegerTooLarge),
            forall|e: int|
                #![trigger number_run(old(self).src(), old(self).pos() - 1, e, integer_limit(signed, false))]
                number_run(old(self).src(), old(self).pos() - 1, e, integer_limit(signed, false)) ==> (r is Ok
                    && final(self).pos() == e),
    {
        let ghost ds = self.pos() - 1;
        proof {
            let src = self.src();
            let m = self.mark() as int;
            let t = src.subrange(m, ds + 1);
            if signed {
                assert(t[0] == '+');
                assert(t.drop_first() =~= src.subrange(ds, ds + 1));
            } else {
                assert(t =~= src.subrange(ds, ds + 1));
                assert(t[0] == src[ds]);
            }
        }
        self.tokenize_decimal(Ghost(ds), value, signed, false)
    }

    /// Reads the rest of a negative decimal literal whose first digit, worth
    /// `value`, has been read.
    fn tokenize_negative_integer(&mut self, value: u64) -> (r: Result<Token, Error>)
        requires
            old(self).inv(),
            old(self).pos() == old(self).mark() + 2,
            old(self).src()[old(self).mark() as int] == '-',
            is_dec_digit(old(self).src()[old(self).pos() - 1]),
            value == digit_of(old(self).src()[old(self).pos() - 1]),
        ensures
            final(self).continues(old(self)),
            r matches Ok(tok) ==> {
                let text = final(self).src().subrange(
                    final(self).mark() as int,
                    final(self).pos() as int,
                );
                &&& final(self).covers(
                    tok.location,
                    final(self).mark() as int,
                    final(self).pos() as int,
                )
                &&& (decimal_reads(text, tok.kind) && decimal_end(final(self).src(), final(self).pos() as int)
                    || float_reads(text, tok.kind) && float_literal_at(
                    final(self).src(),
                    final(self).mark() as int,
                    final(self).pos() as int,
                ))
            },
            r matches Err(e) ==> final(self).within(e.location) && (e.kind == ErrorKind::IntegerTooLarge
                || e.kind == ErrorKind::ExpectedDigit || e.kind == ErrorKind::InvalidFloat),
            (exists|e: int| #[trigger] decimal_overflow_at(old(self).src(), old(self).pos() - 1, e, integer_limit(true, true))) <==> (r matches Err(
                e,
            ) && e.kind == ErrorKind::IntegerTooLarge),
            forall|e: int|
                #![trigger number_run(old(self).src(), old(self).pos() - 1, e, integer_limit(true, true))]
                number_run(old(self).src(), old(self).pos() - 1, e, integer_limit(true, true)) ==> (r is Ok
                    && final(self).pos() == e),
    {
        let ghost ds = self.pos() - 1;
        proof {
            let src = self.src();
            let m = self.mark() as int;
            let t = src.subrange(m, ds + 1);
            assert(t[0] == '-');
            assert(t.drop_first() =~= src.subrange(ds, ds + 1));
        }
        self.tokenize_decimal(Ghost(ds), value, true, true)
    }
}

/// Returns `radix_integer(v, signed, negative)`.
fn radix_integer_of(v: usize, signed: bool, negative: bool) -> (i: Integer)
    ensures
        i == radix_integer(v as int, signed, negative),
{
    if negative {
        let n: i128 = -(v as i128);
        Integer::Isize(n as isize)
    } else if signed {
        Integer::Isize(v as isize)
    } else {
        Integer::Usize(v)
    }
}

/// Returns `2^bits` for the radix literals: 2, 8 and 16.
fn radix_of_bits(bits: u32) -> (radix: u32)
    requires
        bits == 1 || bits == 3 || bits == 4,
    ensures
        radix == (if bits == 1 {
            2int
        } else if bits == 3 {
            8int
        } else {
            16int
        }),
{
    if bits == 1 {
        2
    } else if bits == 3 {
        8
    } else {
        16
    }
}

/// `2^bits` for the radix literals.
pub open spec fn radix_of_bits_spec(bits: u32) -> int {
    if bits == 1 {
        2
    } else if bits == 3 {
        8
    } else {
        16
    }
}

/// The text after the sign of a radix literal: `0`, then its radix prefix.
pub open spec fn radix_head(text: Seq<char>, signed: bool, negative: bool, radix: int) -> bool {
    let (s, n, body) = sign_split(text);
    &&& s == signed
    &&& n == negative
    &&& body.len() == 2
    &&& body[0] == '0'
    &&& radix_of_prefix(body[1]) == radix
}

/// The parts of a radix literal that starts at `m` and whose digits start at
/// `ds`.
proof fn lemma_radix_text(
    src: Seq<char>,
    m: int,
    ds: int,
    p: int,
    signed: bool,
    negative: bool,
    radix: int,
)
    requires
        0 <= m <= ds <= p <= src.len(),
        radix_head(src.subrange(m, ds), signed, negative, radix),
    ensures
        ({
            let (s, n, body) = sign_split(src.subrange(m, p));
            &&& s == signed
            &&& n == negative
            &&& body.len() == 2 + (p - ds)
            &&& body[0] == '0'
            &&& radix_of_prefix(body[1]) == radix
            &&& body.subrange(2, body.len() as int) == src.subrange(ds, p)
        }),
{
    let text = src.subrange(m, p);
    let head = src.subrange(m, ds);
    let (s, n, body) = sign_split(text);
    assert(text[0] == head[0]);
    if signed {
        assert(body.subrange(2, body.len() as int) =~= src.subrange(ds, p));
        assert(body[0] == head.drop_first()[0]);
        assert(body[1] == head.drop_first()[1]);
    } else {
        assert(body.subrange(2, body.len() as int) =~= src.subrange(ds, p));
        assert(body[0] == head[0]);
        assert(body[1] == head[1]);
    }
}

impl<const INCLUDE_ALL: bool> Tokenizer<INCLUDE_ALL> {
    /// Continues a radix literal whose value no longer fits in a `usize`: the
    /// digits read so far, from `ds`, hold `value`. The literal reads in the
    /// large representation while its value fits a `u64`; beyond that it is
    /// too large.
    fn tokenize_radix_large_number(
        &mut self,
        bits: u32,
        signed: bool,
        negative: bool,
        value: u128,
        Ghost(ds): Ghost<int>,
    ) -> (r: Result<Token, Error>)
        requires
            old(self).inv(),
            bits == 1 || bits == 3 || bits == 4,
            negative ==> signed,
            old(self).mark() <= ds <= old(self).pos(),
            has_digit(old(self).src().subrange(ds, old(self).pos() as int)),
            is_digit_run(
                old(self).src().subrange(ds, old(self).pos() as int),
                radix_of_bits_spec(bits),
            ),
            value == digits_value(
                old(self).src().subrange(ds, old(self).pos() as int),
                radix_of_bits_spec(bits),
            ),
            value > usize::MAX,
        ensures
            final(self).continues(old(self)),
            r matches Ok(tok) ==> {
                let src = final(self).src();
                let p = final(self).pos() as int;
                let run = src.subrange(ds, p);
                let radix = radix_of_bits_spec(bits);
                let v = digits_value(run, radix);
                &&& final(self).covers(tok.location, final(self).mark() as int, p)
                &&& has_digit(run)
                &&& is_digit_run(run, radix)
                &&& usize::MAX < v <= u64::MAX
                &&& tok.kind == TokenKind::Integer(radix_large_integer(v, signed, negative))
                &&& p < src.len() ==> !(is_digit_in(src[p], radix) || src[p] == '_')
            },
            r matches Err(e) ==> final(self).within(e.location) && e.kind
                == ErrorKind::IntegerTooLarge,
            r is Err <==> exists|e: int|
                #[trigger] radix_overflow_at(old(self).src(), ds, e, radix_of_bits_spec(bits)),
    {
        let max = radix_of_bits(bits);
        let ghost radix = max as int;
        proof {
            let src = self.src();
            let run = src.subrange(ds, self.pos() as int);
            assert forall|k: int| ds <= k < self.pos() implies is_digit_in(#[trigger] src[k], radix)
                || src[k] == '_' by {
                assert(run[k - ds] == src[k]);
            }
            assert forall|e: int| radix_overflow_at(src, ds, e, radix) && value <= u64::MAX implies self.pos()
                < e by {
                if e <= self.pos() {
                    lemma_digits_value_prefix(run, e - ds, radix);
                    assert(run.take(e - ds) =~= src.subrange(ds, e));
                }
            }
        }
        if value > u64::MAX as u128 {
            proof {
                assert(radix_overflow_at(self.src(), ds, self.pos() as int, radix));
            }
            return Err(self.error(ErrorKind::IntegerTooLarge));
        }
        let mut value: u64 = value as u64;
        loop
            invariant
                self.continues(old(self)),
                old(self).mark() <= ds <= old(self).pos() <= self.pos(),
                bits == 1 || bits == 3 || bits == 4,
                max == radix,
                radix == radix_of_bits_spec(bits),
                has_digit(self.src().subrange(ds, self.pos() as int)),
                is_digit_run(self.src().subrange(ds, self.pos() as int), radix),
                value == digits_value(self.src().subrange(ds, self.pos() as int), radix),
                value > usize::MAX,
                forall|e: int|
                    #![trigger radix_overflow_at(self.src(), ds, e, radix)]
                    radix_overflow_at(self.src(), ds, e, radix) ==> self.pos() < e,
            ensures
                self.continues(old(self)),
                old(self).mark() <= ds <= old(self).pos() <= self.pos(),
                has_digit(self.src().subrange(ds, self.pos() as int)),
                is_digit_run(self.src().subrange(ds, self.pos() as int), radix),
                value == digits_value(self.src().subrange(ds, self.pos() as int), radix),
                value > usize::MAX,
                self.pos() < self.src().len() ==> !(is_digit_in(self.src()[self.pos() as int], radix)
                    || self.src()[self.pos() as int] == '_'),
                forall|e: int|
                    #![trigger radix_overflow_at(self.src(), ds, e, radix)]
                    radix_overflow_at(self.src(), ds, e, radix) ==> self.pos() < e,
            decreases self.src().len() - self.pos(),
        {
            let ghost src = self.src();
            let ghost p = self.pos() as int;
            match self.peek() {
                Some(ch) => {
                    let ghost run = src.subrange(ds, p);
                    proof {
                        assert(src.subrange(ds, p + 1) =~= run.push(ch));
                        lemma_digits_value_push(run, ch, radix);
                        let w = choose|i: int| 0 <= i < run.len() && run[i] != '_';
                        assert(run.push(ch)[w] == run[w]);
                        assert forall|k: int| 0 <= k < run.len() implies run.push(ch)[k]
                            == #[trigger] run[k] by {}
                        assert(run.push(ch)[p - ds] == ch);
                    }
                    if let Some(radix_value) = to_digit(ch, max) {
                        self.advance();
                        assert((value as u128) * (max as u128) <= 0xFFFF_FFFF_FFFF_FFFFu128 * 16)
                            by (nonlinear_arith)
                            requires
                                value <= 0xFFFF_FFFF_FFFF_FFFFu64,
                                max <= 16,
                        ;
                        let next = (value as u128) * (max as u128) + (radix_value as u128);
                        if next > u64::MAX as u128 {
                            proof {
                                assert forall|k: int| ds <= k < p + 1 implies is_digit_in(
                                    #[trigger] src[k],
                                    radix,
                                ) || src[k] == '_' by {
                                    if k < p {
                                        assert(run[k - ds] == src[k]);
                                    }
                                }
                                assert(radix_overflow_at(src, ds, p + 1, radix));
                            }
                            return Err(self.error(ErrorKind::IntegerTooLarge));
                        }
                        assert(next >= value) by (nonlinear_arith)
                            requires
                                next == (value as u128) * (max as u128) + (radix_value as u128),
                                max >= 2,
                        ;
                        value = next as u64;
                    } else if ch == '_' {
                        self.advance();
                    } else {
                        break ;
                    }
                },
                None => {
                    break ;
                },
            }
        }
        proof {
            self.lemma_offsets(self.mark() as int, self.pos() as int);
        }
        let integer = if negative {
            let n: i128 = -(value as i128);
            Integer::SignedLarge(n as i64)
        } else if signed {
            Integer::SignedLarge(value as i64)
        } else {
            Integer::UnsignedLarge(value)
        };
        Ok(Token::new(self.chars.marked_range(), TokenKind::Integer(integer)))
    }

    /// Reads the digits of a radix literal whose prefix has been read.
    fn tokenize_radix_number(&mut self, bits: u32, signed: bool, negative: bool) -> (r: Result<
        Token,
        Error,
    >)
        requires
            old(self).inv(),
            bits == 1 || bits == 3 || bits == 4,
            negative ==> signed,
            radix_head(
                old(self).src().subrange(old(self).mark() as int, old(self).pos() as int),
                signed,
                negative,
                radix_of_bits_spec(bits),
            ),
        ensures
            final(self).continues(old(self)),
            r matches Ok(tok) ==> {
                let text = final(self).src().subrange(
                    final(self).mark() as int,
                    final(self).pos() as int,
                );
                &&& final(self).covers(
                    tok.location,
                    final(self).mark() as int,
                    final(self).pos() as int,
                )
                &&& radix_reads(text, tok.kind)
                &&& radix_end(final(self).src(), text, final(self).pos() as int)
            },
            r matches Err(e) ==> final(self).within(e.location) && (e.kind == ErrorKind::IntegerTooLarge
                || e.kind == ErrorKind::ExpectedDigit),
            (exists|e: int|
                #[trigger] radix_overflow_at(old(self).src(), old(self).pos() as int, e, radix_of_bits_spec(bits)))
                <==> (r matches Err(e) && e.kind == ErrorKind::IntegerTooLarge),
            forall|e: int|
                #![trigger radix_run(old(self).src(), old(self).pos() as int, e, radix_of_bits_spec(bits))]
                radix_run(old(self).src(), old(self).pos() as int, e, radix_of_bits_spec(bits)) ==> (r is Ok
                    && final(self).pos() == e),
    {
        let max = radix_of_bits(bits);
        let ghost radix = max as int;
        let ghost ds = self.pos() as int;
        let ghost m = self.mark() as int;
        let mut value: usize = 0;
        let mut read_at_least_one_digit = false;
        proof {
            assert(self.src().subrange(ds, ds) =~= Seq::<char>::empty());
            assert(digits_value(self.src().subrange(ds, ds), radix) == 0);
        }
        loop
            invariant
                self.continues(old(self)),
                old(self).pos() == ds <= self.pos(),
                m == self.mark(),
                m <= ds,
                radix_head(self.src().subrange(m, ds), signed, negative, radix),
                bits == 1 || bits == 3 || bits == 4,
                max == radix,
                radix == radix_of_bits_spec(bits),
                is_digit_run(self.src().subrange(ds, self.pos() as int), radix),
                value == digits_value(self.src().subrange(ds, self.pos() as int), radix),
                read_at_least_one_digit ==> has_digit(self.src().subrange(ds, self.pos() as int)),
                !read_at_least_one_digit ==> forall|k: int| ds <= k < self.pos() ==> #[trigger] self.src()[k]
                    == '_',
                forall|e: int|
                    #![trigger radix_run(self.src(), ds, e, radix)]
                    radix_run(self.src(), ds, e, radix) ==> self.pos() <= e,
                forall|e: int|
                    #![trigger radix_overflow_at(self.src(), ds, e, radix)]
                    radix_overflow_at(self.src(), ds, e, radix) ==> self.pos() < e,
            ensures
                self.continues(old(self)),
                old(self).pos() == ds <= self.pos(),
                m == self.mark(),
                radix_head(self.src().subrange(m, ds), signed, negative, radix),
                is_digit_run(self.src().subrange(ds, self.pos() as int), radix),
                value == digits_value(self.src().subrange(ds, self.pos() as int), radix),
                read_at_least_one_digit ==> has_digit(self.src().subrange(ds, self.pos() as int)),
                !read_at_least_one_digit ==> forall|k: int| ds <= k < self.pos() ==> #[trigger] self.src()[k]
                    == '_',
                self.pos() < self.src().len() ==> !(is_digit_in(self.src()[self.pos() as int], radix)
                    || self.src()[self.pos() as int] == '_'),
                forall|e: int|
                    #![trigger radix_run(self.src(), ds, e, radix)]
                    radix_run(self.src(), ds, e, radix) ==> self.pos() == e,
                forall|e: int|
                    #![trigger radix_overflow_at(self.src(), ds, e, radix)]
                    radix_overflow_at(self.src(), ds, e, radix) ==> self.pos() < e,
            decreases self.src().len() - self.pos(),
        {
            let ghost src = self.src();
            let ghost p = self.pos() as int;
            match self.peek() {
                Some(ch) => {
                    let ghost run = src.subrange(ds, p);
                    proof {
                        assert(src.subrange(ds, p + 1) =~= run.push(ch));
                        lemma_digits_value_push(run, ch, radix);
                        assert(run.push(ch)[p - ds] == ch);
                        if read_at_least_one_digit {
                            let w = choose|i: int| 0 <= i < run.len() && run[i] != '_';
                            assert(run.push(ch)[w] == run[w]);
                        }
                        assert forall|k: int| 0 <= k < run.len() implies run.push(ch)[k]
                            == #[trigger] run[k] by {}
                    }
                    if let Some(radix_value) = to_digit(ch, max) {
                        read_at_least_one_digit = true;
                        self.advance();
                        assert((value as u128) * (max as u128) <= 0xFFFF_FFFF_FFFF_FFFFu128 * 16)
                            by (nonlinear_arith)
                            requires
                                value <= 0xFFFF_FFFF_FFFF_FFFFu128,
                                max <= 16,
                        ;
                        let next = (value as u128) * (max as u128) + (radix_value as u128);
                        if next > usize::MAX as u128 {
                            proof {
                                assert forall|e: int| radix_run(src, ds, e, radix) implies false by {
                                    let full = src.subrange(ds, e);
                                    lemma_digits_value_prefix(full, p + 1 - ds, radix);
                                    assert(full.take(p + 1 - ds) =~= src.subrange(ds, p + 1));
                                }
                            }
                            // Overflowed
                            let r = self.tokenize_radix_large_number(
                                bits,
                                signed,
                                negative,
                                next,
                                Ghost(ds),
                            );
                            proof {
                                lemma_radix_text(
                                    self.src(),
                                    m,
                                    ds,
                                    self.pos() as int,
                                    signed,
                                    negative,
                                    radix,
                                );
                            }
                            return r;
                        }
                        value = next as usize;
                    } else if ch == '_' {
                        self.advance();
                    } else {
                        break ;
                    }
                },
                None => {
                    break ;
                },
            }
        }
        proof {
            lemma_radix_text(self.src(), m, ds, self.pos() as int, signed, negative, radix);
            assert forall|e: int| radix_run(self.src(), ds, e, radix) implies read_at_least_one_digit by {
                let run = self.src().subrange(ds, e);
                let w = choose|i: int| 0 <= i < run.len() && run[i] != '_';
                assert(run[w] == self.src()[ds + w]);
            }
        }
        if read_at_least_one_digit {
            proof {
                self.lemma_offsets(self.mark() as int, self.pos() as int);
            }
            Ok(
                Token::new(
                    self.chars.marked_range(),
                    TokenKind::Integer(radix_integer_of(value, signed, negative)),
                ),
            )
        } else {
            Err(self.error(ErrorKind::ExpectedDigit))
        }
    }
}

impl<const INCLUDE_ALL: bool> Tokenizer<INCLUDE_ALL> {
    /// Returns whether the characters `start..end` of the source are `lit`.
    fn range_is(&self, start: usize, end: usize, lit: &[char]) -> (b: bool)
        requires
            self.inv(),
            start <= end <= self.src().len(),
        ensures
            b == (self.src().subrange(start as int, end as int) == lit@),
    {
        if end - start != lit.len() {
            proof {
                assert(self.src().subrange(start as int, end as int).len() != lit@.len());
            }
            return false;
        }
        let mut i: usize = 0;
        while i < lit.len()
            invariant
                self.inv(),
                start <= end <= self.src().len(),
                end - start == lit@.len(),
                i <= lit@.len(),
                forall|k: int| 0 <= k < i ==> self.src()[start + k] == lit@[k],
            decreases lit@.len() - i,
        {
            if self.chars.char_at(start + i) != lit[i] {
                proof {
                    assert(self.src().subrange(start as int, end as int)[i as int] != lit@[i as int]);
                }
                return false;
            }
            i = i + 1;
        }
        proof {
            assert(self.src().subrange(start as int, end as int) =~= lit@);
        }
        true
    }

    /// Reads an identifier. With `Some(ch)`, the identifier starts at the
    /// marked character, the characters read after it may continue an
    /// identifier, and `ch` is the character whose validity as a start
    /// decides; with `None`, it is a raw identifier whose `r#` has been read.
    fn tokenize_identifier(&mut self, initial_char: Option<char>) -> (r: Result<Token, Error>)
        requires
            old(self).inv(),
            initial_char is Some ==> old(self).mark() < old(self).pos(),
            initial_char is Some ==> forall|k: int|
                old(self).mark() < k < old(self).pos() ==> ident_continue(#[trigger] old(self).src()[k]),
        ensures
            final(self).continues(old(self)),
            r matches Ok(tok) ==> {
                let ts = if initial_char is Some {
                    old(self).mark() as int
                } else {
                    old(self).pos() as int
                };
                let text = final(self).src().subrange(ts, final(self).pos() as int);
                let src = final(self).src();
                let p = final(self).pos() as int;
                &&& ts < p
                &&& final(self).covers(tok.location, final(self).mark() as int, p)
                &&& ident_run(src, ts + 1, p)
                &&& match initial_char {
                    Some(ch) => ch == '_' || ident_start(ch),
                    None => ident_start(src[ts]),
                }
                &&& if initial_char is Some {
                    identifier_reads(text, tok.kind)
                } else {
                    tok.kind matches TokenKind::Identifier(name) && name@ == text
                }
            },
            initial_char matches Some(ch) && (ch == '_' || ident_start(ch)) ==> r is Ok,
            initial_char is None && old(self).pos() < old(self).src().len() && ident_start(
                old(self).src()[old(self).pos() as int],
            ) ==> r is Ok,
            initial_char matches Some(ch) && !(ch == '_' || ident_start(ch)) ==> (r matches Err(e)
                && final(self).covers(e.location, old(self).pos() - 1, old(self).pos() as int)),
            r matches Err(e) ==> final(self).within(e.location) && match initial_char {
                Some(ch) => e.kind == ErrorKind::Unexpected(ch),
                None => e.kind == ErrorKind::UnexpectedEof || e.kind == ErrorKind::Unexpected(
                    old(self).src()[old(self).pos() as int],
                ),
            },
    {
        let (require_start, initial_char, is_raw) = match initial_char {
            Some(ch) => (ch != '_', ch, false),
            None => {
                let initial = match self.next_or_eof() {
                    Ok(ch) => ch,
                    Err(e) => {
                        return Err(e);
                    },
                };
                (true, initial, true)
            },
        };
        let initial_char_index = if is_raw {
            self.chars.position() - 1
        } else {
            self.chars.marked_position()
        };
        let ghost ts = initial_char_index as int;
        let start_is_valid = if require_start {
            is_xid_start(initial_char)
        } else {
            is_xid_continue(initial_char)
        };
        if start_is_valid {
            loop
                invariant
                    self.continues(old(self)),
                    ts < self.pos(),
                    forall|k: int| ts < k < self.pos() ==> ident_continue(#[trigger] self.src()[k]),
                ensures
                    self.continues(old(self)),
                    ts < self.pos(),
                    ident_run(self.src(), ts + 1, self.pos() as int),
                decreases self.src().len() - self.pos(),
            {
                match self.peek() {
                    Some(ch) => {
                        if is_xid_continue(ch) {
                            self.advance();
                        } else {
                            break ;
                        }
                    },
                    None => {
                        break ;
                    },
                }
            }
            let end = self.chars.position();
            let kind = if !is_raw && self.range_is(initial_char_index, end, &['t', 'r', 'u', 'e']) {
                TokenKind::Bool(true)
            } else if !is_raw && self.range_is(
                initial_char_index,
                end,
                &['f', 'a', 'l', 's', 'e'],
            ) {
                TokenKind::Bool(false)
            } else if !is_raw && (self.range_is(initial_char_index, end, &['i', 'n', 'f'])
                || self.range_is(initial_char_index, end, &['+', 'i', 'n', 'f'])
                || self.range_is(initial_char_index, end, &['-', 'i', 'n', 'f'])
                || self.range_is(initial_char_index, end, &['N', 'a', 'N'])
                || self.range_is(initial_char_index, end, &['+', 'N', 'a', 'N'])
                || self.range_is(initial_char_index, end, &['-', 'N', 'a', 'N'])) {
                TokenKind::Float(self.chars.substring(initial_char_index, end))
            } else {
                TokenKind::Identifier(self.chars.substring(initial_char_index, end))
            };
            proof {
                self.lemma_offsets(self.mark() as int, self.pos() as int);
                let text = self.src().subrange(ts, self.pos() as int);
                assert(seq!['t', 'r', 'u', 'e'] != seq!['f', 'a', 'l', 's', 'e']);
                if text == seq!['t', 'r', 'u', 'e'] || text == seq!['f', 'a', 'l', 's', 'e'] {
                    assert(!is_special_float(text));
                }
            }
            Ok(Token::new(self.chars.marked_range(), kind))
        } else {
            proof {
                self.lemma_offsets(self.pos() - 1, self.pos() as int);
            }
            Err(
                Error::new(
                    self.chars.last_offset()..self.chars.current_offset(),
                    ErrorKind::Unexpected(initial_char),
                ),
            )
        }
    }

    /// Fails unless the next character is a line feed, after a carriage
    /// return has been read.
    fn forbid_isolated_cr(&mut self) -> (r: Result<(), Error>)
        requires
            old(self).inv(),
        ensures
            *final(self) == *old(self),
            r is Ok <==> old(self).peek_is('\n'),
            r matches Err(e) ==> e.kind == ErrorKind::InvalidAscii && final(self).within(
                e.location,
            ),
    {
        if self.peek() == Some('\n') {
            Ok(())
        } else {
            Err(self.error_at_last_char(ErrorKind::InvalidAscii))
        }
    }

    /// The next character is `c`.
    pub open spec fn peek_is(&self, c: char) -> bool {
        self.pos() < self.src().len() && self.src()[self.pos() as int] == c
    }

    /// Skips the whitespace that follows a line continuation in a string.
    fn eat_whitespace_for_string_continue(&mut self)
        requires
            old(self).inv(),
        ensures
            final(self).continues(old(self)),
            forall|k: int|
                old(self).pos() <= k < final(self).pos() ==> is_continue_whitespace(
                    #[trigger] final(self).src()[k],
                ),
            final(self).pos() < final(self).src().len() ==> !is_continue_whitespace(
                final(self).src()[final(self).pos() as int],
            ),
    {
        loop
            invariant
                self.continues(old(self)),
                forall|k: int|
                    old(self).pos() <= k < self.pos() ==> is_continue_whitespace(
                        #[trigger] self.src()[k],
                    ),
            ensures
                self.continues(old(self)),
                forall|k: int|
                    old(self).pos() <= k < self.pos() ==> is_continue_whitespace(
                        #[trigger] self.src()[k],
                    ),
                self.pos() < self.src().len() ==> !is_continue_whitespace(
                    self.src()[self.pos() as int],
                ),
            decreases self.src().len() - self.pos(),
        {
            match self.peek() {
                Some(ch) => {
                    if ch == ' ' || ch == '\n' || ch == '\r' || ch == '\t' {
                        self.advance();
                    } else {
                        break ;
                    }
                },
                None => {
                    break ;
                },
            }
        }
    }

    /// Reads a comment whose `/` has been read.
    fn tokenize_comment(&mut self) -> (r: Result<Token, Error>)
        requires
            old(self).inv(),
            old(self).pos() == old(self).mark() + 1,
            old(self).src()[old(self).mark() as int] == '/',
        ensures
            final(self).continues(old(self)),
            r matches Ok(tok) ==> {
                let text = final(self).src().subrange(
                    final(self).mark() as int,
                    final(self).pos() as int,
                );
                &&& final(self).covers(
                    tok.location,
                    final(self).mark() as int,
                    final(self).pos() as int,
                )
                &&& comment_reads(text, tok.kind)
                &&& comment_end(final(self).src(), final(self).mark() as int, final(self).pos() as int)
            },
            r matches Err(e) ==> final(self).within(e.location),
            line_comment_ok_at(old(self).src(), old(self).mark() as int) ==> r is Ok,
            block_comment_ok_at(old(self).src(), old(self).mark() as int) ==> r is Ok,
    {
        match self.next_or_eof() {
            Ok('*') => self.tokenize_block_comment(),
            Ok('/') => self.tokenize_single_line_comment(),
            Ok(other) => Err(self.error_at_last_char(ErrorKind::Unexpected(other))),
            Err(e) => Err(e),
        }
    }

    /// Reads a block comment whose `/*` has been read; block comments nest.
    fn tokenize_block_comment(&mut self) -> (r: Result<Token, Error>)
        requires
            old(self).inv(),
            old(self).pos() == old(self).mark() + 2,
            old(self).src()[old(self).mark() as int] == '/',
            old(self).src()[old(self).mark() as int + 1] == '*',
        ensures
            final(self).continues(old(self)),
            r matches Ok(tok) ==> {
                let text = final(self).src().subrange(
                    final(self).mark() as int,
                    final(self).pos() as int,
                );
                &&& final(self).covers(
                    tok.location,
                    final(self).mark() as int,
                    final(self).pos() as int,
                )
                &&& comment_reads(text, tok.kind)
                &&& text.len() >= 4
                &&& text[text.len() - 2] == '*'
                &&& text[text.len() - 1] == '/'
            },
            r matches Err(e) ==> final(self).within(e.location),
            block_close(old(self).src(), old(self).pos() as int, 1) is Some ==> r is Ok,
            r is Ok ==> block_close(old(self).src(), old(self).pos() as int, 1) == Some(
                final(self).pos() as int,
            ),
    {
        let mut nests: usize = 1;
        let ghost m = self.mark() as int;
        loop
            invariant_except_break
                1 <= nests,
                2 * nests <= self.pos() - m,
                block_close(old(self).src(), old(self).pos() as int, 1) == block_close(
                    self.src(),
                    self.pos() as int,
                    nests as nat,
                ),
            invariant
                self.continues(old(self)),
                m == self.mark(),
                m + 2 <= self.pos(),
                self.src()[m] == '/',
                self.src()[m + 1] == '*',
            ensures
                self.continues(old(self)),
                m == self.mark(),
                m + 4 <= self.pos(),
                self.src()[m] == '/',
                self.src()[m + 1] == '*',
                self.src()[self.pos() - 2] == '*',
                self.src()[self.pos() - 1] == '/',
                block_close(old(self).src(), old(self).pos() as int, 1) == Some(self.pos() as int),
            decreases self.src().len() - self.pos(),
        {
            let ch = match self.next_or_eof() {
                Ok(ch) => ch,
                Err(e) => {
                    return Err(e);
                },
            };
            if ch == '*' {
                if self.peek() == Some('/') {
                    self.advance();
                    nests = nests - 1;

                    if nests == 0 {
                        break ;
                    }
                }
            } else if ch == '/' {
                if self.peek() == Some('*') {
                    self.advance();
                    nests = nests + 1;
                }
            } else if ch == '\r' {
                if let Err(e) = self.forbid_isolated_cr() {
                    return Err(e);
                }
            }
        }
        proof {
            self.lemma_offsets(self.mark() as int, self.pos() as int);
        }
        let text = self.chars.marked_str();
        Ok(Token::new(self.chars.marked_range(), TokenKind::Comment(text)))
    }

    /// Reads a single line comment whose `//` has been read.
    fn tokenize_single_line_comment(&mut self) -> (r: Result<Token, Error>)
        requires
            old(self).inv(),
            old(self).pos() == old(self).mark() + 2,
            old(self).src()[old(self).mark() as int] == '/',
            old(self).src()[old(self).mark() as int + 1] == '/',
        ensures
            final(self).continues(old(self)),
            r matches Ok(tok) ==> {
                let text = final(self).src().subrange(
                    final(self).mark() as int,
                    final(self).pos() as int,
                );
                let src = final(self).src();
                let p = final(self).pos() as int;
                &&& final(self).covers(tok.location, final(self).mark() as int, p)
                &&& comment_reads(text, tok.kind)
                &&& forall|k: int| final(self).mark() <= k < p ==> #[trigger] src[k] != '\n'
                    && src[k] != '\r'
                &&& p < src.len() ==> src[p] == '\n'
                &&& line_end(src, final(self).mark() + 2int, p)
            },
            r matches Err(e) ==> final(self).within(e.location),
            (exists|e: int| #[trigger] line_end(old(self).src(), old(self).pos() as int, e)) ==> r is Ok,
    {
        let ghost ok = exists|e: int| #[trigger] line_end(old(self).src(), old(self).pos() as int, e);
        let ghost e = choose|e: int| #[trigger] line_end(old(self).src(), old(self).pos() as int, e);
        loop
            invariant
                ok ==> line_end(old(self).src(), old(self).pos() as int, e),
                ok ==> self.pos() <= e,
                self.continues(old(self)),
                old(self).pos() <= self.pos(),
                forall|k: int|
                    old(self).pos() <= k < self.pos() ==> #[trigger] self.src()[k] != '\n'
                        && self.src()[k] != '\r',
            ensures
                self.continues(old(self)),
                old(self).pos() <= self.pos(),
                forall|k: int|
                    old(self).pos() <= k < self.pos() ==> #[trigger] self.src()[k] != '\n'
                        && self.src()[k] != '\r',
                self.pos() < self.src().len() ==> self.src()[self.pos() as int] == '\n',
            decreases self.src().len() - self.pos(),
        {
            match self.peek() {
                Some('\r') => {
                    if let Err(e) = self.forbid_isolated_cr() {
                        return Err(e);
                    }
                    break ;
                },
                Some('\n') => {
                    break ;
                },
                None => {
                    break ;
                },
                _ => {
                    self.advance();
                },
            }
        }
        proof {
            self.lemma_offsets(self.mark() as int, self.pos() as int);
        }
        let text = self.chars.marked_str();
        Ok(Token::new(self.chars.marked_range(), TokenKind::Comment(text)))
    }
}

/// The value of two hexadecimal digits.
proof fn lemma_hex_pair(a: u8, b: u8)
    requires
        a < 16,
        b < 16,
    ensures
        (a << 4u8) | b == a * 16 + b,
{
    assert((a << 4u8) | b == a * 16 + b) by (bit_vector)
        requires
            a < 16,
            b < 16,
    ;
}

/// Shifting in one more hexadecimal digit keeps the lowest 32 bits of the value.
proof fn lemma_shift_in_hex(v: u32, d: u32, total: int)
    requires
        d < 16,
        total >= 0,
        v == total % 0x1_0000_0000,
    ensures
        (v << 4u32) | d == (total * 16 + d) % 0x1_0000_0000,
{
    assert((v << 4u32) | d == ((v as int) * 16 + d) % 0x1_0000_0000) by (bit_vector)
        requires
            d < 16,
    ;
    vstd::arithmetic::div_mod::lemma_mul_mod_noop_left(total, 16, 0x1_0000_0000);
    vstd::arithmetic::div_mod::lemma_add_mod_noop(total * 16, d as int, 0x1_0000_0000);
    vstd::arithmetic::div_mod::lemma_add_mod_noop((v as int) * 16, d as int, 0x1_0000_0000);
    vstd::arithmetic::div_mod::lemma_small_mod(d as nat, 0x1_0000_0000);
}

impl<const INCLUDE_ALL: bool> Tokenizer<INCLUDE_ALL> {
    /// Reads the two hexadecimal digits of a `\x` escape.
    fn tokenize_ascii_escape(&mut self) -> (r: Result<u8, Error>)
        requires
            old(self).inv(),
        ensures
            final(self).continues(old(self)),
            r is Ok <==> hex_pair_at(old(self).src(), old(self).pos() as int) is Some,
            r matches Ok(b) ==> hex_pair_at(old(self).src(), old(self).pos() as int) == Some(
                b as int,
            ) && final(self).pos() == old(self).pos() + 2,
            r matches Err(e) ==> final(self).within(e.location),
    {
        let first = match self.next_or_eof() {
            Ok(ch) => ch,
            Err(e) => {
                return Err(e);
            },
        };
        let first_digit = match to_digit(first, 16) {
            Some(d) => d as u8,
            None => {
                return Err(self.error_at_last_char(ErrorKind::InvalidAscii));
            },
        };
        let second = match self.next_or_eof() {
            Ok(ch) => ch,
            Err(e) => {
                return Err(e);
            },
        };
        let second_digit = match to_digit(second, 16) {
            Some(d) => d as u8,
            None => {
                return Err(self.error_at_last_char(ErrorKind::InvalidAscii));
            },
        };
        proof {
            lemma_hex_pair(first_digit, second_digit);
        }
        Ok((first_digit << 4u8) | second_digit)
    }

    /// Reads a `\u{...}` escape whose `u` has been read.
    fn tokenize_unicode_escape(&mut self) -> (r: Result<char, Error>)
        requires
            old(self).inv(),
        ensures
            final(self).continues(old(self)),
            r is Ok <==> unicode_escape_at(old(self).src(), old(self).pos() as int) is Some,
            r matches Ok(c) ==> unicode_escape_at(old(self).src(), old(self).pos() as int) == Some(
                (final(self).pos() as int, Some(c)),
            ),
            r matches Err(e) ==> final(self).within(e.location),
    {
        let ghost k = self.pos() as int;
        let ghost src = self.src();
        let start = self.chars.last_offset();
        // Open brace
        match self.next_or_eof() {
            Ok('{') => {},
            Ok(other) => {
                return Err(self.error_at_last_char(ErrorKind::Unexpected(other)));
            },
            Err(e) => {
                return Err(e);
            },
        }
        proof {
            assert(src.subrange(k + 1, k + 1) =~= Seq::<char>::empty());
        }
        let mut possible_char: u32 = 0;
        loop
            invariant_except_break
                forall|t: int|
                    k + 1 <= t < self.pos() ==> (is_digit_in(#[trigger] src[t], 16) || src[t]
                        == '_'),
                possible_char == digits_value(src.subrange(k + 1, self.pos() as int), 16)
                    % 0x1_0000_0000,
                is_digit_run(src.subrange(k + 1, self.pos() as int), 16),
            invariant
                self.continues(old(self)),
                src == self.src(),
                k == old(self).pos(),
                k < src.len(),
                src[k] == '{',
                k + 1 <= self.pos(),
                start == (if k > 0 {
                    self.offset_of(k - 1)
                } else {
                    0
                }),
            ensures
                self.continues(old(self)),
                src == self.src(),
                k + 1 < self.pos(),
                src[self.pos() - 1] == '}',
                start == (if k > 0 {
                    self.offset_of(k - 1)
                } else {
                    0
                }),
                forall|t: int|
                    k + 1 <= t < self.pos() - 1 ==> (is_digit_in(#[trigger] src[t], 16) || src[t]
                        == '_'),
                possible_char == digits_value(src.subrange(k + 1, self.pos() - 1), 16)
                    % 0x1_0000_0000,
            decreases src.len() - self.pos(),
        {
            let ghost p = self.pos() as int;
            proof {
                lemma_hex_run_end(src, k + 1, p);
                self.lemma_offsets(p, src.len() as int);
            }
            let ch = match self.next_or_eof() {
                Ok(ch) => ch,
                Err(e) => {
                    return Err(e);
                },
            };
            if ch == '}' {
                break ;
            }
            let ghost run = src.subrange(k + 1, p);
            proof {
                assert(src.subrange(k + 1, p + 1) =~= run.push(ch));
                lemma_digits_value_push(run, ch, 16);
                lemma_digits_value_nonneg(run, 16);
                assert forall|i: int|
                    0 <= i < run.len() implies run.push(ch)[i] == #[trigger] run[i] by {}
            }
            if ch == '_' {
                continue ;
            }
            let radix_value = match to_digit(ch, 16) {
                Some(d) => d,
                None => {
                    proof {
                        assert(hex_run_end(src, p) == p);
                    }
                    return Err(self.error_at_last_char(ErrorKind::InvalidUnicode));
                },
            };
            proof {
                lemma_shift_in_hex(possible_char, radix_value, digits_value(run, 16));
            }
            possible_char = (possible_char << 4u32) | radix_value;
        }
        proof {
            let p = self.pos() - 1;
            lemma_hex_run_end(src, k + 1, p);
            assert(hex_run_end(src, p) == p);
        }
        match char_from_u32(possible_char) {
            Some(c) => Ok(c),
            None => {
                proof {
                    self.lemma_offsets(self.pos() - 1, self.pos() as int);
                    if k > 0 {
                        self.lemma_offsets(k - 1, self.pos() - 1);
                    }
                }
                Err(Error::new(start..self.chars.last_offset(), ErrorKind::InvalidUnicode))
            },
        }
    }

    /// Reads an escape sequence whose backslash has been read. A line
    /// continuation (where allowed) stands for no character.
    fn tokenize_escaped_char(&mut self, allow_continue: bool, allow_unicode: bool) -> (r: Result<
        Option<char>,
        Error,
    >)
        requires
            old(self).inv(),
        ensures
            final(self).continues(old(self)),
            r is Ok <==> escape_at(
                old(self).src(),
                old(self).pos() as int,
                allow_continue,
                allow_unicode,
            ) is Some,
            r matches Ok(c) ==> escape_at(
                old(self).src(),
                old(self).pos() as int,
                allow_continue,
                allow_unicode,
            ) == Some((final(self).pos() as int, c)),
            r matches Err(e) ==> final(self).within(e.location),
    {
        let ghost k = self.pos() as int;
        let ghost src = self.src();
        let ch = match self.next_or_eof() {
            Ok(ch) => ch,
            Err(e) => {
                return Err(e);
            },
        };
        if let Some(simple) = simple_escape_of(ch) {
            return Ok(Some(simple));
        }
        if ch == 'u' && allow_unicode {
            return match self.tokenize_unicode_escape() {
                Ok(c) => Ok(Some(c)),
                Err(e) => Err(e),
            };
        }
        if ch == 'x' {
            let escape_start = self.chars.last_offset();
            let byte = match self.tokenize_ascii_escape() {
                Ok(b) => b,
                Err(e) => {
                    return Err(e);
                },
            };
            if byte < 0x80 {
                return Ok(Some(byte as char));
            } else {
                proof {
                    self.lemma_offsets(k, self.pos() - 1);
                }
                return Err(Error::new(escape_start..self.chars.last_offset(), ErrorKind::InvalidAscii));
            }
        }
        if ch == '\r' && allow_continue {
            if let Err(e) = self.forbid_isolated_cr() {
                return Err(e);
            }
            let ghost p = self.pos() as int;
            self.eat_whitespace_for_string_continue();
            proof {
                lemma_continue_end(src, p, self.pos() as int);
            }
            return Ok(None);
        }
        if ch == '\n' && allow_continue {
            let ghost p = self.pos() as int;
            self.eat_whitespace_for_string_continue();
            proof {
                lemma_continue_end(src, p, self.pos() as int);
            }
            return Ok(None);
        }
        Err(self.error_at_last_char(ErrorKind::Unexpected(ch)))
    }
}

/// `res` read after the characters `pre`.
pub open spec fn after_chars(res: Option<(int, Seq<char>)>, pre: Seq<char>) -> Option<
    (int, Seq<char>),
> {
    match res {
        Some((e, rest)) => Some((e, pre + rest)),
        None => None,
    }
}

/// `res` read after the bytes `pre`.
pub open spec fn after_bytes(res: Option<(int, Seq<u8>)>, pre: Seq<u8>) -> Option<(int, Seq<u8>)> {
    match res {
        Some((e, rest)) => Some((e, pre + rest)),
        None => None,
    }
}

/// Builds a `Vec<u8>` holding `v`.
fn bytes_vec(v: Vec<u8>) -> (r: Vec<u8>)
    ensures
        r@ == v@,
{
    v
}

impl<const INCLUDE_ALL: bool> Tokenizer<INCLUDE_ALL> {
    /// Reads a string literal whose opening `"` has been read.
    fn tokenize_string(&mut self) -> (r: Result<Token, Error>)
        requires
            old(self).inv(),
            old(self).pos() == old(self).mark() + 1,
        ensures
            final(self).continues(old(self)),
            r is Ok <==> string_from(old(self).src(), old(self).pos() as int) is Some,
            r matches Ok(tok) ==> {
                &&& final(self).covers(
                    tok.location,
                    final(self).mark() as int,
                    final(self).pos() as int,
                )
                &&& tok.kind matches TokenKind::String(s) && string_from(
                    old(self).src(),
                    old(self).pos() as int,
                ) == Some((final(self).pos() - 1, s@))
            },
            r matches Err(e) ==> final(self).within(e.location),
    {
        let ghost src = self.src();
        let ghost start = self.pos() as int;
        let mut scratch: Vec<char> = Vec::new();
        proof {
            assert(after_chars(string_from(src, start), scratch@) =~= string_from(src, start)) by {
                if let Some((e, rest)) = string_from(src, start) {
                    assert(scratch@ + rest =~= rest);
                }
            }
        }
        loop
            invariant
                self.continues(old(self)),
                src == self.src(),
                start == old(self).pos(),
                start <= self.pos(),
                string_from(src, start) == after_chars(string_from(src, self.pos() as int), scratch@),
            decreases src.len() - self.pos(),
        {
            let ghost p = self.pos() as int;
            let ch = match self.next_or_eof() {
                Ok(ch) => ch,
                Err(e) => {
                    return Err(e);
                },
            };
            if ch == '"' {
                proof {
                    self.lemma_offsets(self.mark() as int, self.pos() as int);
                    assert(scratch@ + Seq::<char>::empty() =~= scratch@);
                }
                let text = crate::text::string_from_chars(scratch.as_slice());
                return Ok(Token::new(self.chars.marked_range(), TokenKind::String(text)));
            } else if ch == '\\' {
                let ghost before = scratch@;
                match self.tokenize_escaped_char(true, true) {
                    Ok(Some(c)) => {
                        scratch.push(c);
                    },
                    Ok(None) => {},
                    Err(e) => {
                        return Err(e);
                    },
                }
                proof {
                    let (j, c) = escape_at(src, p + 1, true, true)->0;
                    if let Some((e, rest)) = string_from(src, j) {
                        assert(before + (opt_seq(c) + rest) =~= scratch@ + rest);
                    }
                }
            } else {
                if ch == '\r' {
                    if let Err(e) = self.forbid_isolated_cr() {
                        return Err(e);
                    }
                }
                let ghost before = scratch@;
                scratch.push(ch);
                proof {
                    if let Some((e, rest)) = string_from(src, p + 1) {
                        assert(before + (seq![ch] + rest) =~= scratch@ + rest);
                    }
                }
            }
        }
    }

    /// Reads an escape sequence of a byte string whose backslash has been
    /// read. A line continuation stands for no byte.
    fn tokenize_byte_escape(&mut self) -> (r: Result<Option<u8>, Error>)
        requires
            old(self).inv(),
        ensures
            final(self).continues(old(self)),
            r is Ok <==> byte_escape_at(old(self).src(), old(self).pos() as int) is Some,
            r matches Ok(b) ==> byte_escape_at(old(self).src(), old(self).pos() as int) == Some(
                (final(self).pos() as int, b),
            ),
            r matches Err(e) ==> final(self).within(e.location),
    {
        let ghost src = self.src();
        let ch = match self.next_or_eof() {
            Ok(ch) => ch,
            Err(e) => {
                return Err(e);
            },
        };
        if let Some(simple) = simple_escape_of(ch) {
            return Ok(Some(simple as u8));
        }
        if ch == 'x' {
            return match self.tokenize_ascii_escape() {
                Ok(b) => Ok(Some(b)),
                Err(e) => Err(e),
            };
        }
        if ch == '\r' {
            if let Err(e) = self.forbid_isolated_cr() {
                return Err(e);
            }
            let ghost p = self.pos() as int;
            self.eat_whitespace_for_string_continue();
            proof {
                lemma_continue_end(src, p, self.pos() as int);
            }
            return Ok(None);
        }
        if ch == '\n' {
            let ghost p = self.pos() as int;
            self.eat_whitespace_for_string_continue();
            proof {
                lemma_continue_end(src, p, self.pos() as int);
            }
            return Ok(None);
        }
        Err(self.error_at_last_char(ErrorKind::Unexpected(ch)))
    }

    /// Reads a byte string literal whose opening `b"` has been read.
    fn tokenize_byte_string(&mut self) -> (r: Result<Token, Error>)
        requires
            old(self).inv(),
            old(self).pos() == old(self).mark() + 2,
        ensures
            final(self).continues(old(self)),
            r is Ok <==> bytes_from(old(self).src(), old(self).pos() as int) is Some,
            r matches Ok(tok) ==> {
                &&& final(self).covers(
                    tok.location,
                    final(self).mark() as int,
                    final(self).pos() as int,
                )
                &&& tok.kind matches TokenKind::Bytes(b) && bytes_from(
                    old(self).src(),
                    old(self).pos() as int,
                ) == Some((final(self).pos() - 1, b@))
            },
            r matches Err(e) ==> final(self).within(e.location),
    {
        let ghost src = self.src();
        let ghost start = self.pos() as int;
        let mut scratch: Vec<u8> = Vec::new();
        proof {
            assert(after_bytes(bytes_from(src, start), scratch@) =~= bytes_from(src, start)) by {
                if let Some((e, rest)) = bytes_from(src, start) {
                    assert(scratch@ + rest =~= rest);
                }
            }
        }
        loop
            invariant
                self.continues(old(self)),
                src == self.src(),
                start == old(self).pos(),
                start <= self.pos(),
                bytes_from(src, start) == after_bytes(bytes_from(src, self.pos() as int), scratch@),
            decreases src.len() - self.pos(),
        {
            let ghost p = self.pos() as int;
            let ch = match self.next_or_eof() {
                Ok(ch) => ch,
                Err(e) => {
                    return Err(e);
                },
            };
            if ch == '"' {
                proof {
                    self.lemma_offsets(self.mark() as int, self.pos() as int);
                    assert(scratch@ + Seq::<u8>::empty() =~= scratch@);
                }
                return Ok(Token::new(self.chars.marked_range(), TokenKind::Bytes(bytes_vec(scratch))));
            } else if ch == '\\' {
                let ghost before = scratch@;
                match self.tokenize_byte_escape() {
                    Ok(Some(b)) => {
                        scratch.push(b);
                    },
                    Ok(None) => {},
                    Err(e) => {
                        return Err(e);
                    },
                }
                proof {
                    let (j, b) = byte_escape_at(src, p + 1)->0;
                    if let Some((e, rest)) = bytes_from(src, j) {
                        assert(before + (opt_bytes(b) + rest) =~= scratch@ + rest);
                    }
                }
            } else if (ch as u32) < 0x80 {
                let ghost before = scratch@;
                scratch.push(ch as u8);
                proof {
                    if let Some((e, rest)) = bytes_from(src, p + 1) {
                        assert(before + (seq![ch as u8] + rest) =~= scratch@ + rest);
                    }
                }
            } else {
                return Err(self.error_at_last_char(ErrorKind::InvalidAscii));
            }
        }
    }

    /// Reads a character literal whose opening `'` has been read.
    fn tokenize_char(&mut self) -> (r: Result<Token, Error>)
        requires
            old(self).inv(),
            old(self).pos() == old(self).mark() + 1,
        ensures
            final(self).continues(old(self)),
            r is Ok <==> char_from(old(self).src(), old(self).pos() as int) is Some,
            r matches Ok(tok) ==> {
                &&& final(self).covers(
                    tok.location,
                    final(self).mark() as int,
                    final(self).pos() as int,
                )
                &&& tok.kind matches TokenKind::Character(c) && char_from(
                    old(self).src(),
                    old(self).pos() as int,
                ) == Some((final(self).pos() - 1, c))
            },
            r matches Err(e) ==> final(self).within(e.location),
    {
        let ghost src = self.src();
        let ch = match self.next_or_eof() {
            Ok(ch) => ch,
            Err(e) => {
                return Err(e);
            },
        };
        let ch = if ch == '\\' {
            match self.tokenize_escaped_char(false, true) {
                Ok(Some(c)) => c,
                Ok(None) => {
                    proof {
                        assert(false);
                    }
                    return Err(self.error(ErrorKind::UnexpectedEof));
                },
                Err(e) => {
                    return Err(e);
                },
            }
        } else if ch == '\n' || ch == '\r' || ch == '\t' {
            return Err(self.error_at_last_char(ErrorKind::Unexpected(ch)));
        } else {
            ch
        };
        // Handle the trailing quote
        match self.next_or_eof() {
            Ok('\'') => {
                proof {
                    self.lemma_offsets(self.mark() as int, self.pos() as int);
                }
                Ok(Token::new(self.chars.marked_range(), TokenKind::Character(ch)))
            },
            Ok(other) => Err(self.error_at_last_char(ErrorKind::Unexpected(other))),
            Err(e) => Err(e),
        }
    }

    /// Reads a byte literal whose opening `b'` has been read.
    fn tokenize_byte(&mut self) -> (r: Result<Token, Error>)
        requires
            old(self).inv(),
            old(self).pos() == old(self).mark() + 2,
        ensures
            final(self).continues(old(self)),
            r is Ok <==> byte_from(old(self).src(), old(self).pos() as int) is Some,
            r matches Ok(tok) ==> {
                &&& final(self).covers(
                    tok.location,
                    final(self).mark() as int,
                    final(self).pos() as int,
                )
                &&& tok.kind matches TokenKind::Byte(b) && byte_from(
                    old(self).src(),
                    old(self).pos() as int,
                ) == Some((final(self).pos() - 1, b))
            },
            r matches Err(e) ==> final(self).within(e.location),
    {
        let ghost src = self.src();
        let ch = match self.next_or_eof() {
            Ok(ch) => ch,
            Err(e) => {
                return Err(e);
            },
        };
        let ch = if ch == '\\' {
            match self.tokenize_escaped_char(false, false) {
                Ok(Some(c)) => c,
                Ok(None) => {
                    proof {
                        assert(false);
                    }
                    return Err(self.error(ErrorKind::UnexpectedEof));
                },
                Err(e) => {
                    return Err(e);
                },
            }
        } else if (ch as u32) < 0x80 && !(ch == '\n' || ch == '\r' || ch == '\t') {
            ch
        } else {
            return Err(self.error_at_last_char(ErrorKind::Unexpected(ch)));
        };
        let byte = ch as u8;
        // Handle the trailing quote
        match self.next_or_eof() {
            Ok('\'') => {
                proof {
                    self.lemma_offsets(self.mark() as int, self.pos() as int);
                }
                Ok(Token::new(self.chars.marked_range(), TokenKind::Byte(byte)))
            },
            Ok(other) => Err(self.error_at_last_char(ErrorKind::Unexpected(other))),
            Err(e) => Err(e),
        }
    }
}

impl<const INCLUDE_ALL: bool> Tokenizer<INCLUDE_ALL> {
    /// The characters `start..end` of the source, all ASCII, as bytes.
    fn ascii_bytes(&self, start: usize, end: usize) -> (v: Vec<u8>)
        requires
            self.inv(),
            start <= end <= self.src().len(),
            forall|t: int| start <= t < end ==> is_ascii(#[trigger] self.src()[t]),
        ensures
            v@ == ascii_seq(self.src().subrange(start as int, end as int)),
    {
        let mut v: Vec<u8> = Vec::new();
        let mut i = start;
        while i < end
            invariant
                self.inv(),
                start <= i <= end <= self.src().len(),
                v@ == ascii_seq(self.src().subrange(start as int, i as int)),
            decreases end - i,
        {
            let ch = self.chars.char_at(i);
            v.push(ch as u8);
            proof {
                assert(ascii_seq(self.src().subrange(start as int, i + 1)) =~= ascii_seq(
                    self.src().subrange(start as int, i as int),
                ).push(ch as u8));
            }
            i = i + 1;
        }
        v
    }

    /// Reads the contents of a raw string whose opening quote (preceded by
    /// `pound_count` characters `#`) has been read, up to the closing quote
    /// and as many `#`.
    fn read_raw_contents(&mut self, pound_count: usize, ascii_only: bool) -> (r: Result<
        (usize, usize),
        Error,
    >)
        requires
            old(self).inv(),
            old(self).mark() < old(self).pos(),
        ensures
            final(self).continues(old(self)),
            r is Ok <==> raw_close(
                old(self).src(),
                old(self).pos() as int,
                pound_count as int,
                ascii_only,
            ) is Some,
            r matches Ok((start, close)) ==> {
                &&& start == old(self).pos()
                &&& start <= close < old(self).src().len()
                &&& raw_close(
                    old(self).src(),
                    old(self).pos() as int,
                    pound_count as int,
                    ascii_only,
                ) == Some(close as int)
                &&& final(self).pos() == close + 1 + pound_count
                &&& forall|t: int|
                    start <= t < close ==> (!ascii_only || is_ascii(#[trigger] old(self).src()[t]))
            },
            r matches Err(e) ==> final(self).within(e.location),
    {
        let ghost src = self.src();
        let start = self.chars.position();
        proof {
            lemma_raw_close_range(src, start as int, pound_count as int, ascii_only);
        }
        loop
            invariant
                self.continues(old(self)),
                src == self.src(),
                start == old(self).pos() <= self.pos(),
                raw_close(src, start as int, pound_count as int, ascii_only) == raw_close(
                    src,
                    self.pos() as int,
                    pound_count as int,
                    ascii_only,
                ),
                forall|t: int|
                    start <= t < self.pos() ==> (!ascii_only || is_ascii(#[trigger] src[t])),
            decreases src.len() - self.pos(),
        {
            let ghost p = self.pos() as int;
            let ch = match self.next_or_eof() {
                Ok(ch) => ch,
                Err(e) => {
                    return Err(e);
                },
            };
            if ch == '\r' {
                if let Err(e) = self.forbid_isolated_cr() {
                    return Err(e);
                }
            } else if ch == '"' {
                if pound_count > 0 {
                    let mut pounds_needed = pound_count;
                    let mut found = false;
                    loop
                        invariant_except_break
                            0 < pounds_needed <= pound_count,
                            self.pos() == p + 1 + (pound_count - pounds_needed),
                            !found,
                        invariant
                            self.continues(old(self)),
                            src == self.src(),
                            p + 1 <= self.pos(),
                            forall|t: int| p + 1 <= t < self.pos() ==> #[trigger] src[t] == '#',
                        ensures
                            self.continues(old(self)),
                            src == self.src(),
                            p + 1 <= self.pos(),
                            forall|t: int| p + 1 <= t < self.pos() ==> #[trigger] src[t] == '#',
                            found ==> self.pos() == p + 1 + pound_count,
                            !found ==> self.pos() < p + 1 + pound_count && !self.peek_is('#'),
                        decreases pounds_needed,
                    {
                        if self.peek() == Some('#') {
                            self.advance();
                            pounds_needed = pounds_needed - 1;
                            // Only stop once the correct number of pound signs
                            // has been read.
                            if pounds_needed == 0 {
                                found = true;
                                break ;
                            }
                        } else {
                            break ;
                        }
                    }
                    if found {
                        proof {
                            assert(pounds_at(src, p + 1, pound_count as int));
                        }
                        return Ok((start, self.chars.position() - 1 - pound_count));
                    }
                    proof {
                        assert(!pounds_at(src, p + 1, pound_count as int)) by {
                            if self.pos() < src.len() {
                                assert(src[self.pos() as int] != '#');
                            }
                        }
                        lemma_raw_close_skip(
                            src,
                            p + 1,
                            self.pos() as int,
                            pound_count as int,
                            ascii_only,
                        );
                    }
                } else {
                    proof {
                        assert(pounds_at(src, p + 1, 0));
                    }
                    return Ok((start, self.chars.position() - 1));
                }
            } else if ascii_only && (ch as u32) >= 0x80 {
                return Err(self.error_at_last_char(ErrorKind::InvalidAscii));
            }
        }
    }

    /// Reads a raw string whose `r` and first `#` have been read.
    fn tokenize_raw_string(&mut self, pound_count: usize) -> (r: Result<Token, Error>)
        requires
            old(self).inv(),
            pound_count == 1,
            old(self).pos() == old(self).mark() + 2,
            old(self).src()[old(self).mark() as int + 1] == '#',
        ensures
            final(self).continues(old(self)),
            ({
                let src = old(self).src();
                let m = old(self).mark() as int;
                let h = pound_end(src, m + 1);
                let ok = h < src.len() && src[h] == '"' && raw_close(src, h + 1, h - m - 1, false)
                    is Some;
                &&& r is Ok <==> ok
                &&& r matches Ok(tok) ==> {
                    let q = raw_close(src, h + 1, h - m - 1, false)->0;
                    &&& final(self).covers(tok.location, m, final(self).pos() as int)
                    &&& final(self).pos() == q + 1 + (h - m - 1)
                    &&& tok.kind matches TokenKind::String(s) && s@ == src.subrange(h + 1, q)
                }
            }),
            r matches Err(e) ==> final(self).within(e.location),
    {
        let ghost src = self.src();
        let ghost m = self.mark() as int;
        let mut pound_count = pound_count;
        // Count the number of leading pound signs
        loop
            invariant_except_break
                self.pos() == m + 1 + pound_count,
                forall|t: int| m + 1 <= t < self.pos() ==> #[trigger] src[t] == '#',
            invariant
                self.continues(old(self)),
                src == self.src(),
                m == self.mark(),
                pound_count >= 1,
                pound_count <= self.pos(),
            ensures
                self.continues(old(self)),
                src == self.src(),
                pound_count >= 1,
                self.pos() == m + 2 + pound_count,
                forall|t: int| m + 1 <= t < self.pos() - 1 ==> #[trigger] src[t] == '#',
                src[self.pos() - 1] == '"',
            decreases src.len() - self.pos(),
        {
            match self.next_or_eof() {
                Ok('#') => {
                    pound_count = pound_count + 1;
                },
                Ok('"') => {
                    break ;
                },
                Ok(other) => {
                    proof {
                        lemma_pound_end(src, m + 1, self.pos() - 1);
                    }
                    return Err(self.error_at_last_char(ErrorKind::Unexpected(other)));
                },
                Err(e) => {
                    proof {
                        lemma_pound_end(src, m + 1, self.pos() as int);
                    }
                    return Err(e);
                },
            }
        }
        proof {
            lemma_pound_end(src, m + 1, self.pos() - 1);
        }
        let (start, close) = match self.read_raw_contents(pound_count, false) {
            Ok(r) => r,
            Err(e) => {
                return Err(e);
            },
        };
        proof {
            self.lemma_offsets(self.mark() as int, self.pos() as int);
        }
        let value = self.chars.substring(start, close);
        Ok(Token::new(self.chars.marked_range(), TokenKind::String(value)))
    }

    /// Reads a raw string without `#`, whose `r` has been read before its `"`.
    fn tokenize_unpounded_raw_string(&mut self) -> (r: Result<Token, Error>)
        requires
            old(self).inv(),
            old(self).pos() == old(self).mark() + 1,
            old(self).pos() < old(self).src().len(),
            old(self).src()[old(self).pos() as int] == '"',
        ensures
            final(self).continues(old(self)),
            ({
                let src = old(self).src();
                let m = old(self).mark() as int;
                &&& r is Ok <==> raw_close(src, m + 2, 0, false) is Some
                &&& r matches Ok(tok) ==> {
                    let q = raw_close(src, m + 2, 0, false)->0;
                    &&& final(self).covers(tok.location, m, final(self).pos() as int)
                    &&& final(self).pos() == q + 1
                    &&& tok.kind matches TokenKind::String(s) && s@ == src.subrange(m + 2, q)
                }
            }),
            r matches Err(e) ==> final(self).within(e.location),
    {
        self.advance();
        let (start, close) = match self.read_raw_contents(0, false) {
            Ok(r) => r,
            Err(e) => {
                return Err(e);
            },
        };
        proof {
            self.lemma_offsets(self.mark() as int, self.pos() as int);
        }
        let value = self.chars.substring(start, close);
        Ok(Token::new(self.chars.marked_range(), TokenKind::String(value)))
    }

    /// Reads a raw byte string whose `br` has been read, before a `#` or `"`.
    fn tokenize_raw_byte_string(&mut self) -> (r: Result<Token, Error>)
        requires
            old(self).inv(),
            old(self).pos() == old(self).mark() + 2,
            old(self).pos() < old(self).src().len(),
            old(self).src()[old(self).pos() as int] == '#' || old(self).src()[old(self).pos() as int]
                == '"',
        ensures
            final(self).continues(old(self)),
            ({
                let src = old(self).src();
                let m = old(self).mark() as int;
                let h = pound_end(src, m + 2);
                let bytes_ok = h < src.len() && src[h] == '"' && raw_close(
                    src,
                    h + 1,
                    h - m - 2,
                    true,
                ) is Some;
                &&& r is Ok <==> bytes_ok
                &&& r matches Ok(tok) ==> {
                    let q = raw_close(src, h + 1, h - m - 2, true)->0;
                    &&& final(self).covers(tok.location, m, final(self).pos() as int)
                    &&& final(self).pos() == q + 1 + (h - m - 2)
                    &&& tok.kind matches TokenKind::Bytes(b) && b@ == ascii_seq(
                        src.subrange(h + 1, q),
                    )
                }
            }),
            r matches Err(e) ==> final(self).within(e.location),
    {
        let ghost src = self.src();
        let ghost m = self.mark() as int;
        let mut pound_count: usize = 0;
        // Count the number of leading pound signs
        loop
            invariant_except_break
                self.pos() == m + 2 + pound_count,
                forall|t: int| m + 2 <= t < self.pos() ==> #[trigger] src[t] == '#',
            invariant
                self.continues(old(self)),
                src == self.src(),
                m == self.mark(),
                pound_count <= self.pos(),
            ensures
                self.continues(old(self)),
                src == self.src(),
                self.pos() == m + 3 + pound_count,
                forall|t: int| m + 2 <= t < self.pos() - 1 ==> #[trigger] src[t] == '#',
                src[self.pos() - 1] == '"',
            decreases src.len() - self.pos(),
        {
            match self.next_or_eof() {
                Ok('#') => {
                    pound_count = pound_count + 1;
                },
                Ok('"') => {
                    break ;
                },
                Ok(other) => {
                    proof {
                        lemma_pound_end(src, m + 2, self.pos() - 1);
                    }
                    return Err(self.error_at_last_char(ErrorKind::Unexpected(other)));
                },
                Err(e) => {
                    proof {
                        lemma_pound_end(src, m + 2, self.pos() as int);
                    }
                    return Err(e);
                },
            }
        }
        proof {
            lemma_pound_end(src, m + 2, self.pos() - 1);
        }
        let (start, close) = match self.read_raw_contents(pound_count, true) {
            Ok(r) => r,
            Err(e) => {
                return Err(e);
            },
        };
        proof {
            self.lemma_offsets(self.mark() as int, self.pos() as int);
        }
        let value = self.ascii_bytes(start, close);
        Ok(Token::new(self.chars.marked_range(), TokenKind::Bytes(value)))
    }
}

impl<const INCLUDE_ALL: bool> Tokenizer<INCLUDE_ALL> {
    /// Reads a numeric literal whose first digit, a `0` preceded by the sign
    /// if any, has been read.
    fn tokenize_leading_zero_number(&mut self, signed: bool, negative: bool) -> (r: Result<
        Token,
        Error,
    >)
        requires
            old(self).inv(),
            negative ==> signed,
            old(self).pos() == old(self).mark() + 1 + (if signed {
                1int
            } else {
                0
            }),
            signed ==> old(self).src()[old(self).mark() as int] == (if negative {
                '-'
            } else {
                '+'
            }),
            old(self).src()[old(self).pos() - 1] == '0',
        ensures
            final(self).continues(old(self)),
            r matches Ok(tok) ==> {
                let text = final(self).src().subrange(
                    final(self).mark() as int,
                    final(self).pos() as int,
                );
                &&& final(self).covers(
                    tok.location,
                    final(self).mark() as int,
                    final(self).pos() as int,
                )
                &&& (decimal_reads(text, tok.kind) && decimal_end(final(self).src(), final(self).pos() as int)
                    || float_reads(text, tok.kind) && float_literal_at(
                    final(self).src(),
                    final(self).mark() as int,
                    final(self).pos() as int,
                )
                    || radix_reads(text, tok.kind) && radix_end(final(self).src(), text, final(self).pos() as int))
            },
            r matches Err(e) ==> final(self).within(e.location),
            old(self).pos() < old(self).src().len() && radix_of_prefix(old(self).src()[old(self).pos() as int])
                > 0 ==> ((exists|e: int|
                #[trigger] radix_overflow_at(
                    old(self).src(),
                    old(self).pos() + 1int,
                    e,
                    radix_of_prefix(old(self).src()[old(self).pos() as int]),
                )) <==> (r matches Err(e) && e.kind == ErrorKind::IntegerTooLarge)),
            !(old(self).pos() < old(self).src().len() && radix_of_prefix(
                old(self).src()[old(self).pos() as int],
            ) > 0) ==> ((exists|e: int|
                #[trigger] decimal_overflow_at(
                    old(self).src(),
                    old(self).pos() - 1,
                    e,
                    integer_limit(signed, negative),
                )) <==> (r matches Err(e) && e.kind == ErrorKind::IntegerTooLarge)),
            r matches Ok(tok) && decimal_reads(
                final(self).src().subrange(final(self).mark() as int, final(self).pos() as int),
                tok.kind,
            ) ==> !(old(self).pos() < old(self).src().len() && radix_of_prefix(
                old(self).src()[old(self).pos() as int],
            ) > 0),
            !(old(self).pos() < old(self).src().len() && radix_of_prefix(
                old(self).src()[old(self).pos() as int],
            ) > 0) ==> forall|e: int|
                #![trigger number_run(old(self).src(), old(self).pos() - 1, e, integer_limit(signed, negative))]
                number_run(old(self).src(), old(self).pos() - 1, e, integer_limit(signed, negative)) ==> (r is Ok
                    && final(self).pos() == e),
            old(self).pos() < old(self).src().len() ==> forall|e: int|
                #![trigger radix_run(old(self).src(), old(self).pos() + 1int, e, radix_of_prefix(old(self).src()[old(self).pos() as int]))]
                radix_run(
                    old(self).src(),
                    old(self).pos() + 1int,
                    e,
                    radix_of_prefix(old(self).src()[old(self).pos() as int]),
                ) ==> (r is Ok && final(self).pos() == e),
    {
        let ghost src = self.src();
        let ghost m = self.mark() as int;
        let ghost z = self.pos() - 1;
        let bits: u32 = match self.peek() {
            Some('x') | Some('X') => 4,
            Some('b') | Some('B') => 1,
            Some('o') | Some('O') => 3,
            _ => 0,
        };
        if bits > 0 {
            self.advance();
            proof {
                let text = src.subrange(m, self.pos() as int);
                let (s, n, body) = sign_split(text);
                assert(text[0] == src[m]);
                if signed {
                    assert(body =~= src.subrange(z, z + 2));
                } else {
                    assert(body =~= src.subrange(z, z + 2));
                }
                assert(body[0] == src[z]);
                assert(body[1] == src[z + 1]);
            }
            proof {
                assert(radix_of_bits_spec(bits) == radix_of_prefix(src[z + 1]));
            }
            return self.tokenize_radix_number(bits, signed, negative);
        }
        proof {
            assert(digit_of('0') == 0);
            assert(z + 1 < src.len() ==> radix_of_prefix(src[z + 1]) == 0);
        }
        if negative {
            self.tokenize_negative_integer(0)
        } else {
            self.tokenize_positive_integer(0, signed)
        }
    }

    /// Reads a numeric literal whose first character, a digit or a sign, has
    /// been read. A sign followed by `i` or `N` starts `inf` or `NaN`.
    #[verifier::spinoff_prover]
    #[verifier::rlimit(30)]
    fn tokenize_number(&mut self, start_char: u8) -> (r: Result<Token, Error>)
        requires
            old(self).inv(),
            old(self).pos() == old(self).mark() + 1,
            old(self).src()[old(self).mark() as int] == start_char as char,
            (48u8 <= start_char <= 57u8) || start_char == 45u8 || start_char == 43u8,
        ensures
            final(self).continues(old(self)),
            r matches Ok(tok) ==> {
                let text = final(self).src().subrange(
                    final(self).mark() as int,
                    final(self).pos() as int,
                );
                &&& final(self).covers(
                    tok.location,
                    final(self).mark() as int,
                    final(self).pos() as int,
                )
                &&& number_reads(text, tok.kind)
                &&& decimal_reads(text, tok.kind) ==> decimal_end(final(self).src(), final(self).pos() as int)
                &&& decimal_reads(text, tok.kind) ==> !zero_before_prefix(
                    final(self).src(),
                    final(self).mark() as int,
                    final(self).pos() as int,
                )
                &&& float_reads(text, tok.kind) ==> float_literal_at(
                    final(self).src(),
                    final(self).mark() as int,
                    final(self).pos() as int,
                )
                &&& radix_reads(text, tok.kind) ==> radix_end(final(self).src(), text, final(self).pos() as int)
                &&& identifier_reads(text, tok.kind) ==> (final(self).pos() < final(self).src().len()
                    ==> !ident_continue(final(self).src()[final(self).pos() as int]))
            },
            r matches Err(e) ==> final(self).within(e.location),
            number_too_large_at(old(self).src(), old(self).mark() as int) <==> (r matches Err(e) && e.kind
                == ErrorKind::IntegerTooLarge),
            forall|e: int|
                #![trigger number_literal_at(old(self).src(), old(self).mark() as int, e)]
                number_literal_at(old(self).src(), old(self).mark() as int, e) ==> (r is Ok
                    && final(self).pos() == e),
    {
        let ghost src = self.src();
        let ghost m = self.mark() as int;
        let negative = start_char == 45u8;
        let signed = negative || start_char == 43u8;
        let ghost ds = if signed {
            m + 1
        } else {
            m
        };
        proof {
            assert forall|e: int| #[trigger]
                decimal_literal_at(src, m, e) implies ds < e && is_dec_digit(src[ds]) && !(src[ds]
                == '0' && ds + 1 < src.len() && radix_of_prefix(src[ds + 1]) > 0) && number_run(
                src,
                ds,
                e,
                integer_limit(signed, negative),
            ) by {
                assert(src[m] == start_char as char);
            }
            assert forall|e: int| #[trigger]
                radix_literal_at(src, m, e) implies ds + 1 < src.len() && src[ds] == '0' && radix_of_prefix(
                src[ds + 1],
            ) > 0 && radix_run(src, ds + 2, e, radix_of_prefix(src[ds + 1])) by {
                assert(src[m] == start_char as char);
            }
        }
        // Check for inf/NaN
        if signed {
            match self.peek() {
                Some('i') | Some('N') => {
                    // Any character that may start an identifier does: the
                    // identifier's text starts at the sign.
                    let r = self.tokenize_identifier(Some('i'));
                    proof {
                        if r is Ok {
                            let text = src.subrange(m, self.pos() as int);
                            assert(text[0] == src[m]);
                        }
                        assert forall|e: int| decimal_literal_at(src, m, e) implies false by {
                            assert(is_dec_digit(src[ds]));
                        }
                        assert forall|e: int| radix_literal_at(src, m, e) implies false by {
                            assert(src[ds] == '0');
                        }
                    }
                    return r;
                },
                _ => {},
            }
        }
        let r = if signed {
            let next_char = match self.next_or_eof() {
                Ok(ch) => ch,
                Err(e) => {
                    proof {
                        assert forall|e: int| decimal_literal_at(src, m, e) implies false by {
                            assert(ds < e);
                        }
                        assert forall|e: int| radix_literal_at(src, m, e) implies false by {
                            assert(ds + 1 < src.len());
                        }
                    }
                    return Err(e);
                },
            };
            let ghost p1 = self.pos() as int;
            if next_char == '0' {
                let r = self.tokenize_leading_zero_number(signed, negative);
                proof {
                    assert forall|e: int| decimal_literal_at(src, m, e) implies r is Ok && self.pos()
                        == e by {
                        assert(number_run(src, p1 - 1, e, integer_limit(signed, negative)));
                        assert(!(p1 < src.len() && radix_of_prefix(src[p1]) > 0));
                    }
                    assert forall|e: int| radix_literal_at(src, m, e) implies r is Ok && self.pos() == e by {
                        assert(radix_run(src, p1 + 1, e, radix_of_prefix(src[p1])));
                    }
                    if p1 < src.len() && radix_of_prefix(src[p1]) > 0 {
                        lemma_too_large_radix(src, m, p1);
                    } else {
                        lemma_too_large_decimal(src, m, p1 - 1, signed, negative);
                    }
                }
                r
            } else if let Some(value) = to_digit(next_char, 10) {
                if negative {
                    let r = self.tokenize_negative_integer(value as u64);
                    proof {
                        assert forall|e: int| decimal_literal_at(src, m, e) implies r is Ok
                            && self.pos() == e by {
                            assert(number_run(src, p1 - 1, e, integer_limit(true, true)));
                        }
                        assert forall|e: int| radix_literal_at(src, m, e) implies false by {
                            assert(src[ds] == '0');
                        }
                        lemma_too_large_decimal(src, m, p1 - 1, true, true);
                    }
                    r
                } else {
                    let r = self.tokenize_positive_integer(value as u64, true);
                    proof {
                        assert forall|e: int| decimal_literal_at(src, m, e) implies r is Ok
                            && self.pos() == e by {
                            assert(number_run(src, p1 - 1, e, integer_limit(true, false)));
                        }
                        assert forall|e: int| radix_literal_at(src, m, e) implies false by {
                            assert(src[ds] == '0');
                        }
                        lemma_too_large_decimal(src, m, p1 - 1, true, false);
                    }
                    r
                }
            } else {
                proof {
                    assert forall|e: int| decimal_literal_at(src, m, e) implies false by {
                        assert(is_dec_digit(src[ds]));
                    }
                    assert forall|e: int| radix_literal_at(src, m, e) implies false by {
                        assert(src[ds] == '0');
                    }
                    assert(digits_start(src, m) == ds);
                    assert(!number_too_large_at(src, m));
                }
                Err(self.error(ErrorKind::ExpectedDigit))
            }
        } else if start_char == 48u8 {
            let ghost p1 = self.pos() as int;
            let r = self.tokenize_leading_zero_number(false, false);
            proof {
                assert forall|e: int| decimal_literal_at(src, m, e) implies r is Ok && self.pos() == e by {
                    assert(number_run(src, m, e, integer_limit(false, false)));
                }
                assert forall|e: int| radix_literal_at(src, m, e) implies r is Ok && self.pos() == e by {
                    assert(p1 < src.len());
                    assert(radix_run(src, p1 + 1, e, radix_of_prefix(src[p1])));
                }
                if p1 < src.len() && radix_of_prefix(src[p1]) > 0 {
                    lemma_too_large_radix(src, m, p1);
                } else {
                    lemma_too_large_decimal(src, m, p1 - 1, false, false);
                }
            }
            r
        } else {
            let ghost p1 = self.pos() as int;
            let r = self.tokenize_positive_integer((start_char - 48u8) as u64, false);
            proof {
                assert forall|e: int| decimal_literal_at(src, m, e) implies r is Ok && self.pos() == e by {
                    assert(number_run(src, m, e, integer_limit(false, false)));
                }
                assert forall|e: int| radix_literal_at(src, m, e) implies false by {
                    assert(src[ds] == '0');
                }
                lemma_too_large_decimal(src, m, p1 - 1, false, false);
            }
            r
        };
        r
    }
}

/// Which overflow makes a decimal literal at `m`, whose digits start at
/// `ds`, too large.
proof fn lemma_too_large_decimal(src: Seq<char>, m: int, ds: int, signed: bool, negative: bool)
    requires
        0 <= m,
        digits_start(src, m) == ds,
        limit_at(src, m) == integer_limit(signed, negative),
        ds < src.len(),
        is_dec_digit(src[ds]),
        !(ds + 1 < src.len() && src[ds] == '0' && radix_of_prefix(src[ds + 1]) > 0),
    ensures
        number_too_large_at(src, m) <==> exists|e: int|
            #[trigger] decimal_overflow_at(src, ds, e, integer_limit(signed, negative)),
{
}

/// Which overflow makes a radix literal at `m`, whose prefix character is at
/// `z`, too large.
proof fn lemma_too_large_radix(src: Seq<char>, m: int, z: int)
    requires
        0 <= m,
        digits_start(src, m) + 1 == z,
        z < src.len(),
        src[z - 1] == '0',
        radix_of_prefix(src[z]) > 0,
    ensures
        number_too_large_at(src, m) <==> exists|e: int|
            #[trigger] radix_overflow_at(src, z + 1, e, radix_of_prefix(src[z])),
{
    let ds = z - 1;
    let radix = radix_of_prefix(src[z]);
    assert(ds + 2 == z + 1);
    if exists|e: int| #[trigger] radix_overflow_at(src, z + 1, e, radix) {
        let e = choose|e: int| #[trigger] radix_overflow_at(src, z + 1, e, radix);
        assert(radix_overflow_at(src, ds + 2, e, radix_of_prefix(src[ds + 1])));
    }
    if exists|e: int| #[trigger] radix_overflow_at(src, ds + 2, e, radix_of_prefix(src[ds + 1])) {
        let e = choose|e: int| #[trigger] radix_overflow_at(src, ds + 2, e, radix_of_prefix(src[ds + 1]));
        assert(radix_overflow_at(src, z + 1, e, radix));
    }
    assert forall|e: int| !decimal_overflow_at(src, ds, e, limit_at(src, m)) by {
        if decimal_overflow_at(src, ds, e, limit_at(src, m)) {
            if e > ds + 1 {
                assert(is_dec_digit(src[ds + 1]) || src[ds + 1] == '_');
            }
            let t = src.subrange(ds, e);
            assert(e == ds + 1);
            assert(t =~= seq!['0']);
            assert(t.drop_last() =~= Seq::<char>::empty());
            assert(digits_value(t.drop_last(), 10) == 0);
            assert(digits_value(t, 10) == 0);
            assert(limit_at(src, m) >= 0);
        }
    }
}

impl<const INCLUDE_ALL: bool> Tokenizer<INCLUDE_ALL> {
    /// Reads the next token, skipping whitespace unless `INCLUDE_ALL`.
    /// Returns `None` once the source is exhausted.
    #[verifier::spinoff_prover]
    #[verifier::rlimit(80)]
    pub fn next(&mut self) -> (r: Option<Result<Token, Error>>)
        requires
            old(self).inv(),
        ensures
            final(self).inv(),
            final(self).src() == old(self).src(),
            old(self).pos() <= final(self).pos(),
            r is None ==> {
                &&& final(self).pos() == final(self).src().len()
                &&& INCLUDE_ALL ==> old(self).pos() == final(self).pos()
                &&& forall|k: int|
                    old(self).pos() <= k < final(self).pos() ==> is_whitespace(
                        #[trigger] final(self).src()[k],
                    )
            },
            r is Some ==> old(self).pos() < final(self).pos(),
            r matches Some(Ok(tok)) ==> {
                let src = final(self).src();
                let start = final(self).mark() as int;
                let end = final(self).pos() as int;
                &&& old(self).pos() <= start < end
                &&& INCLUDE_ALL ==> start == old(self).pos()
                &&& forall|k: int| old(self).pos() <= k < start ==> is_whitespace(#[trigger] src[k])
                &&& final(self).covers(tok.location, start, end)
                &&& token_reads(src, start, end, tok.kind)
                &&& token_at(src, tok.location, tok.kind)
                &&& !INCLUDE_ALL ==> !(tok.kind is Whitespace)
            },
            r matches Some(Err(e)) ==> final(self).within(e.location),
            forall|s: int|
                #![trigger literal_ok_at(old(self).src(), s)]
                old(self).pos() <= s && (INCLUDE_ALL ==> s == old(self).pos()) && (forall|k: int|
                    old(self).pos() <= k < s ==> is_whitespace(#[trigger] old(self).src()[k]))
                    && literal_ok_at(old(self).src(), s) ==> (r matches Some(Ok(_)) && final(self).mark()
                    == s),
            !INCLUDE_ALL ==> read_step(old(self).src(), old(self).pos() as int, final(self).pos() as int, r),
            !INCLUDE_ALL && (forall|k: int|
                old(self).pos() <= k < old(self).src().len() ==> is_whitespace(#[trigger] old(self).src()[k]))
                ==> r is None,
            forall|s: int|
                #![trigger number_too_large_at(old(self).src(), s)]
                old(self).pos() <= s && (INCLUDE_ALL ==> s == old(self).pos()) && (forall|k: int|
                    old(self).pos() <= k < s ==> is_whitespace(#[trigger] old(self).src()[k]))
                    && number_too_large_at(old(self).src(), s) ==> (r matches Some(Err(e)) && e.kind
                    == ErrorKind::IntegerTooLarge),
            INCLUDE_ALL && old(self).pos() < old(self).src().len() && is_whitespace(
                old(self).src()[old(self).pos() as int],
            ) ==> (r matches Some(Ok(tok)) && tok.kind is Whitespace && final(self).mark() == old(self).pos()),
            forall|s: int|
                #![trigger starts_nothing(old(self).src()[s])]
                old(self).pos() <= s < old(self).src().len() && (INCLUDE_ALL ==> s == old(self).pos())
                    && (forall|k: int| old(self).pos() <= k < s ==> is_whitespace(#[trigger] old(self).src()[k]))
                    && starts_nothing(old(self).src()[s]) ==> (r matches Some(Err(e)) && e.kind
                    == ErrorKind::Unexpected(old(self).src()[s]) && final(self).covers(e.location, s, s + 1)),
    {
        let ghost src = self.src();
        let ghost p0 = self.pos() as int;
        loop
            invariant
                self.inv(),
                src == self.src(),
                src == old(self).src(),
                p0 == old(self).pos(),
                p0 <= self.pos(),
                INCLUDE_ALL ==> p0 == self.pos(),
                forall|k: int| p0 <= k < self.pos() ==> is_whitespace(#[trigger] src[k]),
            decreases src.len() - self.pos(),
        {
            self.chars.mark_start();
            let ghost m = self.pos() as int;
            let ch = match self.chars.next() {
                Some(ch) => ch,
                None => {
                    return None;
                },
            };
            let result = if ('0' <= ch && ch <= '9') || ch == '-' || ch == '+' {
                self.tokenize_number(ch as u8)
            } else if ch == '"' {
                self.tokenize_string()
            } else if ch == '\'' {
                self.tokenize_char()
            } else if ch == 'r' {
                match self.peek() {
                    Some('#') => {
                        self.advance();
                        match self.peek() {
                            Some('#') | Some('"') => self.tokenize_raw_string(1),
                            _ => self.tokenize_identifier(None),
                        }
                    },
                    Some('"') => self.tokenize_unpounded_raw_string(),
                    _ => self.tokenize_identifier(Some(ch)),
                }
            } else if ch == 'b' {
                match self.peek() {
                    Some('r') => {
                        self.advance();
                        match self.peek() {
                            Some('#') | Some('"') => self.tokenize_raw_byte_string(),
                            _ => self.tokenize_identifier(Some(ch)),
                        }
                    },
                    Some('"') => {
                        self.advance();
                        self.tokenize_byte_string()
                    },
                    Some('\'') => {
                        self.advance();
                        self.tokenize_byte()
                    },
                    _ => self.tokenize_identifier(Some(ch)),
                }
            } else if let Some(kind) = punctuation(ch) {
                proof {
                    self.lemma_offsets(self.mark() as int, self.pos() as int);
                }
                Ok(Token::new(self.chars.marked_range(), kind))
            } else if is_rust_whitespace(ch) {
                loop
                    invariant
                        self.inv(),
                        src == self.src(),
                        m == self.mark(),
                        m < self.pos(),
                        forall|k: int| m <= k < self.pos() ==> is_whitespace(#[trigger] src[k]),
                    ensures
                        self.inv(),
                        src == self.src(),
                        m == self.mark(),
                        m < self.pos(),
                        forall|k: int| m <= k < self.pos() ==> is_whitespace(#[trigger] src[k]),
                        self.pos() < src.len() ==> !is_whitespace(src[self.pos() as int]),
                    decreases src.len() - self.pos(),
                {
                    match self.peek() {
                        Some(ch) => {
                            if is_rust_whitespace(ch) {
                                self.advance();
                            } else {
                                break ;
                            }
                        },
                        None => {
                            break ;
                        },
                    }
                }
                if INCLUDE_ALL {
                    proof {
                        self.lemma_offsets(self.mark() as int, self.pos() as int);
                    }
                    Ok(Token::new(self.chars.marked_range(), TokenKind::Whitespace(self.chars.marked_str())))
                } else {
                    continue ;
                }
            } else if ch == '/' {
                self.tokenize_comment()
            } else {
                self.tokenize_identifier(Some(ch))
            };
            proof {
                if result is Ok {
                    let tok = result->Ok_0;
                    let p = self.pos() as int;
                    assert(token_reads(src, m, p, tok.kind)) by {
                        let text = src.subrange(m, p);
                        assert(text[0] == src[m]);
                        if text.len() > 1 {
                            assert(text[1] == src[m + 1]);
                        }
                        if text.len() > 2 {
                            assert(text.subrange(2, text.len() as int) =~= src.subrange(m + 2, p));
                        }
                    }
                    self.lemma_offsets(m, p);
                    assert(token_at(src, tok.location, tok.kind));
                }
                assert(!INCLUDE_ALL ==> !is_whitespace(src[m]));
            }
            return Some(result);
        }
    }
}

/// Returns the single-character token that `c` stands for, if any.
fn punctuation(c: char) -> (kind: Option<TokenKind>)
    ensures
        kind == punctuation_kind(c),
{
    if c == '(' {
        Some(TokenKind::Open(Balanced::Paren))
    } else if c == ')' {
        Some(TokenKind::Close(Balanced::Paren))
    } else if c == '{' {
        Some(TokenKind::Open(Balanced::Brace))
    } else if c == '}' {
        Some(TokenKind::Close(Balanced::Brace))
    } else if c == '[' {
        Some(TokenKind::Open(Balanced::Bracket))
    } else if c == ']' {
        Some(TokenKind::Close(Balanced::Bracket))
    } else if c == ':' {
        Some(TokenKind::Colon)
    } else if c == ',' {
        Some(TokenKind::Comma)
    } else {
        None
    }
}
} // verus!
