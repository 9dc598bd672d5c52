use vstd::prelude::*;

use crate::text::{chars_of, digit_char, digits_text, push_char, push_decimal, push_str};
use crate::tokenizer::lexeme::{
    bytes_from, char_from, digit_of, digits_value, hex_pair_at, is_ascii_alpha, is_dec_digit, is_digit_in,
    is_digit_run, string_from,
};
use crate::tokenizer::{
    decimal_end, decimal_integer, decimal_literal_at, number_literal_at, decimal_reads, decimal_run, has_float_marker,
    ident_continue, integer_limit, is_float_marker, literal_ok_at, sign_split, token_reads, Integer,
    TokenKind,
};
use crate::value::{StructContents, Value};

verus! {

/// The lower-case hexadecimal digit that stands for `n`, below sixteen.
pub open spec fn hex_digit(n: int) -> char {
    if n < 10 {
        ('0' as int + n) as char
    } else {
        ('a' as int + n - 10) as char
    }
}

/// `\x` and the two lower-case hexadecimal digits of `v`, below 256.
pub open spec fn hex_escape(v: int) -> Seq<char> {
    seq!['\\', 'x', hex_digit(v / 16), hex_digit(v % 16)]
}

/// How `c` is written inside a quoted literal: NUL, tab, line feed, carriage
/// return, `"` and `\` as their short escapes, the other ASCII control
/// characters and DEL as `\x` escapes, anything else as itself.
pub open spec fn escape_char(c: char) -> Seq<char> {
    if c == '\0' {
        seq!['\\', '0']
    } else if c == '\t' {
        seq!['\\', 't']
    } else if c == '\n' {
        seq!['\\', 'n']
    } else if c == '\r' {
        seq!['\\', 'r']
    } else if c == '"' {
        seq!['\\', '"']
    } else if c == '\\' {
        seq!['\\', '\\']
    } else if (c as u32) < 0x20 || c as u32 == 0x7f {
        hex_escape((c as u32) as int)
    } else {
        seq![c]
    }
}

/// How the byte `b` is written inside a byte string: an ASCII byte as its
/// character is, any other as a `\x` escape.
pub open spec fn escape_byte(b: u8) -> Seq<char> {
    if b < 0x80 {
        escape_char(b as char)
    } else {
        hex_escape(b as int)
    }
}

/// The characters of `s`, each written as inside a quoted literal.
pub open spec fn escaped(s: Seq<char>) -> Seq<char>
    decreases s.len(),
{
    if s.len() == 0 {
        seq![]
    } else {
        escape_char(s[0]) + escaped(s.drop_first())
    }
}

/// The bytes of `b`, each written as inside a byte string.
pub open spec fn escaped_bytes(b: Seq<u8>) -> Seq<char>
    decreases b.len(),
{
    if b.len() == 0 {
        seq![]
    } else {
        escape_byte(b[0]) + escaped_bytes(b.drop_first())
    }
}

/// A string literal holding `s`.
pub open spec fn quoted(s: Seq<char>) -> Seq<char> {
    seq!['"'] + escaped(s) + seq!['"']
}

/// A byte string literal holding `b`.
pub open spec fn quoted_bytes(b: Seq<u8>) -> Seq<char> {
    seq!['b', '"'] + escaped_bytes(b) + seq!['"']
}

/// A character literal holding `c`.
pub open spec fn quoted_char(c: char) -> Seq<char> {
    seq!['\''] + escape_char(c) + seq!['\'']
}

/// The decimal text of `v`: a minus sign if it is negative, then its digits.
pub open spec fn decimal_text(v: int) -> Seq<char> {
    if v < 0 {
        seq!['-'] + digits_text((-v) as nat)
    } else {
        digits_text(v as nat)
    }
}

/// `c` is no control character: neither below `0x20` nor DEL.
pub open spec fn is_printable(c: char) -> bool {
    !((c as u32) < 0x20 || c as u32 == 0x7f)
}

/// The escape of a character holds no control character.
proof fn lemma_escape_char_printable(c: char)
    ensures
        forall|k: int| 0 <= k < escape_char(c).len() ==> is_printable(#[trigger] escape_char(c)[k]),
{
    if (c as u32) < 0x20 || c as u32 == 0x7f {
        let v = (c as u32) as int;
        assert(0 <= v / 16 < 16 && 0 <= v % 16 < 16);
    }
}

/// A quoted string literal holds no control character: every control
/// character and DEL in `s` is written as an escape.
pub proof fn lemma_quoted_printable(s: Seq<char>)
    ensures
        forall|k: int| 0 <= k < quoted(s).len() ==> is_printable(#[trigger] quoted(s)[k]),
{
    lemma_escaped_printable(s);
    let q = quoted(s);
    assert forall|k: int| 0 <= k < q.len() implies is_printable(#[trigger] q[k]) by {
        if 1 <= k < q.len() - 1 {
            assert(q[k] == escaped(s)[k - 1]);
        }
    }
}

/// The escapes of the characters of `s` hold no control character.
proof fn lemma_escaped_printable(s: Seq<char>)
    ensures
        forall|k: int| 0 <= k < escaped(s).len() ==> is_printable(#[trigger] escaped(s)[k]),
    decreases s.len(),
{
    if s.len() > 0 {
        lemma_escaped_printable(s.drop_first());
        lemma_escape_char_printable(s[0]);
        let e = escape_char(s[0]);
        let t = escaped(s.drop_first());
        assert forall|k: int| 0 <= k < escaped(s).len() implies is_printable(#[trigger] escaped(s)[k]) by {
            if k < e.len() {
                assert(escaped(s)[k] == e[k]);
            } else {
                assert(escaped(s)[k] == t[k - e.len()]);
            }
        }
    }
}

/// Escaping one more character appends its escape.
proof fn lemma_escaped_push(s: Seq<char>, c: char)
    ensures
        escaped(s.push(c)) == escaped(s) + escape_char(c),
    decreases s.len(),
{
    if s.len() == 0 {
        assert(s.push(c).drop_first() =~= s);
        assert(escaped(s.push(c)) =~= escaped(s) + escape_char(c));
    } else {
        lemma_escaped_push(s.drop_first(), c);
        assert(s.push(c).drop_first() =~= s.drop_first().push(c));
        assert(escaped(s.push(c)) =~= escaped(s) + escape_char(c));
    }
}

/// Escaping one more byte appends its escape.
proof fn lemma_escaped_bytes_push(b: Seq<u8>, x: u8)
    ensures
        escaped_bytes(b.push(x)) == escaped_bytes(b) + escape_byte(x),
    decreases b.len(),
{
    if b.len() == 0 {
        assert(b.push(x).drop_first() =~= b);
        assert(escaped_bytes(b.push(x)) =~= escaped_bytes(b) + escape_byte(x));
    } else {
        lemma_escaped_bytes_push(b.drop_first(), x);
        assert(b.push(x).drop_first() =~= b.drop_first().push(x));
        assert(escaped_bytes(b.push(x)) =~= escaped_bytes(b) + escape_byte(x));
    }
}

/// Returns the lower-case hexadecimal digit of `n`.
fn hex_digit_of(n: u32) -> (c: char)
    requires
        n < 16,
    ensures
        c == hex_digit(n as int),
{
    if n < 10 {
        ((48 + n) as u8) as char
    } else {
        ((87 + n) as u8) as char
    }
}

/// Appends `\x` and the two hexadecimal digits of `v`.
fn write_hex_escape(out: &mut String, v: u32)
    requires
        v < 256,
    ensures
        final(out)@ == old(out)@ + hex_escape(v as int),
{
    push_char(out, '\\');
    push_char(out, 'x');
    push_char(out, hex_digit_of(v / 16));
    push_char(out, hex_digit_of(v % 16));
    assert(final(out)@ =~= old(out)@ + hex_escape(v as int));
}

/// Appends `ch` as it is written inside a quoted literal.
fn write_escaped_char(out: &mut String, ch: char)
    ensures
        final(out)@ == old(out)@ + escape_char(ch),
{
    if ch == '\0' {
        push_char(out, '\\');
        push_char(out, '0');
    } else if ch == '\t' {
        push_char(out, '\\');
        push_char(out, 't');
    } else if ch == '\n' {
        push_char(out, '\\');
        push_char(out, 'n');
    } else if ch == '\r' {
        push_char(out, '\\');
        push_char(out, 'r');
    } else if ch == '"' {
        push_char(out, '\\');
        push_char(out, '"');
    } else if ch == '\\' {
        push_char(out, '\\');
        push_char(out, '\\');
    } else if (ch as u32) < 0x20 || ch as u32 == 0x7f {
        write_hex_escape(out, ch as u32);
    } else {
        push_char(out, ch);
    }
    assert(final(out)@ =~= old(out)@ + escape_char(ch));
}

/// Appends the byte `b` as it is written inside a byte string.
fn write_escaped_byte(out: &mut String, b: u8)
    ensures
        final(out)@ == old(out)@ + escape_byte(b),
{
    if b < 0x80 {
        write_escaped_char(out, b as char);
    } else {
        write_hex_escape(out, b as u32);
    }
}

/// Appends the decimal text of `v`.
fn write_decimal(out: &mut String, v: i128)
    ensures
        final(out)@ == old(out)@ + decimal_text(v as int),
{
    if v < 0 {
        push_char(out, '-');
        let magnitude: u128 = (-(v + 1)) as u128 + 1;
        push_decimal(out, magnitude);
    } else {
        push_decimal(out, v as u128);
    }
    assert(final(out)@ =~= old(out)@ + decimal_text(v as int));
}

/// A value that has a literal form in Rsn.
pub trait Primitive {
    /// The text of this value's literal.
    spec fn rendered(&self) -> Seq<char>;

    /// Appends this value's literal to `buffer`.
    fn render_to(&self, buffer: &mut String)
        ensures
            final(buffer)@ == old(buffer)@ + self.rendered(),
    ;
}

impl Primitive for u8 {
    open spec fn rendered(&self) -> Seq<char> {
        decimal_text(*self as int)
    }

    fn render_to(&self, buffer: &mut String) {
        write_decimal(buffer, *self as i128);
    }
}

impl Primitive for u16 {
    open spec fn rendered(&self) -> Seq<char> {
        decimal_text(*self as int)
    }

    fn render_to(&self, buffer: &mut String) {
        write_decimal(buffer, *self as i128);
    }
}

impl Primitive for u32 {
    open spec fn rendered(&self) -> Seq<char> {
        decimal_text(*self as int)
    }

    fn render_to(&self, buffer: &mut String) {
        write_decimal(buffer, *self as i128);
    }
}

impl Primitive for u64 {
    open spec fn rendered(&self) -> Seq<char> {
        decimal_text(*self as int)
    }

    fn render_to(&self, buffer: &mut String) {
        write_decimal(buffer, *self as i128);
    }
}

impl Primitive for u128 {
    open spec fn rendered(&self) -> Seq<char> {
        decimal_text(*self as int)
    }

    fn render_to(&self, buffer: &mut String) {
        push_decimal(buffer, *self);
    }
}

impl Primitive for usize {
    open spec fn rendered(&self) -> Seq<char> {
        decimal_text(*self as int)
    }

    fn render_to(&self, buffer: &mut String) {
        write_decimal(buffer, *self as i128);
    }
}

impl Primitive for i8 {
    open spec fn rendered(&self) -> Seq<char> {
        decimal_text(*self as int)
    }

    fn render_to(&self, buffer: &mut String) {
        write_decimal(buffer, *self as i128);
    }
}

impl Primitive for i16 {
    open spec fn rendered(&self) -> Seq<char> {
        decimal_text(*self as int)
    }

    fn render_to(&self, buffer: &mut String) {
        write_decimal(buffer, *self as i128);
    }
}

impl Primitive for i32 {
    open spec fn rendered(&self) -> Seq<char> {
        decimal_text(*self as int)
    }

    fn render_to(&self, buffer: &mut String) {
        write_decimal(buffer, *self as i128);
    }
}

impl Primitive for i64 {
    open spec fn rendered(&self) -> Seq<char> {
        decimal_text(*self as int)
    }

    fn render_to(&self, buffer: &mut String) {
        write_decimal(buffer, *self as i128);
    }
}

impl Primitive for i128 {
    open spec fn rendered(&self) -> Seq<char> {
        decimal_text(*self as int)
    }

    fn render_to(&self, buffer: &mut String) {
        write_decimal(buffer, *self);
    }
}

impl Primitive for isize {
    open spec fn rendered(&self) -> Seq<char> {
        decimal_text(*self as int)
    }

    fn render_to(&self, buffer: &mut String) {
        write_decimal(buffer, *self as i128);
    }
}

impl Primitive for bool {
    open spec fn rendered(&self) -> Seq<char> {
        if *self {
            seq!['t', 'r', 'u', 'e']
        } else {
            seq!['f', 'a', 'l', 's', 'e']
        }
    }

    fn render_to(&self, buffer: &mut String) {
        if *self {
            push_char(buffer, 't');
            push_char(buffer, 'r');
            push_char(buffer, 'u');
            push_char(buffer, 'e');
        } else {
            push_char(buffer, 'f');
            push_char(buffer, 'a');
            push_char(buffer, 'l');
            push_char(buffer, 's');
            push_char(buffer, 'e');
        }
        assert(final(buffer)@ =~= old(buffer)@ + self.rendered());
    }
}

impl Primitive for char {
    open spec fn rendered(&self) -> Seq<char> {
        quoted_char(*self)
    }

    fn render_to(&self, buffer: &mut String) {
        push_char(buffer, '\'');
        write_escaped_char(buffer, *self);
        push_char(buffer, '\'');
        assert(final(buffer)@ =~= old(buffer)@ + self.rendered());
    }
}

impl Primitive for str {
    open spec fn rendered(&self) -> Seq<char> {
        quoted(self@)
    }

    fn render_to(&self, buffer: &mut String) {
        let chars = chars_of(self);
        push_char(buffer, '"');
        let ghost start = buffer@;
        let mut i: usize = 0;
        while i < chars.len()
            invariant
                i <= chars@.len(),
                buffer@ == start + escaped(chars@.take(i as int)),
            decreases chars@.len() - i,
        {
            proof {
                lemma_escaped_push(chars@.take(i as int), chars@[i as int]);
                assert(chars@.take(i as int).push(chars@[i as int]) =~= chars@.take(i + 1));
            }
            write_escaped_char(buffer, chars[i]);
            i = i + 1;
        }
        push_char(buffer, '"');
        assert(chars@.take(chars@.len() as int) =~= self@);
        assert(final(buffer)@ =~= old(buffer)@ + self.rendered());
    }
}

impl Primitive for [u8] {
    open spec fn rendered(&self) -> Seq<char> {
        quoted_bytes(self@)
    }

    fn render_to(&self, buffer: &mut String) {
        push_char(buffer, 'b');
        push_char(buffer, '"');
        let ghost start = buffer@;
        let mut i: usize = 0;
        while i < self.len()
            invariant
                i <= self@.len(),
                buffer@ == start + escaped_bytes(self@.take(i as int)),
            decreases self@.len() - i,
        {
            proof {
                lemma_escaped_bytes_push(self@.take(i as int), self@[i as int]);
                assert(self@.take(i as int).push(self@[i as int]) =~= self@.take(i + 1));
            }
            write_escaped_byte(buffer, self[i]);
            i = i + 1;
        }
        push_char(buffer, '"');
        assert(self@.take(self@.len() as int) =~= self@);
        assert(final(buffer)@ =~= old(buffer)@ + self.rendered());
    }
}

/// A hexadecimal digit that the writer emits reads back as its value.
proof fn lemma_hex_digit(n: int)
    requires
        0 <= n < 16,
    ensures
        is_digit_in(hex_digit(n), 16),
        digit_of(hex_digit(n)) == n,
{
}

/// A `\x` escape that the writer emits reads back as its value.
proof fn lemma_hex_pair(src: Seq<char>, k: int, v: int)
    requires
        0 <= v < 256,
        0 <= k,
        k + 1 < src.len(),
        src[k] == hex_digit(v / 16),
        src[k + 1] == hex_digit(v % 16),
    ensures
        hex_pair_at(src, k) == Some(v),
{
    lemma_hex_digit(v / 16);
    lemma_hex_digit(v % 16);
}

/// `src` holds `t` from index `i` on.
spec fn holds_at(src: Seq<char>, i: int, t: Seq<char>) -> bool {
    0 <= i && i + t.len() <= src.len() && forall|k: int| 0 <= k < t.len() ==> src[i + k] == #[trigger] t[k]
}

/// Escaped characters, followed by a closing quote, read back as the
/// characters that were escaped.
proof fn lemma_string_from_escaped(src: Seq<char>, i: int, s: Seq<char>)
    requires
        holds_at(src, i, escaped(s)),
        i + escaped(s).len() < src.len(),
        src[i + escaped(s).len()] == '"',
    ensures
        string_from(src, i) == Some((i + escaped(s).len(), s)),
    decreases s.len(),
{
    if s.len() == 0 {
        assert(s =~= Seq::<char>::empty());
    } else {
        let c = s[0];
        let e = escape_char(c);
        let rest = s.drop_first();
        let n = e.len() as int;
        assert(escaped(s) == e + escaped(rest));
        assert(holds_at(src, i, e)) by {
            assert forall|k: int| 0 <= k < e.len() implies src[i + k] == #[trigger] e[k] by {
                assert(escaped(s)[k] == e[k]);
            }
        }
        assert(holds_at(src, i + n, escaped(rest))) by {
            assert forall|k: int| 0 <= k < escaped(rest).len() implies src[i + n + k]
                == #[trigger] escaped(rest)[k] by {
                assert(escaped(s)[n + k] == escaped(rest)[k]);
            }
        }
        lemma_string_from_escaped(src, i + n, rest);
        assert(s =~= seq![c] + rest);
        assert(src[i] == e[0]);
        if (c as u32) < 0x20 || c as u32 == 0x7f {
            if !(c == '\0' || c == '\t' || c == '\n' || c == '\r') {
                assert(src[i + 2] == e[2]);
                assert(src[i + 3] == e[3]);
                lemma_hex_pair(src, i + 2, (c as u32) as int);
                let u = c as u32;
                vstd::utf8::char_u32_cast(c, u);
                assert(((u as int) as char) == (u as char));
            }
        }
        if e.len() > 1 {
            assert(src[i + 1] == e[1]);
        }
    }
}

/// Escaped bytes, followed by a closing quote, read back as the bytes that
/// were escaped.
proof fn lemma_bytes_from_escaped(src: Seq<char>, i: int, b: Seq<u8>)
    requires
        holds_at(src, i, escaped_bytes(b)),
        i + escaped_bytes(b).len() < src.len(),
        src[i + escaped_bytes(b).len()] == '"',
    ensures
        bytes_from(src, i) == Some((i + escaped_bytes(b).len(), b)),
    decreases b.len(),
{
    if b.len() == 0 {
        assert(b =~= Seq::<u8>::empty());
    } else {
        let x = b[0];
        let e = escape_byte(x);
        let rest = b.drop_first();
        let n = e.len() as int;
        assert(escaped_bytes(b) == e + escaped_bytes(rest));
        assert(holds_at(src, i, e)) by {
            assert forall|k: int| 0 <= k < e.len() implies src[i + k] == #[trigger] e[k] by {
                assert(escaped_bytes(b)[k] == e[k]);
            }
        }
        assert(holds_at(src, i + n, escaped_bytes(rest))) by {
            assert forall|k: int| 0 <= k < escaped_bytes(rest).len() implies src[i + n + k]
                == #[trigger] escaped_bytes(rest)[k] by {
                assert(escaped_bytes(b)[n + k] == escaped_bytes(rest)[k]);
            }
        }
        lemma_bytes_from_escaped(src, i + n, rest);
        assert(b =~= seq![x] + rest);
        assert(src[i] == e[0]);
        if e.len() > 1 {
            assert(src[i + 1] == e[1]);
        }
        if e.len() > 2 {
            assert(src[i + 2] == e[2]);
            assert(src[i + 3] == e[3]);
            lemma_hex_pair(src, i + 2, x as int);
        }
        if x < 0x80 {
            assert((x as char) as u8 == x);
        }
    }
}

/// `src` holds the text `t` from index `p` on.
pub open spec fn stands_at(src: Seq<char>, p: int, t: Seq<char>) -> bool {
    &&& 0 <= p
    &&& p + t.len() <= src.len()
    &&& src.subrange(p, p + t.len()) == t
}

proof fn lemma_stands_at_holds(src: Seq<char>, p: int, t: Seq<char>, i: int, u: Seq<char>)
    requires
        stands_at(src, p, t),
        0 <= i,
        i + u.len() <= t.len(),
        forall|k: int| 0 <= k < u.len() ==> t[i + k] == #[trigger] u[k],
    ensures
        holds_at(src, p + i, u),
{
    assert forall|k: int| 0 <= k < u.len() implies src[p + i + k] == #[trigger] u[k] by {
        assert(src.subrange(p, p + t.len())[i + k] == src[p + i + k]);
    }
}

/// Wherever the text that the writer renders for a string stands, its body,
/// read from just after the opening quote, ends at the closing quote and
/// holds exactly `s`.
pub proof fn lemma_string_reads_back(src: Seq<char>, p: int, s: Seq<char>)
    requires
        stands_at(src, p, quoted(s)),
    ensures
        string_from(src, p + 1) == Some((p + quoted(s).len() - 1, s)),
{
    let q = quoted(s);
    lemma_stands_at_holds(src, p, q, 1, escaped(s));
    assert(src[p + q.len() - 1] == src.subrange(p, p + q.len())[q.len() - 1]);
    lemma_string_from_escaped(src, p + 1, s);
}

/// `kind` is a string token holding `s`.
pub open spec fn holds_string(kind: TokenKind, s: Seq<char>) -> bool {
    match kind {
        TokenKind::String(t) => t@ == s,
        _ => false,
    }
}

/// Wherever the text that the writer renders for a string stands, the
/// tokenizer reads it without error, and as exactly one token: the whole
/// text, holding the same string.
pub proof fn lemma_string_token_reads_back(src: Seq<char>, p: int, s: Seq<char>, end: int, kind: TokenKind)
    requires
        stands_at(src, p, quoted(s)),
        p < end <= src.len(),
    ensures
        literal_ok_at(src, p),
        token_reads(src, p, end, kind) <==> (end == p + quoted(s).len() && holds_string(kind, s)),
{
    lemma_string_reads_back(src, p, s);
    assert(src[p] == src.subrange(p, p + quoted(s).len())[0]);
    let text = src.subrange(p, end);
    assert(text[0] == src[p]);
}

/// Wherever the text that the writer renders for bytes stands, its body,
/// read from just after the opening quote, ends at the closing quote and
/// holds exactly `b`.
pub proof fn lemma_bytes_read_back(src: Seq<char>, p: int, b: Seq<u8>)
    requires
        stands_at(src, p, quoted_bytes(b)),
    ensures
        bytes_from(src, p + 2) == Some((p + quoted_bytes(b).len() - 1, b)),
{
    let q = quoted_bytes(b);
    lemma_stands_at_holds(src, p, q, 2, escaped_bytes(b));
    assert(src[p + q.len() - 1] == src.subrange(p, p + q.len())[q.len() - 1]);
    lemma_bytes_from_escaped(src, p + 2, b);
}

/// `kind` is a byte string token holding `b`.
pub open spec fn holds_bytes(kind: TokenKind, b: Seq<u8>) -> bool {
    match kind {
        TokenKind::Bytes(t) => t@ == b,
        _ => false,
    }
}

/// Wherever the text that the writer renders for bytes stands, the
/// tokenizer reads it without error, and as exactly one token: the whole
/// text, holding the same bytes.
pub proof fn lemma_bytes_token_reads_back(src: Seq<char>, p: int, b: Seq<u8>, end: int, kind: TokenKind)
    requires
        stands_at(src, p, quoted_bytes(b)),
        p < end <= src.len(),
    ensures
        literal_ok_at(src, p),
        token_reads(src, p, end, kind) <==> (end == p + quoted_bytes(b).len() && holds_bytes(kind, b)),
{
    lemma_bytes_read_back(src, p, b);
    let q = quoted_bytes(b);
    assert(src[p] == src.subrange(p, p + q.len())[0]);
    assert(src[p + 1] == src.subrange(p, p + q.len())[1]);
    let text = src.subrange(p, end);
    assert(text[0] == src[p]);
    if end > p + 1 {
        assert(text[1] == src[p + 1]);
    }
}

/// Wherever the text that the writer renders for a character stands, its
/// body, read from just after the opening quote, ends at the closing quote
/// and holds exactly `c`.
pub proof fn lemma_char_reads_back(src: Seq<char>, p: int, c: char)
    requires
        stands_at(src, p, quoted_char(c)),
    ensures
        char_from(src, p + 1) == Some((p + quoted_char(c).len() - 1, c)),
{
    let q = quoted_char(c);
    let e = escape_char(c);
    let t = src.subrange(p, p + q.len());
    assert(src[p + 1] == t[1]);
    assert(src[p + q.len() - 1] == t[q.len() - 1]);
    if e.len() > 1 {
        assert(src[p + 2] == t[2]);
    }
    if e.len() > 2 {
        assert(src[p + 3] == t[3]);
        assert(src[p + 4] == t[4]);
        lemma_hex_pair(src, p + 3, (c as u32) as int);
        let u = c as u32;
        vstd::utf8::char_u32_cast(c, u);
        assert(((u as int) as char) == (u as char));
    }
}

/// `kind` is a character token holding `c`.
pub open spec fn holds_char(kind: TokenKind, c: char) -> bool {
    kind == TokenKind::Character(c)
}

/// Wherever the text that the writer renders for a character stands, the
/// tokenizer reads it without error, and as exactly one token: the whole
/// text, holding the same character.
pub proof fn lemma_char_token_reads_back(src: Seq<char>, p: int, c: char, end: int, kind: TokenKind)
    requires
        stands_at(src, p, quoted_char(c)),
        p < end <= src.len(),
    ensures
        literal_ok_at(src, p),
        token_reads(src, p, end, kind) <==> (end == p + quoted_char(c).len() && holds_char(kind, c)),
{
    lemma_char_reads_back(src, p, c);
    assert(src[p] == src.subrange(p, p + quoted_char(c).len())[0]);
    let text = src.subrange(p, end);
    assert(text[0] == src[p]);
}

/// The tokenizer reads the text that the writer renders for a boolean
/// without error, and as exactly one token: the whole text, the same
/// boolean.
pub proof fn lemma_bool_token_reads_back(b: bool, end: int, kind: TokenKind)
    requires
        0 < end <= b.rendered().len(),
    ensures
        literal_ok_at(b.rendered(), 0),
        token_reads(b.rendered(), 0, end, kind) <==> (end == b.rendered().len() && kind == TokenKind::Bool(b)),
{
    let src = b.rendered();
    let text = src.subrange(0, end);
    assert(text[0] == src[0]);
    if end > 1 {
        assert(text[1] == src[1]);
    }
    assert forall|k: int| 0 <= k < src.len() implies ident_continue(#[trigger] src[k]) && is_ascii_alpha(src[k]) by {}
    if end < src.len() {
        assert(ident_continue(src[end]));
    }
    assert(src.subrange(0, src.len() as int) =~= src);
    if end == src.len() {
        assert(text =~= src);
    }
}

/// The decimal digits of `n` are digits, and read back as `n`.
proof fn lemma_digits_text_reads(n: nat)
    ensures
        digits_text(n).len() > 0,
        forall|k: int| 0 <= k < digits_text(n).len() ==> is_dec_digit(#[trigger] digits_text(n)[k]),
        is_digit_run(digits_text(n), 10),
        digits_value(digits_text(n), 10) == n,
    decreases n,
{
    let t = digits_text(n);
    if n < 10 {
        let d = digit_char(n as int);
        assert(t =~= seq![d]);
        assert(t.drop_last() =~= Seq::<char>::empty());
        assert(t.last() == d);
        assert(digit_of(d) == n);
        assert(digits_value(t, 10) == digits_value(t.drop_last(), 10) * 10 + digit_of(t.last()));
    } else {
        lemma_digits_text_reads(n / 10);
        let d = digit_char((n % 10) as int);
        assert(t =~= digits_text(n / 10).push(d));
        assert(t.drop_last() =~= digits_text(n / 10));
        assert(t.last() == d);
        assert(digit_of(d) == n % 10);
        assert(digits_value(t, 10) == digits_value(t.drop_last(), 10) * 10 + digit_of(t.last()));
        vstd::arithmetic::div_mod::lemma_fundamental_div_mod(n as int, 10);
        assert forall|k: int| 0 <= k < t.len() implies is_dec_digit(#[trigger] t[k]) by {
            if k < t.len() - 1 {
                assert(t[k] == digits_text(n / 10)[k]);
            }
        }
    }
}

/// `kind` is an integer token holding `v`.
pub open spec fn holds_integer(kind: TokenKind, v: int) -> bool {
    match kind {
        TokenKind::Integer(i) => i.value() == v,
        _ => false,
    }
}

/// What the decimal text of `v` is made of: an optional minus sign, then
/// digits; no prefix of it holds a decimal point or an exponent.
pub(crate) proof fn lemma_decimal_text_shape(v: int)
    ensures
        decimal_text(v).len() > 0,
        v < 0 ==> decimal_text(v)[0] == '-' && decimal_text(v).len() > 1,
        forall|k: int|
            (if v < 0 { 1int } else { 0int }) <= k < decimal_text(v).len() ==> is_dec_digit(
                #[trigger] decimal_text(v)[k],
            ),
        forall|e: int| 0 < e <= decimal_text(v).len() ==> !has_float_marker(#[trigger] decimal_text(v).subrange(0, e)),
        sign_split(decimal_text(v)).2 == digits_text(if v < 0 { (-v) as nat } else { v as nat }),
        sign_split(decimal_text(v)).1 == (v < 0),
        sign_split(decimal_text(v)).0 == (v < 0),
{
    let src = decimal_text(v);
    let n: nat = if v < 0 { (-v) as nat } else { v as nat };
    let digits = digits_text(n);
    lemma_digits_text_reads(n);
    let ds: int = if v < 0 { 1 } else { 0 };
    assert forall|k: int| ds <= k < src.len() implies is_dec_digit(#[trigger] src[k]) by {
        assert(src[k] == digits[k - ds]);
    }
    assert forall|e: int| 0 < e <= src.len() implies !has_float_marker(#[trigger] src.subrange(0, e)) by {
        if has_float_marker(src.subrange(0, e)) {
            let k = choose|k: int| 0 <= k < e && is_float_marker(#[trigger] src.subrange(0, e)[k]);
            assert(src.subrange(0, e)[k] == src[k]);
            if v < 0 && k == 0 {
                assert(src[0] == '-');
            } else {
                assert(is_dec_digit(src[k]));
            }
        }
    }
    if v < 0 {
        assert(src[0] == '-');
        assert(src.drop_first() =~= digits);
    } else {
        assert(src[0] == digits[0]);
    }
}

/// The text that the writer renders for an integer within the range that
/// integer literals hold reads, from its first character, as exactly one
/// token: the whole text, an integer holding the same value. It does read so,
/// and a tokenizer that reaches its first character reads it without error.
#[verifier::rlimit(50)]
pub proof fn lemma_integer_token_reads_back(v: int, end: int, kind: TokenKind)
    requires
        i64::MIN <= v <= u64::MAX,
        0 < end <= decimal_text(v).len(),
    ensures
        token_reads(decimal_text(v), 0, end, kind) ==> end == decimal_text(v).len() && holds_integer(kind, v),
        token_reads(
            decimal_text(v),
            0,
            decimal_text(v).len() as int,
            TokenKind::Integer(decimal_integer(if v < 0 { -v } else { v }, v < 0, v < 0)),
        ),
        literal_ok_at(decimal_text(v), 0),
{
    let src = decimal_text(v);
    let n: nat = if v < 0 { (-v) as nat } else { v as nat };
    lemma_digits_text_reads(n);
    lemma_decimal_text_shape(v);
    let text = src.subrange(0, end);
    assert(text[0] == src[0]);
    assert(is_dec_digit(src[0]) || src[0] == '-');
    if end > 1 {
        assert(text[1] == src[1]);
        assert(is_dec_digit(src[1]));
    }
    assert(!has_float_marker(text));
    if token_reads(src, 0, end, kind) {
        assert(decimal_reads(text, kind)) by {
            let (signed, negative, body) = sign_split(text);
            if body.len() >= 2 {
                assert(body[1] == src[1 + (if v < 0 { 1int } else { 0int })]);
            }
        }
        if end < src.len() {
            assert(is_dec_digit(src[end]));
        }
        assert(end == src.len());
        assert(text =~= src);
    }
    let whole = TokenKind::Integer(decimal_integer(n as int, v < 0, v < 0));
    assert(src.subrange(0, src.len() as int) =~= src);
    assert(decimal_reads(src, whole));
    assert(decimal_end(src, src.len() as int));
    let ds: int = if v < 0 { 1 } else { 0 };
    assert(src.subrange(ds, src.len() as int) =~= digits_text(n));
    if ds + 1 < src.len() {
        assert(is_dec_digit(src[ds + 1]));
    }
    assert(decimal_run(src, ds, src.len() as int, integer_limit(v < 0, v < 0)));
    assert(decimal_literal_at(src, 0, src.len() as int));
    assert(number_literal_at(src, 0, src.len() as int));
}

/// How a [`Writer`] lays out its output.
#[derive(Debug)]
pub enum Config {
    /// Everything on one line, without spaces.
    Compact,
    /// Each item on a line of its own, indented by nesting depth.
    Pretty {
        /// The text written once per level of nesting at the start of a line.
        indentation: String,
        /// The text that ends a line.
        newline: String,
    },
}

impl Default for Config {
    fn default() -> (config: Self)
        ensures
            config is Compact,
    {
        Config::Compact
    }
}

impl Config {
    /// Returns a copy of this configuration.
    fn duplicate(&self) -> (config: Config)
        ensures
            same_layout(config, *self),
    {
        match self {
            Config::Compact => Config::Compact,
            Config::Pretty { indentation, newline } => Config::Pretty {
                indentation: indentation.clone(),
                newline: newline.clone(),
            },
        }
    }
}

/// `a` and `b` lay output out the same way.
pub open spec fn same_layout(a: Config, b: Config) -> bool {
    match (a, b) {
        (Config::Compact, Config::Compact) => true,
        (
            Config::Pretty { indentation: i1, newline: n1 },
            Config::Pretty { indentation: i2, newline: n2 },
        ) => i1@ == i2@ && n1@ == n2@,
        _ => false,
    }
}

/// The pretty layout that indents by two spaces and ends lines with `\n`.
pub open spec fn two_space_layout(config: Config) -> bool {
    match config {
        Config::Pretty { indentation, newline } => indentation@ == seq![' ', ' '] && newline@ == seq!['\n'],
        Config::Compact => false,
    }
}

/// Returns the pretty layout that indents by two spaces.
pub fn two_space_config() -> (config: Config)
    ensures
        two_space_layout(config),
{
    let indentation = "  ".to_owned();
    let newline = "\n".to_owned();
    proof {
        reveal_strlit("  ");
        reveal_strlit("\n");
        assert(indentation@ =~= seq![' ', ' ']);
        assert(newline@ =~= seq!['\n']);
    }
    Config::Pretty { indentation, newline }
}

/// `s`, `n` times over.
pub open spec fn repeat(s: Seq<char>, n: nat) -> Seq<char>
    decreases n,
{
    if n == 0 {
        seq![]
    } else {
        repeat(s, (n - 1) as nat) + s
    }
}

/// What ends a line at nesting `depth`: nothing when compact, else a newline
/// and `depth` indentations.
pub open spec fn line_break(config: Config, depth: nat) -> Seq<char> {
    match config {
        Config::Compact => seq![],
        Config::Pretty { indentation, newline } => newline@ + repeat(indentation@, depth),
    }
}

/// What separates a map key from its value.
pub open spec fn colon(config: Config) -> Seq<char> {
    match config {
        Config::Compact => seq![':'],
        _ => seq![':', ' '],
    }
}

/// What precedes an item at nesting `depth`: a line break, after a comma
/// unless it is the first item.
pub open spec fn item_separator(first: bool, config: Config, depth: nat) -> Seq<char> {
    if first {
        line_break(config, depth)
    } else {
        seq![','] + line_break(config, depth)
    }
}

/// How far a tuple or list has been written.
#[derive(Debug, Clone, Copy, PartialEq, Eq, Structural)]
pub enum SequenceState {
    /// No item has been written.
    Empty,
    /// An item has been written.
    NotEmpty,
}

/// How far a map has been written.
#[derive(Debug, Clone, Copy, PartialEq, Eq, Structural)]
pub enum MapState {
    /// No entry has been written.
    Empty,
    /// A complete entry has been written last.
    AfterEntry,
    /// A key has been written; its value comes next.
    AfterKey,
}

/// An open nested value and how far it has been written.
#[derive(Debug, Clone, Copy, PartialEq, Eq, Structural)]
pub enum NestedState {
    Tuple(SequenceState),
    List(SequenceState),
    Mapping(MapState),
}

/// What is written before the next value, given the open nested values:
/// nothing at the root, an item separator in a tuple, a list or before a
/// map key, and a colon before a map value.
pub open spec fn separator(config: Config, levels: Seq<NestedState>) -> Seq<char> {
    if levels.len() == 0 {
        seq![]
    } else {
        let depth = levels.len();
        match levels.last() {
            NestedState::Tuple(s) => item_separator(s is Empty, config, depth),
            NestedState::List(s) => item_separator(s is Empty, config, depth),
            NestedState::Mapping(MapState::Empty) => item_separator(true, config, depth),
            NestedState::Mapping(MapState::AfterEntry) => item_separator(false, config, depth),
            NestedState::Mapping(MapState::AfterKey) => colon(config),
        }
    }
}

/// The state of an open nested value once one more value has been written in it.
pub open spec fn after_value(state: NestedState) -> NestedState {
    match state {
        NestedState::Tuple(_) => NestedState::Tuple(SequenceState::NotEmpty),
        NestedState::List(_) => NestedState::List(SequenceState::NotEmpty),
        NestedState::Mapping(MapState::AfterKey) => NestedState::Mapping(MapState::AfterEntry),
        NestedState::Mapping(_) => NestedState::Mapping(MapState::AfterKey),
    }
}

/// The open nested values once one more value has been written in the
/// innermost.
pub open spec fn advanced(levels: Seq<NestedState>) -> Seq<NestedState> {
    if levels.len() == 0 {
        levels
    } else {
        levels.update(levels.len() - 1, after_value(levels.last()))
    }
}

/// What ends the innermost open nested value: a line break if it holds
/// anything, then its closing delimiter.
pub open spec fn closing(config: Config, levels: Seq<NestedState>) -> Seq<char> {
    let depth = (levels.len() - 1) as nat;
    match levels.last() {
        NestedState::Tuple(s) => (if s is NotEmpty {
            line_break(config, depth)
        } else {
            seq![]
        }) + seq![')'],
        NestedState::List(s) => (if s is NotEmpty {
            line_break(config, depth)
        } else {
            seq![]
        }) + seq![']'],
        NestedState::Mapping(s) => (if s is AfterEntry {
            line_break(config, depth)
        } else {
            seq![]
        }) + seq!['}'],
    }
}

/// What ends a nested value at `depth` that holds `count` items or entries.
pub open spec fn close_text(config: Config, depth: nat, count: nat, delimiter: char) -> Seq<char> {
    (if count > 0 {
        line_break(config, depth)
    } else {
        seq![]
    }) + seq![delimiter]
}

/// The text of `v` written at nesting `depth`, after its separator.
pub open spec fn render(v: Value, config: Config, depth: nat) -> Seq<char>
    decreases v,
{
    match v {
        Value::Integer(i) => decimal_text(i.value()),
        Value::Float(f) => f@,
        Value::Bool(b) => b.rendered(),
        Value::Char(c) => quoted_char(c),
        Value::Byte(b) => decimal_text(b as int),
        Value::Identifier(s) => quoted(s@),
        Value::String(s) => quoted(s@),
        Value::Bytes(b) => quoted_bytes(b@),
        Value::Named(named) => match named.contents {
            StructContents::Mapping(m) => named.name@ + (if config is Pretty {
                seq![' ']
            } else {
                seq![]
            }) + seq!['{'] + render_entries(m.0@, config, depth + 1) + close_text(
                config,
                depth,
                m.0@.len(),
                '}',
            ),
            StructContents::Tuple(l) => named.name@ + seq!['('] + render_items(
                l.0@,
                config,
                depth + 1,
            ) + close_text(config, depth, l.0@.len(), ')'),
        },
        Value::Tuple(l) => seq!['('] + render_items(l.0@, config, depth + 1) + close_text(
            config,
            depth,
            l.0@.len(),
            ')',
        ),
        Value::Array(l) => seq!['['] + render_items(l.0@, config, depth + 1) + close_text(
            config,
            depth,
            l.0@.len(),
            ']',
        ),
        Value::Mapping(m) => seq!['{'] + render_entries(m.0@, config, depth + 1) + close_text(
            config,
            depth,
            m.0@.len(),
            '}',
        ),
    }
}

/// The text of the items `vs` of a tuple or list at nesting `depth`, each
/// after its separator.
pub open spec fn render_items(vs: Seq<Value>, config: Config, depth: nat) -> Seq<char>
    decreases vs,
{
    if vs.len() == 0 {
        seq![]
    } else {
        render_items(vs.drop_last(), config, depth) + item_separator(vs.len() == 1, config, depth)
            + render(vs.last(), config, depth)
    }
}

/// The text of the entries of a map at nesting `depth`: each key after its
/// separator, then a colon and the value.
pub open spec fn render_entries(entries: Seq<(Value, Value)>, config: Config, depth: nat) -> Seq<
    char,
>
    decreases entries,
{
    if entries.len() == 0 {
        seq![]
    } else {
        render_entries(entries.drop_last(), config, depth) + item_separator(
            entries.len() == 1,
            config,
            depth,
        ) + render(entries.last().0, config, depth) + colon(config) + render(
            entries.last().1,
            config,
            depth,
        )
    }
}

/// Writes Rsn text into a `String`.
pub struct Writer {
    output: String,
    nested: Vec<NestedState>,
    config: Config,
}

impl Default for Writer {
    fn default() -> (w: Self)
        ensures
            w.output() == Seq::<char>::empty(),
            w.levels() == Seq::<NestedState>::empty(),
            w.layout() is Compact,
    {
        Writer::new(String::new(), &Config::Compact)
    }
}

impl Writer {
    /// The text written so far.
    pub closed spec fn output(&self) -> Seq<char> {
        self.output@
    }

    /// The nested values that are open, outermost first.
    pub closed spec fn levels(&self) -> Seq<NestedState> {
        self.nested@
    }

    /// The layout the writer follows.
    pub closed spec fn layout(&self) -> Config {
        self.config
    }

    /// Returns a writer that appends to `output`, laid out as `config` says.
    pub fn new(output: String, config: &Config) -> (w: Self)
        ensures
            w.output() == output@,
            w.levels() == Seq::<NestedState>::empty(),
            same_layout(w.layout(), *config),
    {
        Writer { output, nested: Vec::new(), config: config.duplicate() }
    }

    /// Returns the text written, once every nested value has been finished.
    pub fn finish(self) -> (output: String)
        requires
            self.levels().len() == 0,
        ensures
            output@ == self.output(),
    {
        self.output
    }

    /// Returns whether every nested value has been finished, as
    /// [`Writer::finish`] requires.
    pub fn is_complete(&self) -> (b: bool)
        ensures
            b == (self.levels().len() == 0),
    {
        self.nested.len() == 0
    }

    /// Returns whether a nested value is open that can be ended now: one that
    /// is not a map waiting for the value of a key, as
    /// [`Writer::finish_nested`] requires.
    pub fn can_finish_nested(&self) -> (b: bool)
        ensures
            b == (self.levels().len() > 0 && self.levels().last() != NestedState::Mapping(
                MapState::AfterKey,
            )),
    {
        let n = self.nested.len();
        if n == 0 {
            false
        } else {
            match self.nested[n - 1] {
                NestedState::Mapping(MapState::AfterKey) => false,
                _ => true,
            }
        }
    }

    /// Writes a line break: in the pretty layout, a newline and one
    /// indentation per open nested value.
    pub fn insert_newline(&mut self)
        ensures
            final(self).output() == old(self).output() + line_break(
                old(self).layout(),
                old(self).levels().len(),
            ),
            final(self).levels() == old(self).levels(),
            final(self).layout() == old(self).layout(),
    {
        match &self.config {
            Config::Compact => {},
            Config::Pretty { indentation, newline } => {
                push_str(&mut self.output, newline.as_str());
                let mut i: usize = 0;
                while i < self.nested.len()
                    invariant
                        i <= self.nested@.len(),
                        self.nested == old(self).nested,
                        self.config == old(self).config,
                        self.config matches Config::Pretty { indentation: ind, newline: nl } && ind
                            == *indentation && nl == *newline,
                        self.output@ == old(self).output@ + newline@ + repeat(
                            indentation@,
                            i as nat,
                        ),
                    decreases self.nested@.len() - i,
                {
                    push_str(&mut self.output, indentation.as_str());
                    i = i + 1;
                    assert(self.output@ =~= old(self).output@ + newline@ + repeat(
                        indentation@,
                        i as nat,
                    ));
                }
            },
        }
    }

    /// Writes what must precede the next value and notes that the innermost
    /// nested value has one more.
    fn prepare_to_write_value(&mut self)
        ensures
            final(self).output() == old(self).output() + separator(
                old(self).layout(),
                old(self).levels(),
            ),
            final(self).levels() == advanced(old(self).levels()),
            final(self).layout() == old(self).layout(),
    {
        let n = self.nested.len();
        if n == 0 {
            assert(self.output@ =~= old(self).output@ + separator(self.config, self.nested@));
            return ;
        }
        let top = self.nested[n - 1];
        match top {
            NestedState::Tuple(SequenceState::Empty) => {
                self.nested.set(n - 1, NestedState::Tuple(SequenceState::NotEmpty));
                self.insert_newline();
            },
            NestedState::List(SequenceState::Empty) => {
                self.nested.set(n - 1, NestedState::List(SequenceState::NotEmpty));
                self.insert_newline();
            },
            NestedState::Tuple(SequenceState::NotEmpty) | NestedState::List(
                SequenceState::NotEmpty,
            ) => {
                push_char(&mut self.output, ',');
                self.insert_newline();
            },
            NestedState::Mapping(MapState::Empty) => {
                self.nested.set(n - 1, NestedState::Mapping(MapState::AfterKey));
                self.insert_newline();
            },
            NestedState::Mapping(MapState::AfterEntry) => {
                self.nested.set(n - 1, NestedState::Mapping(MapState::AfterKey));
                push_char(&mut self.output, ',');
                self.insert_newline();
            },
            NestedState::Mapping(MapState::AfterKey) => {
                self.nested.set(n - 1, NestedState::Mapping(MapState::AfterEntry));
                match &self.config {
                    Config::Compact => {
                        push_char(&mut self.output, ':');
                    },
                    _ => {
                        push_char(&mut self.output, ':');
                        push_char(&mut self.output, ' ');
                    },
                }
            },
        }
        assert(self.output@ =~= old(self).output@ + separator(old(self).config, old(self).nested@));
        assert(self.nested@ =~= advanced(old(self).nested@));
    }

    /// Starts a map named `name`.
    pub fn begin_named_map(&mut self, name: &str)
        ensures
            final(self).output() == old(self).output() + separator(
                old(self).layout(),
                old(self).levels(),
            ) + name@ + (if old(self).layout() is Pretty {
                seq![' ']
            } else {
                seq![]
            }) + seq!['{'],
            final(self).levels() == advanced(old(self).levels()).push(
                NestedState::Mapping(MapState::Empty),
            ),
            final(self).layout() == old(self).layout(),
    {
        self.prepare_to_write_value();
        push_str(&mut self.output, name);
        match &self.config {
            Config::Pretty { .. } => push_char(&mut self.output, ' '),
            _ => {},
        }
        push_char(&mut self.output, '{');
        self.nested.push(NestedState::Mapping(MapState::Empty));
        assert(self.output@ =~= old(self).output@ + separator(old(self).config, old(self).nested@)
            + name@ + (if old(self).config is Pretty {
            seq![' ']
        } else {
            seq![]
        }) + seq!['{']);
    }

    /// Starts a tuple named `name`.
    pub fn begin_named_tuple(&mut self, name: &str)
        ensures
            final(self).output() == old(self).output() + separator(
                old(self).layout(),
                old(self).levels(),
            ) + name@ + seq!['('],
            final(self).levels() == advanced(old(self).levels()).push(
                NestedState::Tuple(SequenceState::Empty),
            ),
            final(self).layout() == old(self).layout(),
    {
        self.prepare_to_write_value();
        self.nested.push(NestedState::Tuple(SequenceState::Empty));
        push_str(&mut self.output, name);
        push_char(&mut self.output, '(');
        assert(self.output@ =~= old(self).output@ + separator(old(self).config, old(self).nested@)
            + name@ + seq!['(']);
    }

    /// Starts a map.
    pub fn begin_map(&mut self)
        ensures
            final(self).output() == old(self).output() + separator(
                old(self).layout(),
                old(self).levels(),
            ) + seq!['{'],
            final(self).levels() == advanced(old(self).levels()).push(
                NestedState::Mapping(MapState::Empty),
            ),
            final(self).layout() == old(self).layout(),
    {
        self.prepare_to_write_value();
        self.nested.push(NestedState::Mapping(MapState::Empty));
        push_char(&mut self.output, '{');
    }

    /// Starts a tuple.
    pub fn begin_tuple(&mut self)
        ensures
            final(self).output() == old(self).output() + separator(
                old(self).layout(),
                old(self).levels(),
            ) + seq!['('],
            final(self).levels() == advanced(old(self).levels()).push(
                NestedState::Tuple(SequenceState::Empty),
            ),
            final(self).layout() == old(self).layout(),
    {
        self.prepare_to_write_value();
        self.nested.push(NestedState::Tuple(SequenceState::Empty));
        push_char(&mut self.output, '(');
    }

    /// Starts a list.
    pub fn begin_list(&mut self)
        ensures
            final(self).output() == old(self).output() + separator(
                old(self).layout(),
                old(self).levels(),
            ) + seq!['['],
            final(self).levels() == advanced(old(self).levels()).push(
                NestedState::List(SequenceState::Empty),
            ),
            final(self).layout() == old(self).layout(),
    {
        self.prepare_to_write_value();
        self.nested.push(NestedState::List(SequenceState::Empty));
        push_char(&mut self.output, '[');
    }

    /// Writes the literal of `p`.
    pub fn write_primitive<P: Primitive + ?Sized>(&mut self, p: &P)
        ensures
            final(self).output() == old(self).output() + separator(
                old(self).layout(),
                old(self).levels(),
            ) + p.rendered(),
            final(self).levels() == advanced(old(self).levels()),
            final(self).layout() == old(self).layout(),
    {
        self.prepare_to_write_value();
        p.render_to(&mut self.output);
    }

    /// Writes `ident` as it is, as an identifier or other bare word.
    pub fn write_raw_value(&mut self, ident: &str)
        ensures
            final(self).output() == old(self).output() + separator(
                old(self).layout(),
                old(self).levels(),
            ) + ident@,
            final(self).levels() == advanced(old(self).levels()),
            final(self).layout() == old(self).layout(),
    {
        self.prepare_to_write_value();
        push_str(&mut self.output, ident);
    }

    /// Ends the innermost nested value. A map must not be waiting for the
    /// value of a key.
    pub fn finish_nested(&mut self)
        requires
            old(self).levels().len() > 0,
            old(self).levels().last() != NestedState::Mapping(MapState::AfterKey),
        ensures
            final(self).output() == old(self).output() + closing(
                old(self).layout(),
                old(self).levels(),
            ),
            final(self).levels() == old(self).levels().drop_last(),
            final(self).layout() == old(self).layout(),
    {
        let state = match self.nested.pop() {
            Some(state) => state,
            None => vstd::pervasive::unreached(),
        };
        match state {
            NestedState::Tuple(state) => {
                if state == SequenceState::NotEmpty {
                    self.insert_newline();
                }
                push_char(&mut self.output, ')');
            },
            NestedState::List(state) => {
                if state == SequenceState::NotEmpty {
                    self.insert_newline();
                }
                push_char(&mut self.output, ']');
            },
            NestedState::Mapping(state) => {
                if state == MapState::AfterEntry {
                    self.insert_newline();
                }
                push_char(&mut self.output, '}');
            },
        }
        assert(self.output@ =~= old(self).output@ + closing(old(self).config, old(self).nested@));
        assert(self.nested@ =~= old(self).nested@.drop_last());
    }
}

/// The items of a list once one more has been rendered.
proof fn lemma_render_items_take(vs: Seq<Value>, i: int, config: Config, depth: nat)
    requires
        0 <= i < vs.len(),
    ensures
        render_items(vs.take(i + 1), config, depth) == render_items(vs.take(i), config, depth)
            + item_separator(i == 0, config, depth) + render(vs[i], config, depth),
{
    assert(vs.take(i + 1).drop_last() =~= vs.take(i));
}

/// The entries of a map once one more has been rendered.
proof fn lemma_render_entries_take(es: Seq<(Value, Value)>, i: int, config: Config, depth: nat)
    requires
        0 <= i < es.len(),
    ensures
        render_entries(es.take(i + 1), config, depth) == render_entries(es.take(i), config, depth)
            + item_separator(i == 0, config, depth) + render(es[i].0, config, depth) + colon(config)
            + render(es[i].1, config, depth),
{
    assert(es.take(i + 1).drop_last() =~= es.take(i));
}

impl Writer {
    /// Writes the items `items` into the tuple or list just started, and ends it.
    fn write_items(&mut self, items: &Vec<Value>, Ghost(outer): Ghost<Seq<NestedState>>)
        requires
            old(self).levels().len() > 0,
            old(self).levels() == outer.push(old(self).levels().last()),
            old(self).levels().last() == NestedState::Tuple(SequenceState::Empty)
                || old(self).levels().last() == NestedState::List(SequenceState::Empty),
        ensures
            final(self).output() == old(self).output() + render_items(
                items@,
                old(self).layout(),
                old(self).levels().len(),
            ) + close_text(
                old(self).layout(),
                outer.len(),
                items@.len(),
                if old(self).levels().last() is Tuple {
                    ')'
                } else {
                    ']'
                },
            ),
            final(self).levels() == outer,
            final(self).layout() == old(self).layout(),
        decreases items@, 0nat,
    {
        let ghost depth = self.levels().len();
        let ghost top = self.levels().last();
        let mut i: usize = 0;
        while i < items.len()
            invariant
                i <= items@.len(),
                depth == outer.len() + 1,
                top == old(self).levels().last(),
                top == NestedState::Tuple(SequenceState::Empty) || top == NestedState::List(
                    SequenceState::Empty,
                ),
                self.layout() == old(self).layout(),
                self.levels() == outer.push(
                    if i == 0 {
                        top
                    } else {
                        after_value(top)
                    },
                ),
                self.output() == old(self).output() + render_items(
                    items@.take(i as int),
                    self.layout(),
                    depth,
                ),
            decreases items@.len() - i,
        {
            proof {
                lemma_render_items_take(items@, i as int, self.layout(), depth);
            }
            self.write_value(&items[i]);
            proof {
                assert(advanced(outer.push(
                    if i == 0 {
                        top
                    } else {
                        after_value(top)
                    },
                )) =~= outer.push(after_value(top)));
            }
            i = i + 1;
        }
        proof {
            assert(items@.take(items@.len() as int) =~= items@);
            assert(self.levels().drop_last() =~= outer);
        }
        self.finish_nested();
    }

    /// Writes the entries `entries` into the map just started, and ends it.
    fn write_entries(&mut self, entries: &Vec<(Value, Value)>, Ghost(outer): Ghost<
        Seq<NestedState>,
    >)
        requires
            old(self).levels() == outer.push(NestedState::Mapping(MapState::Empty)),
        ensures
            final(self).output() == old(self).output() + render_entries(
                entries@,
                old(self).layout(),
                old(self).levels().len(),
            ) + close_text(old(self).layout(), outer.len(), entries@.len(), '}'),
            final(self).levels() == outer,
            final(self).layout() == old(self).layout(),
        decreases entries@, 0nat,
    {
        let ghost depth = self.levels().len();
        let mut i: usize = 0;
        while i < entries.len()
            invariant
                i <= entries@.len(),
                depth == outer.len() + 1,
                self.layout() == old(self).layout(),
                self.levels() == outer.push(
                    NestedState::Mapping(
                        if i == 0 {
                            MapState::Empty
                        } else {
                            MapState::AfterEntry
                        },
                    ),
                ),
                self.output() == old(self).output() + render_entries(
                    entries@.take(i as int),
                    self.layout(),
                    depth,
                ),
            decreases entries@.len() - i,
        {
            proof {
                lemma_render_entries_take(entries@, i as int, self.layout(), depth);
            }
            let entry = &entries[i];
            self.write_value(&entry.0);
            proof {
                assert(self.levels() =~= outer.push(NestedState::Mapping(MapState::AfterKey)));
            }
            self.write_value(&entry.1);
            proof {
                assert(self.levels() =~= outer.push(NestedState::Mapping(MapState::AfterEntry)));
            }
            i = i + 1;
        }
        proof {
            assert(entries@.take(entries@.len() as int) =~= entries@);
            assert(self.levels().drop_last() =~= outer);
        }
        self.finish_nested();
    }

    /// Writes `value`, nested values with all their contents.
    #[verifier::spinoff_prover]
    #[verifier::rlimit(40)]
    pub fn write_value(&mut self, value: &Value)
        ensures
            final(self).output() == old(self).output() + separator(
                old(self).layout(),
                old(self).levels(),
            ) + render(*value, old(self).layout(), old(self).levels().len()),
            final(self).levels() == advanced(old(self).levels()),
            final(self).layout() == old(self).layout(),
        decreases value, 1nat,
    {
        let ghost outer = advanced(self.levels());
        match value {
            Value::Integer(value) => match value {
                Integer::Usize(value) => self.write_primitive(value),
                Integer::Isize(value) => self.write_primitive(value),
                Integer::UnsignedLarge(value) => self.write_primitive(value),
                Integer::SignedLarge(value) => self.write_primitive(value),
            },
            Value::Float(value) => self.write_raw_value(value.as_str()),
            Value::Bool(value) => self.write_primitive(value),
            Value::Char(value) => self.write_primitive(value),
            Value::Byte(value) => self.write_primitive(value),
            Value::Identifier(value) => self.write_primitive(value.as_str()),
            Value::String(value) => self.write_primitive(value.as_str()),
            Value::Bytes(value) => self.write_primitive(value.as_slice()),
            Value::Named(named) => match &named.contents {
                StructContents::Mapping(map) => {
                    self.begin_named_map(named.name.as_str());
                    self.write_entries(&map.0, Ghost(outer));
                },
                StructContents::Tuple(list) => {
                    self.begin_named_tuple(named.name.as_str());
                    self.write_items(&list.0, Ghost(outer));
                },
            },
            Value::Tuple(list) => {
                self.begin_tuple();
                self.write_items(&list.0, Ghost(outer));
            },
            Value::Array(list) => {
                self.begin_list();
                self.write_items(&list.0, Ghost(outer));
            },
            Value::Mapping(map) => {
                self.begin_map();
                self.write_entries(&map.0, Ghost(outer));
            },
        }
    }
}

/// Layouts that agree on their text render every value alike.
proof fn lemma_render_layout(v: Value, a: Config, b: Config, depth: nat)
    requires
        same_layout(a, b),
    ensures
        render(v, a, depth) == render(v, b, depth),
    decreases v,
{
    assert(line_break(a, depth) == line_break(b, depth));
    match v {
        Value::Named(named) => match named.contents {
            StructContents::Mapping(m) => lemma_render_entries_layout(m.0@, a, b, depth + 1),
            StructContents::Tuple(l) => lemma_render_items_layout(l.0@, a, b, depth + 1),
        },
        Value::Tuple(l) => lemma_render_items_layout(l.0@, a, b, depth + 1),
        Value::Array(l) => lemma_render_items_layout(l.0@, a, b, depth + 1),
        Value::Mapping(m) => lemma_render_entries_layout(m.0@, a, b, depth + 1),
        _ => {},
    }
}

proof fn lemma_render_items_layout(vs: Seq<Value>, a: Config, b: Config, depth: nat)
    requires
        same_layout(a, b),
    ensures
        render_items(vs, a, depth) == render_items(vs, b, depth),
    decreases vs,
{
    if vs.len() > 0 {
        lemma_render_items_layout(vs.drop_last(), a, b, depth);
        lemma_render_layout(vs.last(), a, b, depth);
        assert(line_break(a, depth) == line_break(b, depth));
    }
}

proof fn lemma_render_entries_layout(es: Seq<(Value, Value)>, a: Config, b: Config, depth: nat)
    requires
        same_layout(a, b),
    ensures
        render_entries(es, a, depth) == render_entries(es, b, depth),
    decreases es,
{
    if es.len() > 0 {
        lemma_render_entries_layout(es.drop_last(), a, b, depth);
        lemma_render_layout(es.last().0, a, b, depth);
        lemma_render_layout(es.last().1, a, b, depth);
        assert(line_break(a, depth) == line_break(b, depth));
    }
}

impl Value {
    /// The text of this value in the compact layout.
    pub fn to_string(&self) -> (text: String)
        ensures
            text@ == render(*self, Config::Compact, 0),
    {
        let mut writer = Writer::new(String::new(), &Config::Compact);
        writer.write_value(self);
        writer.finish()
    }

    /// The text of this value in the pretty layout, indented by two spaces.
    pub fn to_string_pretty(&self) -> (text: String)
        ensures
            forall|c: Config| two_space_layout(c) ==> text@ == render(*self, c, 0),
    {
        let config = two_space_config();
        let mut writer = Writer::new(String::new(), &config);
        writer.write_value(self);
        let text = writer.finish();
        proof {
            let layout = writer.layout();
            assert forall|c: Config| two_space_layout(c) implies text@ == render(*self, c, 0) by {
                lemma_render_layout(*self, layout, c, 0);
            }
        }
        text
    }
}

} // verus!
