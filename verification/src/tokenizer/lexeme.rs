//! The lexical vocabulary of Rsn: digits, whitespace, identifier characters
//! and escape sequences, as mathematical definitions and as checked functions.
use vstd::prelude::*;

verus! {

/// `c` is an ASCII decimal digit.
pub open spec fn is_dec_digit(c: char) -> bool {
    '0' <= c <= '9'
}

/// The value `c` stands for as a digit in radix 36, or 36 when it is no digit.
pub open spec fn digit_of(c: char) -> int {
    if '0' <= c <= '9' {
        c as int - '0' as int
    } else if 'a' <= c <= 'z' {
        c as int - 'a' as int + 10
    } else if 'A' <= c <= 'Z' {
        c as int - 'A' as int + 10
    } else {
        36
    }
}

/// `c` is a digit of the given radix (as `char::to_digit` accepts it).
pub open spec fn is_digit_in(c: char, radix: int) -> bool {
    digit_of(c) < radix
}

/// Every character of `s` is a digit of `radix` or an underscore.
pub open spec fn is_digit_run(s: Seq<char>, radix: int) -> bool {
    forall|i: int| 0 <= i < s.len() ==> (s[i] == '_' || is_digit_in(#[trigger] s[i], radix))
}

/// The value of the digits in `s` read in `radix`, skipping underscores.
pub open spec fn digits_value(s: Seq<char>, radix: int) -> int
    decreases s.len(),
{
    if s.len() == 0 {
        0
    } else if s.last() == '_' {
        digits_value(s.drop_last(), radix)
    } else {
        digits_value(s.drop_last(), radix) * radix + digit_of(s.last())
    }
}

/// `s` holds at least one character that is not an underscore.
pub open spec fn has_digit(s: Seq<char>) -> bool {
    exists|i: int| 0 <= i < s.len() && s[i] != '_'
}

/// `s` without its underscores.
pub open spec fn strip_underscores(s: Seq<char>) -> Seq<char> {
    s.filter(|c: char| c != '_')
}

/// Extending a digit sequence by one character.
pub proof fn lemma_digits_value_push(s: Seq<char>, c: char, radix: int)
    ensures
        digits_value(s.push(c), radix) == if c == '_' {
            digits_value(s, radix)
        } else {
            digits_value(s, radix) * radix + digit_of(c)
        },
{
    assert(s.push(c).drop_last() =~= s);
}

/// Digit values are never negative.
pub proof fn lemma_digits_value_nonneg(s: Seq<char>, radix: int)
    requires
        radix >= 0,
        is_digit_run(s, radix),
    ensures
        digits_value(s, radix) >= 0,
    decreases s.len(),
{
    if s.len() > 0 {
        assert(is_digit_run(s.drop_last(), radix)) by {
            assert forall|i: int| 0 <= i < s.drop_last().len() implies (s.drop_last()[i] == '_'
                || is_digit_in(#[trigger] s.drop_last()[i], radix)) by {
                assert(s.drop_last()[i] == s[i]);
            }
        }
        lemma_digits_value_nonneg(s.drop_last(), radix);
        assert(s[s.len() - 1] == '_' || is_digit_in(s[s.len() - 1], radix));
        if s.last() != '_' {
            assert(0 <= digit_of(s.last()));
            assert(digits_value(s.drop_last(), radix) * radix >= 0) by (nonlinear_arith)
                requires
                    digits_value(s.drop_last(), radix) >= 0,
                    radix >= 0,
            ;
        }
    }
}

/// A digit run is worth at least as much as any of its prefixes.
pub proof fn lemma_digits_value_prefix(s: Seq<char>, i: int, radix: int)
    requires
        radix >= 1,
        0 <= i <= s.len(),
        is_digit_run(s, radix),
    ensures
        digits_value(s.take(i), radix) <= digits_value(s, radix),
    decreases s.len(),
{
    if i < s.len() {
        let t = s.drop_last();
        assert(is_digit_run(t, radix)) by {
            assert forall|k: int| 0 <= k < t.len() implies (t[k] == '_' || is_digit_in(
                #[trigger] t[k],
                radix,
            )) by {
                assert(t[k] == s[k]);
            }
        }
        lemma_digits_value_prefix(t, i, radix);
        assert(t.take(i) =~= s.take(i));
        lemma_digits_value_nonneg(t, radix);
        assert(s[s.len() - 1] == '_' || is_digit_in(s[s.len() - 1], radix));
        if s.last() != '_' {
            assert(digits_value(t, radix) * radix >= digits_value(t, radix)) by (nonlinear_arith)
                requires
                    digits_value(t, radix) >= 0,
                    radix >= 1,
            ;
        }
    } else {
        assert(s.take(i) =~= s);
    }
}

/// Stripping underscores distributes over appending one character.
pub proof fn lemma_strip_push(s: Seq<char>, c: char)
    ensures
        strip_underscores(s.push(c)) == if c == '_' {
            strip_underscores(s)
        } else {
            strip_underscores(s).push(c)
        },
{
    reveal_with_fuel(Seq::filter, 1);
    assert(s.push(c).drop_last() =~= s);
}

/// Returns whether `c` is an ASCII decimal digit.
pub fn is_dec_digit_exec(c: char) -> (b: bool)
    ensures
        b == is_dec_digit(c),
{
    '0' <= c && c <= '9'
}

/// Returns the value of `c` as a digit of `radix`, like `char::to_digit`.
pub fn to_digit(c: char, radix: u32) -> (d: Option<u32>)
    requires
        2 <= radix <= 36,
    ensures
        is_digit_in(c, radix as int) <==> d.is_some(),
        d matches Some(v) ==> v == digit_of(c),
{
    let v = if '0' <= c && c <= '9' {
        (c as u32) - ('0' as u32)
    } else if 'a' <= c && c <= 'z' {
        (c as u32) - ('a' as u32) + 10
    } else if 'A' <= c && c <= 'Z' {
        (c as u32) - ('A' as u32) + 10
    } else {
        36
    };
    if v < radix {
        Some(v)
    } else {
        None
    }
}

/// `c` is ASCII.
pub open spec fn is_ascii(c: char) -> bool {
    (c as u32) < 0x80
}

/// Whitespace as the Rust reference defines it.
pub open spec fn is_whitespace(c: char) -> bool {
    ||| c == '\t'
    ||| c == '\n'
    ||| c == '\u{b}'
    ||| c == '\u{c}'
    ||| c == '\r'
    ||| c == ' '
    ||| c == '\u{85}'
    ||| c == '\u{200e}'
    ||| c == '\u{200f}'
    ||| c == '\u{2028}'
    ||| c == '\u{2029}'
}

/// Returns whether `ch` is whitespace as the Rust reference defines it.
pub fn is_rust_whitespace(ch: char) -> (b: bool)
    ensures
        b == is_whitespace(ch),
{
    ch == '\t' || ch == '\n' || ch == '\u{b}' || ch == '\u{c}' || ch == '\r' || ch == ' ' || ch
        == '\u{85}' || ch == '\u{200e}' || ch == '\u{200f}' || ch == '\u{2028}' || ch
        == '\u{2029}'
}

/// The whitespace that a line continuation in a string skips.
pub open spec fn is_continue_whitespace(c: char) -> bool {
    c == ' ' || c == '\n' || c == '\r' || c == '\t'
}

/// The value of a simple escape `\c`: quotes, backslash, `r`, `n`, `t` and `0`.
pub open spec fn simple_escape(c: char) -> Option<char> {
    if c == '"' || c == '\'' || c == '\\' {
        Some(c)
    } else if c == 'r' {
        Some('\r')
    } else if c == 'n' {
        Some('\n')
    } else if c == 't' {
        Some('\t')
    } else if c == '0' {
        Some('\0')
    } else {
        None
    }
}

/// Returns the value of the simple escape `\c`, if `c` introduces one.
pub fn simple_escape_of(c: char) -> (r: Option<char>)
    ensures
        r == simple_escape(c),
{
    if c == '"' || c == '\'' || c == '\\' {
        Some(c)
    } else if c == 'r' {
        Some('\r')
    } else if c == 'n' {
        Some('\n')
    } else if c == 't' {
        Some('\t')
    } else if c == '0' {
        Some('\0')
    } else {
        None
    }
}

/// Whether `ch` has the Unicode property XID_Start.
pub uninterp spec fn xid_start(ch: char) -> bool;

/// Whether `ch` has the Unicode property XID_Continue.
pub uninterp spec fn xid_continue(ch: char) -> bool;

/// ASCII letters.
pub open spec fn is_ascii_alpha(ch: char) -> bool {
    ('a' <= ch <= 'z') || ('A' <= ch <= 'Z')
}

/// Calls `unicode_ident::is_xid_start`. The contract names its result
/// `xid_start(ch)`; for ASCII characters, the crate's table marks exactly the
/// letters.
#[verifier::external_body]
pub(crate) fn is_xid_start(ch: char) -> (b: bool)
    ensures
        b == xid_start(ch),
        is_ascii(ch) ==> (b <==> is_ascii_alpha(ch)),
{
    unicode_ident::is_xid_start(ch)
}

/// Calls `unicode_ident::is_xid_continue`. The contract names its result
/// `xid_continue(ch)`; for ASCII characters, the crate's table marks exactly the
/// letters, the digits and `_`.
#[verifier::external_body]
pub(crate) fn is_xid_continue(ch: char) -> (b: bool)
    ensures
        b == xid_continue(ch),
        is_ascii(ch) ==> (b <==> (is_ascii_alpha(ch) || is_dec_digit(ch) || ch == '_')),
{
    unicode_ident::is_xid_continue(ch)
}


/// The first index from `i` on at which `src` holds neither a hexadecimal
/// digit nor an underscore.
pub open spec fn hex_run_end(src: Seq<char>, i: int) -> int
    decreases src.len() - i,
{
    if i < 0 || i >= src.len() || !(is_digit_in(src[i], 16) || src[i] == '_') {
        i
    } else {
        hex_run_end(src, i + 1)
    }
}

/// The first index from `i` on at which `src` holds no whitespace that a line
/// continuation skips.
pub open spec fn continue_end(src: Seq<char>, i: int) -> int
    decreases src.len() - i,
{
    if i < 0 || i >= src.len() || !is_continue_whitespace(src[i]) {
        i
    } else {
        continue_end(src, i + 1)
    }
}

/// `v` is a Unicode scalar value.
pub open spec fn is_unicode_scalar(v: int) -> bool {
    (0 <= v <= 0xD7FF) || (0xE000 <= v <= 0x10FFFF)
}

/// The `\u{...}` escape whose `{` is at `k`: the index just past its `}` and
/// the character it stands for. The hexadecimal digits are read into 32 bits,
/// so only their lowest 32 bits count.
pub open spec fn unicode_escape_at(src: Seq<char>, k: int) -> Option<(int, Option<char>)> {
    if 0 <= k < src.len() && src[k] == '{' {
        let j = hex_run_end(src, k + 1);
        let v = digits_value(src.subrange(k + 1, j), 16) % 0x1_0000_0000;
        if j < src.len() && src[j] == '}' && is_unicode_scalar(v) {
            Some((j + 1, Some(v as char)))
        } else {
            None
        }
    } else {
        None
    }
}

/// The byte value of the two hexadecimal digits at `k` and `k + 1`.
pub open spec fn hex_pair_at(src: Seq<char>, k: int) -> Option<int> {
    if 0 <= k && k + 1 < src.len() && is_digit_in(src[k], 16) && is_digit_in(src[k + 1], 16) {
        Some(digit_of(src[k]) * 16 + digit_of(src[k + 1]))
    } else {
        None
    }
}

/// The escape sequence whose backslash is just before `k`: the index just past
/// it and the character it stands for (`None` for a line continuation, which
/// stands for nothing). Line continuations and `\u{...}` are only accepted
/// where allowed; `\x` must give an ASCII character.
pub open spec fn escape_at(src: Seq<char>, k: int, allow_continue: bool, allow_unicode: bool) -> Option<
    (int, Option<char>),
> {
    if k < 0 || k >= src.len() {
        None
    } else {
        let c = src[k];
        if simple_escape(c) is Some {
            Some((k + 1, simple_escape(c)))
        } else if c == 'u' && allow_unicode {
            unicode_escape_at(src, k + 1)
        } else if c == 'x' {
            match hex_pair_at(src, k + 1) {
                Some(v) => if v < 0x80 {
                    Some((k + 3, Some(v as char)))
                } else {
                    None
                },
                None => None,
            }
        } else if c == '\r' && allow_continue {
            if k + 1 < src.len() && src[k + 1] == '\n' {
                Some((continue_end(src, k + 1), None))
            } else {
                None
            }
        } else if c == '\n' && allow_continue {
            Some((continue_end(src, k + 1), None))
        } else {
            None
        }
    }
}

/// The characters that an optional character stands for.
pub open spec fn opt_seq(c: Option<char>) -> Seq<char> {
    match c {
        Some(c) => seq![c],
        None => seq![],
    }
}

/// Reads the contents of a string literal from index `i` on: the index of its
/// closing `"` and the characters it holds, or `None` when the source holds no
/// well-formed rest of a string there.
pub open spec fn string_from(src: Seq<char>, i: int) -> Option<(int, Seq<char>)>
    decreases src.len() - i,
{
    if i < 0 || i >= src.len() {
        None
    } else if src[i] == '"' {
        Some((i, seq![]))
    } else if src[i] == '\\' {
        match escape_at(src, i + 1, true, true) {
            Some((j, c)) => if i < j <= src.len() {
                match string_from(src, j) {
                    Some((e, rest)) => Some((e, opt_seq(c) + rest)),
                    None => None,
                }
            } else {
                None
            },
            None => None,
        }
    } else if src[i] == '\r' && !(i + 1 < src.len() && src[i + 1] == '\n') {
        None
    } else {
        match string_from(src, i + 1) {
            Some((e, rest)) => Some((e, seq![src[i]] + rest)),
            None => None,
        }
    }
}

/// Reads the contents of a byte string literal from index `i` on: the index of
/// its closing `"` and the bytes it holds. Bytes strings hold ASCII characters
/// and escapes; `\x` may give any byte.
pub open spec fn bytes_from(src: Seq<char>, i: int) -> Option<(int, Seq<u8>)>
    decreases src.len() - i,
{
    if i < 0 || i >= src.len() {
        None
    } else if src[i] == '"' {
        Some((i, seq![]))
    } else if src[i] == '\\' {
        match byte_escape_at(src, i + 1) {
            Some((j, b)) => if i < j <= src.len() {
                match bytes_from(src, j) {
                    Some((e, rest)) => Some((e, opt_bytes(b) + rest)),
                    None => None,
                }
            } else {
                None
            },
            None => None,
        }
    } else if !is_ascii(src[i]) {
        None
    } else {
        match bytes_from(src, i + 1) {
            Some((e, rest)) => Some((e, seq![#[verifier::truncate] (src[i] as u8)] + rest)),
            None => None,
        }
    }
}

/// The bytes of a sequence of ASCII characters.
pub open spec fn ascii_seq(s: Seq<char>) -> Seq<u8> {
    s.map_values(|c: char| c as u8)
}

/// The bytes that an optional byte stands for.
pub open spec fn opt_bytes(b: Option<u8>) -> Seq<u8> {
    match b {
        Some(b) => seq![b],
        None => seq![],
    }
}

/// The escape sequence of a byte string whose backslash is just before `k`.
pub open spec fn byte_escape_at(src: Seq<char>, k: int) -> Option<(int, Option<u8>)> {
    if k < 0 || k >= src.len() {
        None
    } else {
        let c = src[k];
        if simple_escape(c) is Some {
            Some((k + 1, Some(simple_escape(c)->0 as u8)))
        } else if c == 'x' {
            match hex_pair_at(src, k + 1) {
                Some(v) => Some((k + 3, Some(v as u8))),
                None => None,
            }
        } else if c == '\r' {
            if k + 1 < src.len() && src[k + 1] == '\n' {
                Some((continue_end(src, k + 1), None))
            } else {
                None
            }
        } else if c == '\n' {
            Some((continue_end(src, k + 1), None))
        } else {
            None
        }
    }
}

/// Reads the body of a character literal from index `i` on: the index of its
/// closing `'` and the character.
pub open spec fn char_from(src: Seq<char>, i: int) -> Option<(int, char)> {
    if i < 0 || i >= src.len() {
        None
    } else {
        let c = src[i];
        let read: Option<(int, char)> = if c == '\\' {
            match escape_at(src, i + 1, false, true) {
                Some((j, Some(e))) => Some((j, e)),
                _ => None,
            }
        } else if c == '\n' || c == '\r' || c == '\t' {
            None
        } else {
            Some((i + 1, c))
        };
        match read {
            Some((j, ch)) => if 0 <= j < src.len() && src[j] == '\'' {
                Some((j, ch))
            } else {
                None
            },
            None => None,
        }
    }
}

/// Reads the body of a byte literal from index `i` on: the index of its
/// closing `'` and the byte.
pub open spec fn byte_from(src: Seq<char>, i: int) -> Option<(int, u8)> {
    if i < 0 || i >= src.len() {
        None
    } else {
        let c = src[i];
        let read: Option<(int, char)> = if c == '\\' {
            match escape_at(src, i + 1, false, false) {
                Some((j, Some(e))) => Some((j, e)),
                _ => None,
            }
        } else if is_ascii(c) && !(c == '\n' || c == '\r' || c == '\t') {
            Some((i + 1, c))
        } else {
            None
        };
        match read {
            Some((j, ch)) => if 0 <= j < src.len() && src[j] == '\'' {
                Some((j, ch as u8))
            } else {
                None
            },
            None => None,
        }
    }
}

/// `hex_run_end` finds the end of a run of hexadecimal digits and underscores.
pub proof fn lemma_hex_run_end(src: Seq<char>, i: int, p: int)
    requires
        0 <= i <= p <= src.len(),
        forall|k: int| i <= k < p ==> (is_digit_in(#[trigger] src[k], 16) || src[k] == '_'),
    ensures
        hex_run_end(src, i) == hex_run_end(src, p),
    decreases p - i,
{
    if i < p {
        lemma_hex_run_end(src, i + 1, p);
    }
}

/// `continue_end` finds the end of a run of line continuation whitespace.
pub proof fn lemma_continue_end(src: Seq<char>, i: int, p: int)
    requires
        0 <= i <= p <= src.len(),
        forall|k: int| i <= k < p ==> is_continue_whitespace(#[trigger] src[k]),
        p < src.len() ==> !is_continue_whitespace(src[p]),
    ensures
        continue_end(src, i) == p,
    decreases p - i,
{
    if i < p {
        lemma_continue_end(src, i + 1, p);
    }
}

/// Calls `char::from_u32`, which returns the character whose scalar value is
/// `v`, or `None` when `v` is no Unicode scalar value.
#[verifier::external_body]
pub(crate) fn char_from_u32(v: u32) -> (c: Option<char>)
    ensures
        c is Some <==> is_unicode_scalar(v as int),
        c matches Some(ch) ==> ch == (v as char),
{
    char::from_u32(v)
}

/// The first index from `i` on that holds no `#`.
pub open spec fn pound_end(src: Seq<char>, i: int) -> int
    decreases src.len() - i,
{
    if i < 0 || i >= src.len() || src[i] != '#' {
        i
    } else {
        pound_end(src, i + 1)
    }
}

/// `n` characters `#` start at `k`.
pub open spec fn pounds_at(src: Seq<char>, k: int, n: int) -> bool {
    &&& 0 <= k
    &&& k + n <= src.len()
    &&& forall|t: int| k <= t < k + n ==> #[trigger] src[t] == '#'
}

/// The index of the `"` that closes the contents of a raw string (followed by
/// `pounds` characters `#`), scanning from `i` on. A carriage return must be
/// followed by a line feed; raw byte strings hold ASCII only.
pub open spec fn raw_close(src: Seq<char>, i: int, pounds: int, ascii_only: bool) -> Option<int>
    decreases src.len() - i,
{
    if i < 0 || i >= src.len() {
        None
    } else if src[i] == '"' && pounds_at(src, i + 1, pounds) {
        Some(i)
    } else if src[i] == '\r' && !(i + 1 < src.len() && src[i + 1] == '\n') {
        None
    } else if ascii_only && !is_ascii(src[i]) {
        None
    } else {
        raw_close(src, i + 1, pounds, ascii_only)
    }
}

/// Characters `#` inside raw contents are skipped over.
pub proof fn lemma_raw_close_skip(src: Seq<char>, i: int, j: int, pounds: int, ascii_only: bool)
    requires
        0 <= i <= j <= src.len(),
        forall|t: int| i <= t < j ==> #[trigger] src[t] == '#',
    ensures
        raw_close(src, i, pounds, ascii_only) == raw_close(src, j, pounds, ascii_only),
    decreases j - i,
{
    if i < j {
        lemma_raw_close_skip(src, i + 1, j, pounds, ascii_only);
    }
}

/// `pound_end` finds the end of a run of `#`.
pub proof fn lemma_pound_end(src: Seq<char>, i: int, p: int)
    requires
        0 <= i <= p <= src.len(),
        forall|t: int| i <= t < p ==> #[trigger] src[t] == '#',
        p < src.len() ==> src[p] != '#',
    ensures
        pound_end(src, i) == p,
    decreases p - i,
{
    if i < p {
        lemma_pound_end(src, i + 1, p);
    }
}

/// The closing quote of raw contents lies within the source, after the start.
pub proof fn lemma_raw_close_range(src: Seq<char>, i: int, pounds: int, ascii_only: bool)
    ensures
        raw_close(src, i, pounds, ascii_only) matches Some(c) ==> 0 <= i <= c < src.len(),
    decreases src.len() - i,
{
    if 0 <= i < src.len() {
        lemma_raw_close_range(src, i + 1, pounds, ascii_only);
    }
}
} // verus!
