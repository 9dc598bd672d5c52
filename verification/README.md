# rsn

Rsn ("Rusty notation") is a UTF-8 text format that follows Rust's lexical
rules. This crate reads and writes it, and every part of that logic is
verified with Verus.

## Layout

- `src/text.rs`: characters, UTF-8 lengths and offsets, and the few calls
  into `std` that the library makes.
- `src/tokenizer.rs` (with `char_iterator`, `integer` and `lexeme`): the
  tokenizer. Each token it returns is stated to read as its kind from the
  characters it covers, and to end where its literal ends: numbers run as
  far as their digits go, a line comment to the end of its line, a block
  comment to where its nesting closes, whitespace to the next other
  character. Where a token that reads without error starts (punctuation,
  strings, characters, bytes, identifiers and raw identifiers, decimal and
  floating point numbers whose integer part fits, radix numbers up to
  `usize::MAX`, raw strings, line comments, closed block comments, and
  whitespace in the full tokenizer), that token is stated to be returned; a
  lone `0` does not end before a radix prefix; a number too large for its
  kind is stated to give an `IntegerTooLarge` error; a character that starts
  no token is stated to give an `Unexpected` error at that character; and
  when only whitespace is left, a tokenizer that skips it returns `None`.
- `src/parser.rs` (with `grammar`): the event parser over tokens. `grammar`
  states, as spec functions, the state machine that reads events from the
  tokenizer's reads; each call of `Parser::next`, and `Parser::validate`, is
  stated over it. It holds the law that whether comments are included does
  not steer the grammar, so that over the same reads a parser that leaves
  comments out gives the outcomes of one that includes them, without the
  comments.
- `src/value.rs` (with `convert` and `read_back`): `Value`, reading one from
  text, and building values from, and reading values out of, the parts of
  the serde data model. `read_back` holds the laws that the text the writer
  renders for a scalar value reads back as the same value.
- `src/writer.rs`: the writer, whose output is stated exactly (`render`),
  together with the laws that the literals it writes read back through the
  tokenizer and hold no control characters.
- `src/ser.rs` and `src/de.rs`: the serializer and deserializer steps that a
  serde `Serializer` and `Deserializer` are built from.
- `app/`: the serde trait implementations, conversions of floating point
  numbers, and I/O, around the verified library.
- `tests/`: tests of the library on concrete values.
