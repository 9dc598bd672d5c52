use vstd::prelude::*;

use crate::writer::{
    self, advanced, separator, two_space_config, two_space_layout, MapState, NestedState, Primitive,
    Writer,
};

verus! {

/// How a [`Serializer`] writes.
#[derive(Debug)]
pub struct Config {
    /// The layout of the text.
    pub writer: writer::Config,
    /// Writes the fields of a root structure as an implicit map: `key: value`
    /// lines without the name and braces.
    pub implicit_map_at_root: bool,
}

impl Default for Config {
    fn default() -> (config: Self)
        ensures
            config.writer is Compact,
            !config.implicit_map_at_root,
    {
        Config { writer: writer::Config::Compact, implicit_map_at_root: false }
    }
}

impl Config {
    /// The pretty layout, indented by two spaces.
    pub fn pretty() -> (config: Self)
        ensures
            two_space_layout(config.writer),
            !config.implicit_map_at_root,
    {
        Config { writer: two_space_config(), implicit_map_at_root: false }
    }

    /// Sets [`Config::implicit_map_at_root`] and returns the result.
    pub fn implicit_map_at_root(self, implicit_map_at_root: bool) -> (config: Self)
        ensures
            config.writer == self.writer,
            config.implicit_map_at_root == implicit_map_at_root,
    {
        Config { writer: self.writer, implicit_map_at_root }
    }
}

/// Writes values as Rsn text, driven call by call as a serializer is.
pub struct Serializer {
    writer: Writer,
    implicit_map_at_root: bool,
}

impl Default for Serializer {
    fn default() -> (s: Self)
        ensures
            s.output() == Seq::<char>::empty(),
            s.levels() == Seq::<NestedState>::empty(),
            s.layout() is Compact,
            !s.implicit_pending(),
    {
        Serializer { writer: Writer::default(), implicit_map_at_root: false }
    }
}

impl Serializer {
    /// The text written so far.
    pub closed spec fn output(&self) -> Seq<char> {
        self.writer.output()
    }

    /// The nested values that are open, outermost first.
    pub closed spec fn levels(&self) -> Seq<NestedState> {
        self.writer.levels()
    }

    /// The layout the serializer follows.
    pub closed spec fn layout(&self) -> writer::Config {
        self.writer.layout()
    }

    /// No value has been written yet and the root structure is to be
    /// written as an implicit map.
    pub closed spec fn implicit_pending(&self) -> bool {
        self.implicit_map_at_root
    }

    /// Returns a serializer that appends to `output` as `config` says.
    pub fn new(output: String, config: &Config) -> (s: Self)
        ensures
            s.output() == output@,
            s.levels() == Seq::<NestedState>::empty(),
            writer::same_layout(s.layout(), config.writer),
            s.implicit_pending() == config.implicit_map_at_root,
    {
        Serializer {
            writer: Writer::new(output, &config.writer),
            implicit_map_at_root: config.implicit_map_at_root,
        }
    }

    /// Returns the text written, once every nested value has been finished.
    pub fn finish(self) -> (output: String)
        requires
            self.levels().len() == 0,
        ensures
            output@ == self.output(),
    {
        self.writer.finish()
    }

    /// Returns whether every nested value has been finished, as
    /// [`Serializer::finish`] requires.
    pub fn is_complete(&self) -> (b: bool)
        ensures
            b == (self.levels().len() == 0),
    {
        self.writer.is_complete()
    }

    /// Returns whether a nested value is open that can be ended now, as
    /// [`Serializer::finish_nested`] requires.
    pub fn can_finish_nested(&self) -> (b: bool)
        ensures
            b == (self.levels().len() > 0 && self.levels().last() != NestedState::Mapping(
                MapState::AfterKey,
            )),
    {
        self.writer.can_finish_nested()
    }

    /// Notes that a value has been written, so that no later structure is the
    /// root.
    fn mark_value_seen(&mut self)
        ensures
            final(self).writer == old(self).writer,
            !final(self).implicit_map_at_root,
    {
        self.implicit_map_at_root = false;
    }

    /// Writes the literal of `p` (serializing a boolean, an integer, a
    /// character, a string or bytes).
    pub fn serialize_primitive<P: Primitive + ?Sized>(&mut self, p: &P)
        ensures
            final(self).output() == old(self).output() + separator(
                old(self).layout(),
                old(self).levels(),
            ) + p.rendered(),
            final(self).levels() == advanced(old(self).levels()),
            final(self).layout() == old(self).layout(),
            !final(self).implicit_pending(),
    {
        self.mark_value_seen();
        self.writer.write_primitive(p);
    }

    /// Writes `text` as it is (serializing `None`, the unit value, a unit
    /// structure or a unit variant, or a floating point number's text).
    pub fn serialize_raw(&mut self, text: &str)
        ensures
            final(self).output() == old(self).output() + separator(
                old(self).layout(),
                old(self).levels(),
            ) + text@,
            final(self).levels() == advanced(old(self).levels()),
            final(self).layout() == old(self).layout(),
            !final(self).implicit_pending(),
    {
        self.mark_value_seen();
        self.writer.write_raw_value(text);
    }

    /// Starts the tuple named `name` (serializing `Some`, a newtype structure
    /// or variant, a tuple structure or a tuple variant).
    pub fn begin_named_tuple(&mut self, name: &str)
        ensures
            final(self).output() == old(self).output() + separator(
                old(self).layout(),
                old(self).levels(),
            ) + name@ + seq!['('],
            final(self).levels() == advanced(old(self).levels()).push(
                NestedState::Tuple(writer::SequenceState::Empty),
            ),
            final(self).layout() == old(self).layout(),
            !final(self).implicit_pending(),
    {
        self.mark_value_seen();
        self.writer.begin_named_tuple(name);
    }

    /// Starts a list (serializing a sequence).
    pub fn begin_list(&mut self)
        ensures
            final(self).output() == old(self).output() + separator(
                old(self).layout(),
                old(self).levels(),
            ) + seq!['['],
            final(self).levels() == advanced(old(self).levels()).push(
                NestedState::List(writer::SequenceState::Empty),
            ),
            final(self).layout() == old(self).layout(),
            !final(self).implicit_pending(),
    {
        self.mark_value_seen();
        self.writer.begin_list();
    }

    /// Starts a tuple (serializing a tuple).
    pub fn begin_tuple(&mut self)
        ensures
            final(self).output() == old(self).output() + separator(
                old(self).layout(),
                old(self).levels(),
            ) + seq!['('],
            final(self).levels() == advanced(old(self).levels()).push(
                NestedState::Tuple(writer::SequenceState::Empty),
            ),
            final(self).layout() == old(self).layout(),
            !final(self).implicit_pending(),
    {
        self.mark_value_seen();
        self.writer.begin_tuple();
    }

    /// Starts a map (serializing a map). Returns whether it is written as the
    /// implicit map at the root, which has no braces; if not, its opening
    /// brace is written.
    pub fn begin_map(&mut self) -> (is_implicit_map: bool)
        ensures
            is_implicit_map == old(self).implicit_pending(),
            !final(self).implicit_pending(),
            final(self).layout() == old(self).layout(),
            is_implicit_map ==> final(self).output() == old(self).output() && final(self).levels()
                == old(self).levels(),
            !is_implicit_map ==> final(self).output() == old(self).output() + separator(
                old(self).layout(),
                old(self).levels(),
            ) + seq!['{'] && final(self).levels() == advanced(old(self).levels()).push(
                NestedState::Mapping(MapState::Empty),
            ),
    {
        let is_implicit_map = self.implicit_map_at_root;
        self.mark_value_seen();
        if !is_implicit_map {
            self.writer.begin_map();
        }
        is_implicit_map
    }

    /// Writes what precedes a map value: in an implicit map, `": "`; a map
    /// in braces writes its colon with the value.
    pub fn begin_map_value(&mut self, is_implicit_map: bool)
        ensures
            final(self).output() == old(self).output() + (if is_implicit_map {
                separator(old(self).layout(), old(self).levels()) + seq![':', ' ']
            } else {
                seq![]
            }),
            final(self).levels() == if is_implicit_map {
                advanced(old(self).levels())
            } else {
                old(self).levels()
            },
            final(self).layout() == old(self).layout(),
            final(self).implicit_pending() == old(self).implicit_pending(),
    {
        if is_implicit_map {
            self.writer.write_raw_value(": ");
            proof {
                reveal_strlit(": ");
            }
        } else {
            assert(self.writer.output() =~= old(self).writer.output() + Seq::<char>::empty());
        }
    }

    /// Ends a map entry: in an implicit map, with a line break.
    pub fn end_map_value(&mut self, is_implicit_map: bool)
        ensures
            final(self).output() == old(self).output() + (if is_implicit_map {
                writer::line_break(old(self).layout(), old(self).levels().len())
            } else {
                seq![]
            }),
            final(self).levels() == old(self).levels(),
            final(self).layout() == old(self).layout(),
            final(self).implicit_pending() == old(self).implicit_pending(),
    {
        self.end_struct_field(is_implicit_map);
    }

    /// Starts the map of the structure variant `variant`. A structure
    /// variant is no root structure: what it holds is written in full.
    pub fn begin_struct_variant(&mut self, variant: &str)
        ensures
            final(self).output() == old(self).output() + separator(
                old(self).layout(),
                old(self).levels(),
            ) + variant@ + (if old(self).layout() is Pretty {
                seq![' ']
            } else {
                seq![]
            }) + seq!['{'],
            final(self).levels() == advanced(old(self).levels()).push(
                NestedState::Mapping(MapState::Empty),
            ),
            final(self).layout() == old(self).layout(),
            !final(self).implicit_pending(),
    {
        self.mark_value_seen();
        self.writer.begin_named_map(variant);
    }

    /// Ends the innermost nested value.
    pub fn finish_nested(&mut self)
        requires
            old(self).levels().len() > 0,
            old(self).levels().last() != NestedState::Mapping(MapState::AfterKey),
        ensures
            final(self).output() == old(self).output() + writer::closing(
                old(self).layout(),
                old(self).levels(),
            ),
            final(self).levels() == old(self).levels().drop_last(),
            final(self).layout() == old(self).layout(),
            final(self).implicit_pending() == old(self).implicit_pending(),
    {
        self.writer.finish_nested();
    }

    /// Starts the structure named `name`. Returns whether it is written as
    /// the implicit map at the root, which has no name and no braces; if not,
    /// its name and opening brace are written.
    pub fn begin_struct(&mut self, name: &str) -> (is_implicit_map: bool)
        ensures
            is_implicit_map == old(self).implicit_pending(),
            !final(self).implicit_pending(),
            final(self).layout() == old(self).layout(),
            is_implicit_map ==> final(self).output() == old(self).output() && final(self).levels()
                == old(self).levels(),
            !is_implicit_map ==> final(self).output() == old(self).output() + separator(
                old(self).layout(),
                old(self).levels(),
            ) + name@ + (if old(self).layout() is Pretty {
                seq![' ']
            } else {
                seq![]
            }) + seq!['{'] && final(self).levels() == advanced(old(self).levels()).push(
                NestedState::Mapping(MapState::Empty),
            ),
    {
        let is_implicit_map = self.implicit_map_at_root;
        self.mark_value_seen();
        if !is_implicit_map {
            self.writer.begin_named_map(name);
        }
        is_implicit_map
    }

    /// Writes the key of a structure's field; in an implicit map, followed by
    /// `": "`.
    pub fn begin_struct_field(&mut self, key: &str, is_implicit_map: bool)
        ensures
            final(self).output() == old(self).output() + separator(
                old(self).layout(),
                old(self).levels(),
            ) + key@ + (if is_implicit_map {
                separator(old(self).layout(), advanced(old(self).levels())) + seq![':', ' ']
            } else {
                seq![]
            }),
            final(self).levels() == if is_implicit_map {
                advanced(advanced(old(self).levels()))
            } else {
                advanced(old(self).levels())
            },
            final(self).layout() == old(self).layout(),
            final(self).implicit_pending() == old(self).implicit_pending(),
    {
        self.writer.write_raw_value(key);
        if is_implicit_map {
            self.writer.write_raw_value(": ");
            proof {
                reveal_strlit(": ");
            }
        }
    }

    /// Ends a structure's field: in an implicit map, with a line break.
    pub fn end_struct_field(&mut self, is_implicit_map: bool)
        ensures
            final(self).output() == old(self).output() + (if is_implicit_map {
                writer::line_break(old(self).layout(), old(self).levels().len())
            } else {
                seq![]
            }),
            final(self).levels() == old(self).levels(),
            final(self).layout() == old(self).layout(),
            final(self).implicit_pending() == old(self).implicit_pending(),
    {
        if is_implicit_map {
            self.writer.insert_newline();
        } else {
            assert(self.writer.output() =~= old(self).writer.output() + Seq::<char>::empty());
        }
    }

    /// Ends a structure: its closing brace, unless it is the implicit map.
    pub fn end_struct(&mut self, is_implicit_map: bool)
        requires
            !is_implicit_map ==> old(self).levels().len() > 0 && old(self).levels().last()
                != NestedState::Mapping(MapState::AfterKey),
        ensures
            final(self).output() == old(self).output() + (if is_implicit_map {
                seq![]
            } else {
                writer::closing(old(self).layout(), old(self).levels())
            }),
            final(self).levels() == if is_implicit_map {
                old(self).levels()
            } else {
                old(self).levels().drop_last()
            },
            final(self).layout() == old(self).layout(),
            final(self).implicit_pending() == old(self).implicit_pending(),
    {
        if !is_implicit_map {
            self.writer.finish_nested();
        } else {
            assert(self.writer.output() =~= old(self).writer.output() + Seq::<char>::empty());
        }
    }
}

} // verus!
