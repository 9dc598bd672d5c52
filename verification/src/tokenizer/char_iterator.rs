use core::ops::Range;

use vstd::prelude::*;

use crate::text::{
    byte_len, byte_offset, chars_of, len_utf8, lemma_byte_offset_end, lemma_byte_offset_mono,
    lemma_byte_offset_step, string_from_range,
};

verus! {

/// A cursor over the characters of a source text that tracks the byte offsets
/// of the characters it hands out, and a marked starting point.
#[derive(Debug)]
pub struct CharIterator {
    chars: Vec<char>,
    pos: usize,
    offset: usize,
    last_offset: usize,
    marked_start: usize,
    marked_offset: usize,
}

impl CharIterator {
    /// The characters of the source.
    pub closed spec fn chars(&self) -> Seq<char> {
        self.chars@
    }

    /// The number of characters handed out so far.
    pub closed spec fn pos(&self) -> nat {
        self.pos as nat
    }

    /// The character index of the marked start.
    pub closed spec fn mark(&self) -> nat {
        self.marked_start as nat
    }

    pub closed spec fn wf(&self) -> bool {
        &&& self.pos <= self.chars@.len()
        &&& self.marked_start <= self.pos
        &&& byte_len(self.chars@) <= usize::MAX
        &&& self.offset == byte_offset(self.chars@, self.pos as int)
        &&& self.marked_offset == byte_offset(self.chars@, self.marked_start as int)
        &&& self.last_offset == (if self.pos > 0 {
            byte_offset(self.chars@, self.pos - 1)
        } else {
            0
        })
    }

    /// The iterator is internally consistent.
    pub open spec fn inv(&self) -> bool {
        &&& self.wf()
        &&& self.pos() <= self.chars().len()
        &&& self.mark() <= self.pos()
        &&& byte_len(self.chars()) <= usize::MAX
        &&& self.chars().len() <= usize::MAX
    }

    /// The byte offset of the `i`-th character of the source.
    pub open spec fn offset_of(&self, i: int) -> nat {
        byte_offset(self.chars(), i)
    }

    /// The next character, if any.
    pub open spec fn peek_spec(&self) -> Option<char> {
        if self.pos() < self.chars().len() {
            Some(self.chars()[self.pos() as int])
        } else {
            None
        }
    }

    /// Byte offsets of the source fit in `usize` and grow with the index.
    pub proof fn lemma_offsets(&self, i: int, j: int)
        requires
            self.inv(),
            0 <= i <= j <= self.chars().len(),
        ensures
            self.offset_of(i) <= self.offset_of(j) <= usize::MAX,
            j < self.chars().len() ==> self.offset_of(j + 1) == self.offset_of(j) + crate::text::char_width(
                self.chars()[j],
            ),
    {
        lemma_byte_offset_mono(self.chars(), i, j);
        lemma_byte_offset_mono(self.chars(), j, self.chars().len() as int);
        lemma_byte_offset_end(self.chars());
        if j < self.chars().len() {
            lemma_byte_offset_step(self.chars(), j);
        }
    }

    /// Starts iterating over the characters of `source`.
    pub fn new(source: &str) -> (it: Self)
        ensures
            it.inv(),
            it.chars() == source@,
            it.pos() == 0,
            it.mark() == 0,
    {
        let chars = chars_of(source);
        let _len = chars.len();
        proof {
            assert(chars@.take(0) =~= Seq::<char>::empty());
        }
        Self { chars, pos: 0, offset: 0, last_offset: 0, marked_start: 0, marked_offset: 0 }
    }

    /// The byte offset of the last character handed out, or 0 before the first.
    pub fn last_offset(&self) -> (offset: usize)
        requires
            self.inv(),
        ensures
            offset == (if self.pos() > 0 {
                self.offset_of(self.pos() - 1)
            } else {
                0
            }),
    {
        self.last_offset
    }

    /// The byte offset just past the last character handed out.
    pub fn current_offset(&self) -> (offset: usize)
        requires
            self.inv(),
        ensures
            offset == self.offset_of(self.pos() as int),
    {
        self.offset
    }

    /// Marks the current position as the start of the next range.
    pub fn mark_start(&mut self)
        requires
            old(self).inv(),
        ensures
            final(self).inv(),
            final(self).chars() == old(self).chars(),
            final(self).pos() == old(self).pos(),
            final(self).mark() == old(self).pos(),
    {
        self.marked_start = self.pos;
        self.marked_offset = self.offset;
    }

    /// The byte range from the marked start to the current offset.
    pub fn marked_range(&self) -> (range: Range<usize>)
        requires
            self.inv(),
        ensures
            range.start == self.offset_of(self.mark() as int),
            range.end == self.offset_of(self.pos() as int),
    {
        self.marked_start_offset()..self.offset
    }

    fn marked_start_offset(&self) -> (offset: usize)
        requires
            self.inv(),
        ensures
            offset == self.offset_of(self.mark() as int),
    {
        self.marked_offset
    }

    /// The text from the marked start to the current position.
    pub fn marked_str(&self) -> (text: String)
        requires
            self.inv(),
        ensures
            text@ == self.chars().subrange(self.mark() as int, self.pos() as int),
    {
        string_from_range(&self.chars, self.marked_start, self.pos)
    }

    /// The text of the characters `start..end` of the source.
    pub fn substring(&self, start: usize, end: usize) -> (text: String)
        requires
            self.inv(),
            start <= end <= self.chars().len(),
        ensures
            text@ == self.chars().subrange(start as int, end as int),
    {
        string_from_range(&self.chars, start, end)
    }

    /// The byte range of the last character handed out, or `0..0` before the first.
    pub fn last_char_range(&self) -> (range: Range<usize>)
        requires
            self.inv(),
        ensures
            self.pos() > 0 ==> range.start == self.offset_of(self.pos() - 1) && range.end
                == self.offset_of(self.pos() as int),
            self.pos() == 0 ==> range.start == 0 && range.end == 0,
    {
        if self.pos > 0 {
            self.last_offset..self.offset
        } else {
            0..0
        }
    }

    /// The number of characters handed out so far.
    pub fn position(&self) -> (pos: usize)
        requires
            self.inv(),
        ensures
            pos == self.pos(),
    {
        self.pos
    }

    /// The character index of the marked start.
    pub fn marked_position(&self) -> (mark: usize)
        requires
            self.inv(),
        ensures
            mark == self.mark(),
    {
        self.marked_start
    }

    /// The number of characters in the source.
    pub fn source_len(&self) -> (len: usize)
        requires
            self.inv(),
        ensures
            len == self.chars().len(),
    {
        self.chars.len()
    }

    /// The `i`-th character of the source.
    pub fn char_at(&self, i: usize) -> (ch: char)
        requires
            self.inv(),
            i < self.chars().len(),
        ensures
            ch == self.chars()[i as int],
    {
        self.chars[i]
    }

    /// Hands out the next character along with its byte offset.
    pub fn next_char_and_index(&mut self) -> (next: Option<(usize, char)>)
        requires
            old(self).inv(),
        ensures
            final(self).inv(),
            final(self).chars() == old(self).chars(),
            final(self).mark() == old(self).mark(),
            old(self).pos() < old(self).chars().len() ==> {
                &&& final(self).pos() == old(self).pos() + 1
                &&& next == Some(
                    (
                        old(self).offset_of(old(self).pos() as int) as usize,
                        old(self).chars()[old(self).pos() as int],
                    ),
                )
            },
            old(self).pos() >= old(self).chars().len() ==> final(self).pos() == old(self).pos()
                && next.is_none(),
    {
        if self.pos < self.chars.len() {
            let ch = self.chars[self.pos];
            let start = self.offset;
            proof {
                self.lemma_offsets(self.pos as int, self.pos as int);
                self.lemma_offsets(self.pos as int, self.pos + 1);
            }
            let width = len_utf8(ch);
            self.last_offset = start;
            self.offset = start + width;
            self.pos = self.pos + 1;
            Some((start, ch))
        } else {
            None
        }
    }

    /// The next character, without handing it out.
    pub fn peek(&mut self) -> (ch: Option<char>)
        requires
            old(self).inv(),
        ensures
            *final(self) == *old(self),
            ch == old(self).peek_spec(),
    {
        match self.peek_full() {
            Some((_, ch)) => Some(ch),
            None => None,
        }
    }

    /// The next character along with its byte offset, without handing it out.
    pub fn peek_full(&mut self) -> (next: Option<(usize, char)>)
        requires
            old(self).inv(),
        ensures
            *final(self) == *old(self),
            old(self).pos() < old(self).chars().len() ==> next == Some(
                (
                    old(self).offset_of(old(self).pos() as int) as usize,
                    old(self).chars()[old(self).pos() as int],
                ),
            ),
            old(self).pos() >= old(self).chars().len() ==> next.is_none(),
    {
        if self.pos < self.chars.len() {
            Some((self.offset, self.chars[self.pos]))
        } else {
            None
        }
    }

    /// Hands out the next character.
    pub fn next(&mut self) -> (ch: Option<char>)
        requires
            old(self).inv(),
        ensures
            final(self).inv(),
            final(self).chars() == old(self).chars(),
            final(self).mark() == old(self).mark(),
            ch == old(self).peek_spec(),
            ch.is_some() ==> final(self).pos() == old(self).pos() + 1,
            ch.is_none() ==> final(self).pos() == old(self).pos(),
    {
        match self.next_char_and_index() {
            Some((_, ch)) => Some(ch),
            None => None,
        }
    }
}

} // verus!
