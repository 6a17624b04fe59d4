//! A character cursor over a byte source.
//!
//! A [`TextReader`] pulls chunks of bytes from its source, decodes them into
//! a buffer of fixed size and hands the characters out one at a time, with
//! one character of lookahead. Its view is the text that it has yet to hand
//! out; every operation is specified by what it takes off the front of that
//! text.
use crate::chars::{push_char, string_of};
use crate::decoder::{
    decoded, lemma_consumed_bounds, lemma_decode_split, lemma_decodes_encoded_text, Decoder,
    DecoderState,
};
use crate::source::{consume, fill, over, unread};
use std::io::BufReader;
use vstd::prelude::*;
use vstd::slice::slice_subrange;
use vstd::utf8::{char_is_scalar, encode_utf8};

verus! {

/// How many characters a reader decodes at a time.
pub const BUFFER_CAPACITY: usize = 8192;

/// What `read` and `peek` return at the end of the stream.
pub const END_OF_STREAM: i32 = -1;

/// The text that a fresh reader over `bytes` hands out.
pub open spec fn text_of(bytes: Seq<u8>) -> Seq<char> {
    decoded(DecoderState::Leading, bytes)
}

/// The character at the front of `stream`, if there is one.
pub open spec fn head(stream: Seq<char>) -> Option<char> {
    if stream.len() == 0 {
        None
    } else {
        Some(stream[0])
    }
}

/// The code of the character at the front of `stream`, or [`END_OF_STREAM`].
pub open spec fn front(stream: Seq<char>) -> i32 {
    match head(stream) {
        Some(c) => c as i32,
        None => END_OF_STREAM,
    }
}

/// `stream` without its first character.
pub open spec fn rest(stream: Seq<char>) -> Seq<char> {
    if stream.len() == 0 {
        stream
    } else {
        stream.drop_first()
    }
}

/// The length of the line terminator at the front of `stream`: one for a
/// line feed, two for a carriage return with a line feed behind it, zero
/// where no terminator stands. A carriage return alone is no terminator.
pub open spec fn terminator_len(stream: Seq<char>) -> nat {
    if stream.len() >= 1 && stream[0] == '\n' {
        1
    } else if stream.len() >= 2 && stream[0] == '\r' && stream[1] == '\n' {
        2
    } else {
        0
    }
}

/// The number of characters before the first line terminator of `stream`,
/// or before its end where it holds none.
pub open spec fn line_len(stream: Seq<char>) -> nat
    decreases stream.len(),
{
    if stream.len() == 0 || terminator_len(stream) > 0 {
        0
    } else {
        1 + line_len(stream.drop_first())
    }
}

/// The first line of `stream`, without its terminator.
pub open spec fn first_line(stream: Seq<char>) -> Seq<char> {
    stream.take(line_len(stream) as int)
}

/// What follows the first line of `stream` and its terminator.
pub open spec fn after_line(stream: Seq<char>) -> Seq<char> {
    let tail = stream.skip(line_len(stream) as int);
    tail.skip(terminator_len(tail) as int)
}

/// What a `read` does to a stream: the code it returns and the stream it leaves.
pub open spec fn read_step(stream: Seq<char>) -> (i32, Seq<char>) {
    (front(stream), rest(stream))
}

/// What a `peek` does to a stream: the code it returns and the stream it leaves.
pub open spec fn peek_step(stream: Seq<char>) -> (i32, Seq<char>) {
    (front(stream), stream)
}

/// Peeking does not move the stream. A `read` after a `peek` returns what
/// the `peek` returned and leaves the stream where a `read` alone would have
/// left it, and a second `peek` sees what the first one saw.
pub proof fn lemma_peek_then_read(stream: Seq<char>)
    ensures
        peek_step(stream).0 == read_step(stream).0,
        read_step(peek_step(stream).1) == read_step(stream),
        peek_step(peek_step(stream).1) == peek_step(stream),
{
}

/// The line ends within the stream, and the stream after it is shorter by
/// the line and its terminator.
pub proof fn lemma_line_bounds(stream: Seq<char>)
    ensures
        line_len(stream) <= stream.len(),
        line_len(stream) + terminator_len(stream.skip(line_len(stream) as int)) <= stream.len(),
        after_line(stream).len() == stream.len() - line_len(stream) - terminator_len(
            stream.skip(line_len(stream) as int),
        ),
        stream.len() > 0 ==> after_line(stream).len() < stream.len(),
        line_len(stream) < stream.len() ==> terminator_len(stream.skip(line_len(stream) as int))
            > 0,
        forall|i: int| 0 <= i < line_len(stream) ==> terminator_len(#[trigger] stream.skip(i)) == 0,
    decreases stream.len(),
{
    if stream.len() == 0 || terminator_len(stream) > 0 {
        assert(stream.skip(0) =~= stream);
    } else {
        let tail = stream.drop_first();
        lemma_line_bounds(tail);
        let n = line_len(tail);
        assert(tail.skip(n as int) =~= stream.skip(n as int + 1));
        assert forall|i: int| 0 <= i < line_len(stream) implies terminator_len(
            #[trigger] stream.skip(i),
        ) == 0 by {
            if i == 0 {
                assert(stream.skip(0) =~= stream);
            } else {
                assert(tail.skip(i - 1) =~= stream.skip(i));
            }
        }
    }
}

/// A reader over the UTF-8 encoding of `text` hands out `text`, whatever
/// mix of one- to four-byte characters it holds.
pub proof fn lemma_round_trip(text: Seq<char>)
    ensures
        text_of(encode_utf8(text)) == text,
{
    lemma_decodes_encoded_text(text);
}

/// The code of a character as `read` and `peek` report it.
fn code_of(c: char) -> (code: i32)
    ensures
        code == c as i32,
        code >= 0,
{
    proof {
        char_is_scalar(c);
    }
    c as u32 as i32
}

/// A reader of characters from a source of bytes.
///
/// The reader owns its source, a decoder and a buffer of
/// [`BUFFER_CAPACITY`] characters, which it fills anew whenever the cursor
/// has passed the last character in it.
pub struct TextReader<'a> {
    reader: BufReader<&'a [u8]>,
    decoder: Decoder,
    buffer: [char; BUFFER_CAPACITY],
    buffer_size: usize,
    position: usize,
}

impl<'a> View for TextReader<'a> {
    type V = Seq<char>;

    /// The text still to be handed out: what is left in the buffer, then
    /// what the unread bytes of the source decode to.
    closed spec fn view(&self) -> Seq<char> {
        self.buffer@.subrange(self.position as int, self.buffer_size as int) + decoded(
            self.decoder@,
            unread(&self.reader),
        )
    }
}

impl<'a> TextReader<'a> {
    /// The cursor stands within the filled part of the buffer.
    pub closed spec fn well_formed(&self) -> bool {
        self.position <= self.buffer_size <= BUFFER_CAPACITY
    }

    /// A reader at the start of what `reader` has yet to hand out.
    pub fn new(reader: BufReader<&'a [u8]>) -> (r: TextReader<'a>)
        ensures
            r.well_formed(),
            r@ == text_of(unread(&reader)),
    {
        let r = TextReader {
            reader,
            decoder: Decoder::new(),
            buffer: ['\0';BUFFER_CAPACITY],
            buffer_size: 0,
            position: 0,
        };
        proof {
            assert(r.buffer@.subrange(0, 0) =~= Seq::<char>::empty());
            assert(r@ =~= text_of(unread(&reader)));
        }
        r
    }

    /// A reader at the start of `bytes`.
    pub fn from_bytes(bytes: &'a [u8]) -> (r: TextReader<'a>)
        ensures
            r.well_formed(),
            r@ == text_of(bytes@),
    {
        TextReader::new(over(bytes))
    }

    /// Decodes chunks of the source into the buffer until a character is
    /// there or the source has ended; returns whether one is there.
    fn refill(&mut self) -> (filled: bool)
        requires
            old(self).well_formed(),
            old(self).position == old(self).buffer_size,
        ensures
            final(self).well_formed(),
            final(self)@ == old(self)@,
            filled == (old(self)@.len() > 0),
            filled ==> final(self).position < final(self).buffer_size,
    {
        proof {
            assert(self.buffer@.subrange(self.position as int, self.buffer_size as int)
                =~= Seq::<char>::empty());
        }
        loop
            invariant
                self.well_formed(),
                self.position == self.buffer_size,
                self@ == old(self)@,
                self@ == decoded(self.decoder@, unread(&self.reader)),
            decreases unread(&self.reader).len(),
        {
            let ghost before = unread(&self.reader);
            let ghost state = self.decoder@;
            let chunk = match fill(&mut self.reader) {
                Some(bytes) => bytes,
                None => {
                    return false;
                },
            };
            if chunk.len() == 0 {
                return false;
            }
            let taken = if chunk.len() < BUFFER_CAPACITY {
                chunk.len()
            } else {
                BUFFER_CAPACITY
            };
            let part = slice_subrange(chunk, 0, taken);
            let produced = self.decoder.get_chars(part, &mut self.buffer);
            consume(&mut self.reader, taken);
            self.position = 0;
            self.buffer_size = produced;
            proof {
                let after = unread(&self.reader);
                lemma_consumed_bounds(state, part@, BUFFER_CAPACITY as nat);
                assert(part@.take(part@.len() as int) =~= part@);
                assert(part@ =~= before.take(taken as int));
                assert(before =~= part@ + after);
                lemma_decode_split(state, part@, after);
                assert(self.buffer@.subrange(0, produced as int) =~= decoded(state, part@));
            }
            if produced > 0 {
                return true;
            }
        }
    }

    /// Takes the next character off the stream, if there is one.
    pub fn next_char(&mut self) -> (c: Option<char>)
        requires
            old(self).well_formed(),
        ensures
            final(self).well_formed(),
            c == head(old(self)@),
            final(self)@ == rest(old(self)@),
    {
        if self.position >= self.buffer_size {
            if !self.refill() {
                return None;
            }
        }
        let ghost before = self@;
        let c = self.buffer[self.position];
        self.position = self.position + 1;
        proof {
            assert(self@ =~= before.drop_first());
        }
        Some(c)
    }

    /// Looks at the next character of the stream without taking it.
    pub fn peek_char(&mut self) -> (c: Option<char>)
        requires
            old(self).well_formed(),
        ensures
            final(self).well_formed(),
            c == head(old(self)@),
            final(self)@ == old(self)@,
    {
        if self.position >= self.buffer_size {
            if !self.refill() {
                return None;
            }
        }
        Some(self.buffer[self.position])
    }

    /// Takes the next character off the stream and returns its code, or
    /// returns [`END_OF_STREAM`] when the stream has ended.
    pub fn read(&mut self) -> (code: i32)
        requires
            old(self).well_formed(),
        ensures
            final(self).well_formed(),
            (code, final(self)@) == read_step(old(self)@),
    {
        match self.next_char() {
            Some(c) => code_of(c),
            None => END_OF_STREAM,
        }
    }

    /// Returns what `read` would return and leaves the stream as it is, so
    /// that the next `read` returns the same.
    pub fn peek(&mut self) -> (code: i32)
        requires
            old(self).well_formed(),
        ensures
            final(self).well_formed(),
            (code, final(self)@) == peek_step(old(self)@),
    {
        match self.peek_char() {
            Some(c) => code_of(c),
            None => END_OF_STREAM,
        }
    }

    /// Takes the first line off the stream, with its terminator, and
    /// returns the characters of the line.
    pub fn line_chars(&mut self) -> (line: Vec<char>)
        requires
            old(self).well_formed(),
        ensures
            final(self).well_formed(),
            line@ == first_line(old(self)@),
            final(self)@ == after_line(old(self)@),
    {
        let ghost start = self@;
        let mut line: Vec<char> = Vec::new();
        proof {
            assert(start.skip(0) =~= start);
            assert(start.take(0) =~= Seq::<char>::empty());
        }
        loop
            invariant_except_break
                self.well_formed(),
                line@.len() + line_len(self@) == line_len(start),
                line@.len() <= start.len(),
                line@ == start.take(line@.len() as int),
                self@ == start.skip(line@.len() as int),
            ensures
                self.well_formed(),
                line@ == first_line(start),
                self@ == after_line(start),
            decreases self@.len(),
        {
            let ghost here = self@;
            let c = match self.next_char() {
                Some(c) => c,
                None => {
                    break;
                },
            };
            if c == '\n' {
                proof {
                    assert(here.skip(1) =~= self@);
                }
                break;
            }
            if c == '\r' {
                let next = self.peek_char();
                if next == Some('\n') {
                    let _ = self.next_char();
                    proof {
                        assert(here.skip(2) =~= self@);
                    }
                    break;
                }
            }
            proof {
                assert(terminator_len(here) == 0);
                assert(start.take(line@.len() as int).push(c) =~= start.take(line@.len() as int + 1));
                assert(self@ =~= start.skip(line@.len() as int + 1));
            }
            line.push(c);
        }
        line
    }

    /// Takes the first line off the stream, with its terminator, and
    /// returns the line.
    ///
    /// A line ends at a line feed, at a carriage return with a line feed
    /// behind it, or at the end of the stream. The terminator is no part of
    /// the line that is returned.
    pub fn read_line(&mut self) -> (line: String)
        requires
            old(self).well_formed(),
        ensures
            final(self).well_formed(),
            line@ == first_line(old(self)@),
            final(self)@ == after_line(old(self)@),
    {
        let chars = self.line_chars();
        string_of(chars.as_slice())
    }

    /// Takes all that is left off the stream and returns it.
    pub fn read_to_end(&mut self) -> (text: String)
        requires
            old(self).well_formed(),
        ensures
            final(self).well_formed(),
            text@ == old(self)@,
            final(self)@.len() == 0,
    {
        let ghost start = self@;
        let mut text = String::new();
        proof {
            assert(start.skip(0) =~= start);
        }
        loop
            invariant_except_break
                self.well_formed(),
                text@.len() <= start.len(),
                text@ == start.take(text@.len() as int),
                self@ == start.skip(text@.len() as int),
            ensures
                self.well_formed(),
                text@ == start,
                self@.len() == 0,
            decreases self@.len(),
        {
            let c = match self.next_char() {
                Some(c) => c,
                None => {
                    proof {
                        assert(start.take(start.len() as int) =~= start);
                    }
                    break;
                },
            };
            proof {
                assert(start.take(text@.len() as int).push(c) =~= start.take(text@.len() as int + 1));
                assert(self@ =~= start.skip(text@.len() as int + 1));
            }
            push_char(&mut text, c);
        }
        text
    }
}

} // verus!
