//! Incremental UTF-8 decoding.
//!
//! A [`Decoder`] turns a byte stream into characters one byte at a time and
//! remembers, between calls, how far into a multi-byte sequence it has come,
//! so the stream may be handed over in chunks cut at any offset.
//!
//! The decoding is permissive. A byte that cannot open a multi-byte sequence
//! stands for the code point of its own value, the bytes that follow a
//! leading byte are taken as continuation bytes whatever they look like, and
//! a finished code point that is no Unicode scalar value comes out as
//! [`REPLACEMENT`]. On well-formed UTF-8 the result is the encoded text
//! ([`lemma_decodes_utf8`]).
use vstd::prelude::*;
use vstd::utf8::*;

verus! {

/// The character put in place of a code point that is no Unicode scalar value.
pub const REPLACEMENT: char = '\u{FFFD}';

/// Where a decoder stands between two bytes of its input.
pub enum DecoderState {
    /// The next byte opens a sequence.
    Leading,
    /// A sequence is open: `acc` holds the payload bits read so far and
    /// `remaining` continuation bytes are still owed.
    Continuing { acc: u32, remaining: usize },
}

impl DecoderState {
    /// An open sequence owes between one and three continuation bytes.
    pub open spec fn valid(self) -> bool {
        match self {
            DecoderState::Leading => true,
            DecoderState::Continuing { acc, remaining } => 1 <= remaining <= 3,
        }
    }
}

/// Whether `code` is a Unicode scalar value, that is, the value of some `char`.
pub open spec fn is_scalar_value(code: u32) -> bool {
    code <= 0xD7FF || (0xE000 <= code <= 0x10FFFF)
}

/// The character emitted for a finished code point.
pub open spec fn to_char(code: u32) -> char {
    if is_scalar_value(code) {
        code as char
    } else {
        REPLACEMENT
    }
}

/// `char::from_u32` of the standard library, which this module relies on
/// without proof: it gives the character whose value is `i` when `i` is a
/// Unicode scalar value and `None` for a surrogate or a value past U+10FFFF.
pub assume_specification[ char::from_u32 ](i: u32) -> (r: Option<char>)
    ensures
        r == (if is_scalar_value(i) {
            Some(i as char)
        } else {
            None
        }),
;

/// Length in bytes of the sequence that `byte` opens, read off its top bits:
/// `11110xxx` opens four bytes, `1110xxxx` three, `110xxxxx` two, and every
/// other byte stands alone.
pub open spec fn sequence_len(byte: u8) -> nat {
    if 0xF0 <= byte <= 0xF7 {
        4
    } else if 0xE0 <= byte <= 0xEF {
        3
    } else if 0xC0 <= byte <= 0xDF {
        2
    } else {
        1
    }
}

/// The bits of a leading byte that carry payload in a sequence of `len` bytes.
pub open spec fn payload_mask(len: nat) -> u8 {
    if len == 4 {
        0x07
    } else if len == 3 {
        0x0F
    } else if len == 2 {
        0x1F
    } else {
        0xFF
    }
}

/// One byte of decoding: the state after `byte` and the character that
/// `byte` completes, if it completes one.
pub open spec fn step(state: DecoderState, byte: u8) -> (DecoderState, Option<char>) {
    match state {
        DecoderState::Leading => {
            let len = sequence_len(byte);
            let acc = (byte & payload_mask(len)) as u32;
            if len == 1 {
                (DecoderState::Leading, Some(to_char(acc)))
            } else {
                (DecoderState::Continuing { acc, remaining: (len - 1) as usize }, None)
            }
        },
        DecoderState::Continuing { acc, remaining } => {
            let acc = (acc << 6) | ((byte & 0x3F) as u32);
            if remaining <= 1 {
                (DecoderState::Leading, Some(to_char(acc)))
            } else {
                (DecoderState::Continuing { acc, remaining: (remaining - 1) as usize }, None)
            }
        },
    }
}

/// The state of a decoder that started in `state` and has read `bytes`.
pub open spec fn state_after(state: DecoderState, bytes: Seq<u8>) -> DecoderState
    decreases bytes.len(),
{
    if bytes.len() == 0 {
        state
    } else {
        step(state_after(state, bytes.drop_last()), bytes.last()).0
    }
}

/// The characters that a decoder started in `state` emits while it reads
/// `bytes`, in the order in which their sequences end.
pub open spec fn decoded(state: DecoderState, bytes: Seq<u8>) -> Seq<char>
    decreases bytes.len(),
{
    if bytes.len() == 0 {
        Seq::empty()
    } else {
        let earlier = decoded(state, bytes.drop_last());
        match step(state_after(state, bytes.drop_last()), bytes.last()).1 {
            Some(c) => earlier.push(c),
            None => earlier,
        }
    }
}

/// How many of `bytes` a decoder started in `state` reads when it may emit
/// at most `room` characters: it reads on until `room` characters are out or
/// the bytes have run out, whichever comes first.
pub open spec fn consumed(state: DecoderState, bytes: Seq<u8>, room: nat) -> nat
    decreases bytes.len(),
{
    if bytes.len() == 0 {
        0
    } else {
        let before = consumed(state, bytes.drop_last(), room);
        if before == bytes.len() - 1 && decoded(state, bytes.drop_last()).len() < room {
            bytes.len()
        } else {
            before
        }
    }
}

/// A byte adds at most one character, and a valid state stays valid.
pub proof fn lemma_decoded_bounds(state: DecoderState, bytes: Seq<u8>)
    ensures
        decoded(state, bytes).len() <= bytes.len(),
        state.valid() ==> state_after(state, bytes).valid(),
    decreases bytes.len(),
{
    if bytes.len() > 0 {
        lemma_decoded_bounds(state, bytes.drop_last());
    }
}

/// Decoding is resumable: reading `first` and then `second` leaves the same
/// state and emits the same characters as reading `first + second` in one
/// go, wherever the cut falls.
pub proof fn lemma_decode_split(state: DecoderState, first: Seq<u8>, second: Seq<u8>)
    ensures
        state_after(state, first + second) == state_after(state_after(state, first), second),
        decoded(state, first + second) == decoded(state, first) + decoded(
            state_after(state, first),
            second,
        ),
    decreases second.len(),
{
    if second.len() == 0 {
        assert(first + second =~= first);
        assert(decoded(state, first) + Seq::<char>::empty() =~= decoded(state, first));
    } else {
        lemma_decode_split(state, first, second.drop_last());
        assert((first + second).drop_last() =~= first + second.drop_last());
        let middle = state_after(state, first);
        match step(state_after(middle, second.drop_last()), second.last()).1 {
            Some(c) => {
                assert((decoded(state, first) + decoded(middle, second.drop_last())).push(c)
                    =~= decoded(state, first) + decoded(middle, second.drop_last()).push(c));
            },
            None => {},
        }
    }
}

/// Reading one byte and then `rest` is a step followed by the decoding of `rest`.
pub proof fn lemma_decode_first(state: DecoderState, byte: u8, rest: Seq<u8>)
    ensures
        state_after(state, seq![byte] + rest) == state_after(step(state, byte).0, rest),
        decoded(state, seq![byte] + rest) == (match step(state, byte).1 {
            Some(c) => seq![c] + decoded(step(state, byte).0, rest),
            None => decoded(step(state, byte).0, rest),
        }),
{
    let one = seq![byte];
    reveal_with_fuel(state_after, 2);
    reveal_with_fuel(decoded, 2);
    assert(one.drop_last() =~= Seq::<u8>::empty());
    assert(state_after(state, one) == step(state, byte).0);
    assert(decoded(state, one) =~= (match step(state, byte).1 {
        Some(c) => seq![c],
        None => Seq::<char>::empty(),
    }));
    lemma_decode_split(state, one, rest);
    assert(Seq::<char>::empty() + decoded(step(state, byte).0, rest) =~= decoded(
        step(state, byte).0,
        rest,
    ));
}

/// What bounds [`consumed`]: it never passes the end of the bytes, what is
/// read emits no more than `room` characters, and reading stops short of
/// the end only when `room` characters are out.
pub proof fn lemma_consumed_bounds(state: DecoderState, bytes: Seq<u8>, room: nat)
    ensures
        consumed(state, bytes, room) <= bytes.len(),
        decoded(state, bytes.take(consumed(state, bytes, room) as int)).len() <= room,
        consumed(state, bytes, room) < bytes.len() ==> decoded(
            state,
            bytes.take(consumed(state, bytes, room) as int),
        ).len() == room,
        bytes.len() <= room ==> consumed(state, bytes, room) == bytes.len(),
    decreases bytes.len(),
{
    if bytes.len() == 0 {
        assert(bytes.take(0) =~= bytes);
    } else {
        let shorter = bytes.drop_last();
        lemma_consumed_bounds(state, shorter, room);
        lemma_decoded_bounds(state, shorter);
        let before = consumed(state, shorter, room);
        assert(shorter.take(before as int) =~= bytes.take(before as int));
        if before == shorter.len() && decoded(state, shorter).len() < room {
            assert(bytes.take(bytes.len() as int) =~= bytes);
        } else if before == shorter.len() {
            assert(shorter.take(before as int) =~= shorter);
        }
    }
}

/// Two calls decode what one call decodes. Where each destination has room
/// for a character per byte, a call on `first` and then one on `second`
/// read every byte and write, one behind the other, the characters that a
/// single call on `first + second` writes, wherever the stream was cut.
pub proof fn lemma_split_calls(
    state: DecoderState,
    first: Seq<u8>,
    second: Seq<u8>,
    room_first: nat,
    room_second: nat,
)
    requires
        first.len() <= room_first,
        second.len() <= room_second,
    ensures
        consumed(state, first, room_first) == first.len(),
        consumed(state_after(state, first), second, room_second) == second.len(),
        consumed(state, first + second, room_first + room_second) == first.len() + second.len(),
        decoded(state, first) + decoded(state_after(state, first), second) == decoded(
            state,
            first + second,
        ),
        state_after(state_after(state, first), second) == state_after(state, first + second),
{
    lemma_consumed_bounds(state, first, room_first);
    lemma_consumed_bounds(state_after(state, first), second, room_second);
    lemma_consumed_bounds(state, first + second, room_first + room_second);
    lemma_decode_split(state, first, second);
}

/// Once `room` characters are out, bytes that follow are left unread.
proof fn lemma_consumed_full(state: DecoderState, bytes: Seq<u8>, room: nat, at: int)
    requires
        0 <= at <= bytes.len(),
        consumed(state, bytes.take(at), room) == at,
        decoded(state, bytes.take(at)).len() >= room,
    ensures
        consumed(state, bytes, room) == at,
    decreases bytes.len() - at,
{
    if at == bytes.len() {
        assert(bytes.take(at) =~= bytes);
    } else {
        let shorter = bytes.drop_last();
        assert(shorter.take(at) =~= bytes.take(at));
        lemma_consumed_full(state, shorter, room, at);
        if at == shorter.len() {
            assert(shorter.take(at) =~= shorter);
        }
    }
}

/// A byte that opens no multi-byte sequence is read on its own: it comes
/// out as the character of its own value and leaves the decoding of the
/// bytes behind it untouched.
pub proof fn lemma_stray_byte(byte: u8, rest: Seq<u8>)
    requires
        sequence_len(byte) == 1,
    ensures
        state_after(DecoderState::Leading, seq![byte] + rest) == state_after(
            DecoderState::Leading,
            rest,
        ),
        decoded(DecoderState::Leading, seq![byte] + rest) == seq![byte as char] + decoded(
            DecoderState::Leading,
            rest,
        ),
{
    lemma_decode_first(DecoderState::Leading, byte, rest);
    assert(byte & 0xFF == byte) by (bit_vector);
}

/// An incremental UTF-8 decoder.
pub struct Decoder {
    state: DecoderState,
}

impl View for Decoder {
    type V = DecoderState;

    closed spec fn view(&self) -> DecoderState {
        self.state
    }
}

impl Decoder {
    #[verifier::type_invariant]
    spec fn well_formed(self) -> bool {
        self.state.valid()
    }

    /// A decoder at the start of a stream.
    pub fn new() -> (decoder: Decoder)
        ensures
            decoder@ == DecoderState::Leading,
    {
        Decoder { state: DecoderState::Leading }
    }

    fn char_size(byte: u8) -> (len: usize)
        ensures
            len == sequence_len(byte),
    {
        if byte & 0xF8 == 0xF0 {
            assert(0xF0 <= byte <= 0xF7) by (bit_vector)
                requires
                    byte & 0xF8 == 0xF0,
            ;
            4
        } else if byte & 0xF0 == 0xE0 {
            assert(0xE0 <= byte <= 0xEF) by (bit_vector)
                requires
                    byte & 0xF0 == 0xE0,
            ;
            3
        } else if byte & 0xE0 == 0xC0 {
            assert(0xC0 <= byte <= 0xDF) by (bit_vector)
                requires
                    byte & 0xE0 == 0xC0,
            ;
            2
        } else {
            assert(!(0xC0 <= byte <= 0xF7)) by (bit_vector)
                requires
                    byte & 0xF8 != 0xF0,
                    byte & 0xF0 != 0xE0,
                    byte & 0xE0 != 0xC0,
            ;
            1
        }
    }

    fn leading_mask(len: usize) -> (mask: u8)
        ensures
            mask == payload_mask(len as nat),
    {
        if len == 4 {
            0x07
        } else if len == 3 {
            0x0F
        } else if len == 2 {
            0x1F
        } else {
            0xFF
        }
    }

    fn emit(code: u32) -> (c: char)
        ensures
            c == to_char(code),
    {
        match char::from_u32(code) {
            Some(c) => c,
            None => REPLACEMENT,
        }
    }

    fn advance(&mut self, byte: u8) -> (out: Option<char>)
        ensures
            (final(self)@, out) == step(old(self)@, byte),
    {
        proof {
            use_type_invariant(&*self);
        }
        match self.state {
            DecoderState::Leading => {
                let len = Decoder::char_size(byte);
                let acc = (byte & Decoder::leading_mask(len)) as u32;
                if len == 1 {
                    Some(Decoder::emit(acc))
                } else {
                    self.state = DecoderState::Continuing { acc, remaining: len - 1 };
                    None
                }
            },
            DecoderState::Continuing { acc, remaining } => {
                let acc = (acc << 6) | ((byte & 0x3F) as u32);
                if remaining <= 1 {
                    self.state = DecoderState::Leading;
                    Some(Decoder::emit(acc))
                } else {
                    self.state = DecoderState::Continuing { acc, remaining: remaining - 1 };
                    None
                }
            },
        }
    }

    /// Decodes `bytes` into the front of `chars` and returns how many
    /// characters were written.
    ///
    /// The decoder takes up where the last call left it. It reads
    /// [`consumed`] bytes: all of them when `chars` has room for one
    /// character per byte, and otherwise only as far as `chars` holds what
    /// comes out. The characters stand at the front of `chars` in the order
    /// in which they were completed; the rest of `chars` is as it was.
    pub fn get_chars(&mut self, bytes: &[u8], chars: &mut [char]) -> (count: usize)
        ensures
            ({
                let read = bytes@.take(consumed(old(self)@, bytes@, old(chars)@.len()) as int);
                &&& final(self)@ == state_after(old(self)@, read)
                &&& final(self)@.valid()
                &&& count == decoded(old(self)@, read).len()
                &&& count <= old(chars)@.len()
                &&& final(chars)@ == decoded(old(self)@, read) + old(chars)@.skip(count as int)
            }),
    {
        let ghost start = self@;
        let ghost room = chars@.len();
        let mut index: usize = 0;
        let mut i: usize = 0;
        proof {
            assert(bytes@.take(0) =~= Seq::<u8>::empty());
            assert(chars@.skip(0) =~= chars@);
        }
        while i < bytes.len() && index < chars.len()
            invariant
                i <= bytes@.len(),
                index <= room,
                room == old(chars)@.len(),
                chars@.len() == room,
                consumed(start, bytes@.take(i as int), room) == i,
                self@ == state_after(start, bytes@.take(i as int)),
                index == decoded(start, bytes@.take(i as int)).len(),
                chars@ == decoded(start, bytes@.take(i as int)) + old(chars)@.skip(index as int),
            decreases bytes@.len() - i,
        {
            let ghost before = bytes@.take(i as int);
            let ghost after = bytes@.take(i + 1);
            proof {
                assert(after.drop_last() =~= before);
                assert(after.last() == bytes@[i as int]);
            }
            match self.advance(bytes[i]) {
                Some(c) => {
                    chars[index] = c;
                    proof {
                        assert(chars@ =~= decoded(start, after) + old(chars)@.skip(index + 1));
                    }
                    index = index + 1;
                },
                None => {},
            }
            i = i + 1;
        }
        proof {
            use_type_invariant(&*self);
            if i == bytes@.len() {
                assert(bytes@.take(i as int) =~= bytes@);
            } else {
                lemma_consumed_full(start, bytes@, room, i as int);
            }
        }
        index
    }
}

/// The decoding of one well-formed sequence: it emits the scalar value that
/// the sequence encodes and leaves the decoder ready for the next one.
proof fn lemma_decodes_first_scalar(bytes: Seq<u8>)
    requires
        bytes.len() > 0,
        valid_first_scalar(bytes),
    ensures
        state_after(DecoderState::Leading, take_first_scalar(bytes)) == DecoderState::Leading,
        decoded(DecoderState::Leading, take_first_scalar(bytes)) == seq![
            decode_first_scalar(bytes) as char,
        ],
{
    let start = DecoderState::Leading;
    let head = take_first_scalar(bytes);
    let b0 = bytes[0];
    let none = Seq::<u8>::empty();
    if is_leading_byte_width_1(b0) {
        assert(head =~= seq![b0] + none);
        lemma_decode_first(start, b0, none);
        assert((b0 & 0xFF) as u32 == (b0 & 0x7F) as u32 && (b0 & 0x7F) as u32 <= 0x7F) by (bit_vector)
            requires
                b0 <= 0x7F,
        ;
    } else if is_leading_byte_width_2(b0) {
        let b1 = bytes[1];
        assert(head =~= seq![b0] + (seq![b1] + none));
        lemma_decode_first(start, b0, seq![b1] + none);
        lemma_decode_first(step(start, b0).0, b1, none);
        let code = codepoint_width_2(b0, b1);
        assert(code <= 0x7FF) by (bit_vector)
            requires
                code == ((b0 & 0x1F) as u32) << 6 | (b1 & 0x3F) as u32,
        ;
    } else if is_leading_byte_width_3(b0) {
        let b1 = bytes[1];
        let b2 = bytes[2];
        assert(head =~= seq![b0] + (seq![b1] + (seq![b2] + none)));
        lemma_decode_first(start, b0, seq![b1] + (seq![b2] + none));
        let s1 = step(start, b0).0;
        lemma_decode_first(s1, b1, seq![b2] + none);
        lemma_decode_first(step(s1, b1).0, b2, none);
        let code = codepoint_width_3(b0, b1, b2);
        let mine = ((((b0 & 0x0F) as u32) << 6 | (b1 & 0x3F) as u32) << 6) | (b2 & 0x3F) as u32;
        assert(mine == code && code <= 0xFFFF) by (bit_vector)
            requires
                code == ((b0 & 0x0F) as u32) << 12 | ((b1 & 0x3F) as u32) << 6 | (b2 & 0x3F) as u32,
                mine == ((((b0 & 0x0F) as u32) << 6 | (b1 & 0x3F) as u32) << 6) | (b2
                    & 0x3F) as u32,
        ;
    } else {
        let b1 = bytes[1];
        let b2 = bytes[2];
        let b3 = bytes[3];
        assert(head =~= seq![b0] + (seq![b1] + (seq![b2] + (seq![b3] + none))));
        lemma_decode_first(start, b0, seq![b1] + (seq![b2] + (seq![b3] + none)));
        let s1 = step(start, b0).0;
        lemma_decode_first(s1, b1, seq![b2] + (seq![b3] + none));
        let s2 = step(s1, b1).0;
        lemma_decode_first(s2, b2, seq![b3] + none);
        lemma_decode_first(step(s2, b2).0, b3, none);
        let code = codepoint_width_4(b0, b1, b2, b3);
        let mine = ((((((b0 & 0x07) as u32) << 6 | (b1 & 0x3F) as u32) << 6) | (b2
            & 0x3F) as u32) << 6) | (b3 & 0x3F) as u32;
        assert(mine == code) by (bit_vector)
            requires
                code == ((b0 & 0x07) as u32) << 18 | ((b1 & 0x3F) as u32) << 12 | ((b2
                    & 0x3F) as u32) << 6 | (b3 & 0x3F) as u32,
                mine == ((((((b0 & 0x07) as u32) << 6 | (b1 & 0x3F) as u32) << 6) | (b2
                    & 0x3F) as u32) << 6) | (b3 & 0x3F) as u32,
        ;
    }
}

/// On well-formed UTF-8 the decoder agrees with the definition of UTF-8: a
/// decoder at the start of a stream emits exactly the encoded characters
/// and ends ready for a new sequence.
pub proof fn lemma_decodes_utf8(bytes: Seq<u8>)
    requires
        valid_utf8(bytes),
    ensures
        state_after(DecoderState::Leading, bytes) == DecoderState::Leading,
        decoded(DecoderState::Leading, bytes) == decode_utf8(bytes),
    decreases bytes.len(),
{
    if bytes.len() > 0 {
        let head = take_first_scalar(bytes);
        let tail = pop_first_scalar(bytes);
        lemma_decodes_first_scalar(bytes);
        lemma_decodes_utf8(tail);
        assert(bytes =~= head + tail);
        lemma_decode_split(DecoderState::Leading, head, tail);
    }
}

/// Text survives the trip through its UTF-8 encoding and the decoder,
/// whatever mix of one- to four-byte characters it holds.
pub proof fn lemma_decodes_encoded_text(text: Seq<char>)
    ensures
        state_after(DecoderState::Leading, encode_utf8(text)) == DecoderState::Leading,
        decoded(DecoderState::Leading, encode_utf8(text)) == text,
{
    encode_utf8_valid_utf8(text);
    encode_utf8_decode_utf8(text);
    lemma_decodes_utf8(encode_utf8(text));
}

} // verus!
