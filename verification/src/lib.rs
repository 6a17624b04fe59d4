//! A reader of SIP-like requests from a stream of bytes.
//!
//! Bytes are decoded as UTF-8 by a [`decoder::Decoder`], which may be fed a
//! stream in chunks cut at any offset. A [`text_reader::TextReader`] draws
//! the chunks from a byte source and hands out characters, lines and runs of
//! text with one character of lookahead. A [`sip_parser::SipParser`] reads a
//! request from such a reader: a request line, headers up to a blank line,
//! and a body.
//!
//! Each type has a mathematical view, and each operation states what it
//! returns and how it changes the view:
//!
//! * a decoder is viewed as its [`decoder::DecoderState`], and decoding is
//!   the function [`decoder::decoded`] of a state and a sequence of bytes;
//! * a reader and a parser are viewed as the text that they have yet to
//!   hand out;
//! * a request is viewed as a [`sip_parser::RequestModel`], and
//!   [`sip_parser::parse`] says which request a text holds.
//!
//! The byte source is a `BufReader` of the standard library. What is taken
//! on trust of it stands in [`source`].
pub mod chars;
pub mod decoder;
pub mod sip_parser;
pub mod source;
pub mod text_reader;
