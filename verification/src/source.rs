//! The byte source of a reader: a `BufReader` of the standard library over
//! a slice of bytes, seen through the two calls that drain it.
//!
//! The verifier does not look inside a `BufReader`. What this module says
//! of it is taken on trust from the documentation of `std::io::BufRead`,
//! and is stated over two names for what a source holds: [`unread`] and
//! [`held`].
use std::io::BufRead;
use std::io::BufReader;
use vstd::prelude::*;

verus! {

/// `std::io::BufReader`, known to the verifier by name only.
#[verifier::external_type_specification]
#[verifier::external_body]
#[verifier::reject_recursive_types(R)]
pub struct ExBufReader<R: ?Sized>(BufReader<R>);

/// The bytes that `source` has yet to hand out, in stream order: what its
/// `fill_buf` returns, call after call, with each chunk marked as read,
/// until it returns an empty chunk or fails. Bytes that a source would
/// never hand out in this way are no part of it.
pub uninterp spec fn unread(source: &BufReader<&[u8]>) -> Seq<u8>;

/// How many of the unread bytes `source` holds in its buffer, ready to be
/// marked as read.
pub uninterp spec fn held(source: &BufReader<&[u8]>) -> nat;

/// `BufReader::new` on a slice.
///
/// Trusted: the new source has all of `bytes` yet to hand out.
#[verifier::external_body]
pub(crate) fn over<'a>(bytes: &'a [u8]) -> (source: BufReader<&'a [u8]>)
    ensures
        unread(&source) == bytes@,
{
    BufReader::new(bytes)
}

/// `BufRead::fill_buf` on a reader over a slice; an I/O error comes back as
/// `None`.
///
/// Trusted: the call hands out the front of the unread bytes and marks none
/// of them as read; the bytes handed out are those that the source then holds;
/// and a source hands out an empty chunk, or fails, only at the end of its
/// stream.
#[verifier::external_body]
pub(crate) fn fill<'a, 'b>(source: &'b mut BufReader<&'a [u8]>) -> (chunk: Option<&'b [u8]>)
    ensures
        unread(final(source)) == unread(old(source)),
        match chunk {
            Some(bytes) => {
                &&& bytes@.len() == held(final(source))
                &&& bytes@.len() <= unread(old(source)).len()
                &&& bytes@ == unread(old(source)).take(bytes@.len() as int)
                &&& bytes@.len() == 0 ==> unread(old(source)).len() == 0
            },
            None => unread(old(source)).len() == 0,
        },
{
    source.fill_buf().ok()
}

/// `BufRead::consume` on a reader over a slice.
///
/// Trusted: the first `amount` of the bytes that the source holds are marked
/// as read and will not be handed out again; the others stay in order.
#[verifier::external_body]
pub(crate) fn consume<'a>(source: &mut BufReader<&'a [u8]>, amount: usize)
    requires
        amount <= held(old(source)),
    ensures
        unread(final(source)) == unread(old(source)).skip(amount as int),
        held(final(source)) == held(old(source)) - amount,
{
    source.consume(amount)
}

} // verus!
