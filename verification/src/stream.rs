//! The byte source and the byte sink.
//!
//! Values are read from a `std::io::BufReader` over a byte slice and written
//! to a `Vec<u8>`, one byte at a time, through the `byteorder` crate. Nothing
//! in this file is proved: each contract records what the function behind it
//! is documented to do.

use vstd::prelude::*;
use byteorder::ReadBytesExt;
use byteorder::WriteBytesExt;

verus! {

/// `std::io::BufReader`, carried through as an opaque value.
#[verifier::external_type_specification]
#[verifier::external_body]
#[verifier::reject_recursive_types(R)]
pub struct ExBufReader<R: ?Sized>(std::io::BufReader<R>);

/// `std::io::Error`, carried through as an opaque value.
#[verifier::external_type_specification]
#[verifier::external_body]
pub struct ExIoError(std::io::Error);

/// The bytes that `reader` has yet to hand out, in the order in which it will:
/// what it holds in its buffer, then what is left of the slice below it.
pub uninterp spec fn unread(reader: std::io::BufReader<&[u8]>) -> Seq<u8>;

/// `byteorder::ReadBytesExt::read_u8` on a buffered reader over a slice.
///
/// It asks the reader for exactly one byte. While a byte is left, that byte is
/// the result and the reader has moved past it. At the end of the slice the
/// call fails and the reader stays at the end.
#[verifier::external_body]
pub(crate) fn next_byte(reader: &mut std::io::BufReader<&[u8]>) -> (outcome: Result<
    u8,
    std::io::Error,
>)
    ensures
        unread(*old(reader)).len() > 0 ==> outcome is Ok && outcome->Ok_0 == unread(
            *old(reader),
        )[0] && unread(*final(reader)) == unread(*old(reader)).skip(1),
        unread(*old(reader)).len() == 0 ==> outcome is Err && unread(*final(reader)).len() == 0,
{
    reader.read_u8()
}

/// `byteorder::WriteBytesExt::write_u8` on a vector.
///
/// It writes the one byte with `write_all`. A vector takes what is written to
/// it by appending it and grows as needed, so the call succeeds and the byte
/// stands at the end of the vector afterwards.
#[verifier::external_body]
pub(crate) fn put_byte(sink: &mut Vec<u8>, byte: u8) -> (outcome: Result<(), std::io::Error>)
    ensures
        outcome is Ok,
        final(sink)@ == old(sink)@.push(byte),
{
    sink.write_u8(byte)
}

/// `std::io::BufReader::new` on a slice.
///
/// The new reader has read nothing yet: all of `bytes` is still to come.
#[verifier::external_body]
pub(crate) fn reader_over<'a>(bytes: &'a [u8]) -> (reader: std::io::BufReader<&'a [u8]>)
    ensures
        unread(reader) == bytes@,
{
    std::io::BufReader::new(bytes)
}

} // verus!
