//! Readers and writers for VarInt and VarLong values.

use vstd::prelude::*;
use vstd::arithmetic::power2::pow2;
use crate::format::groups;
use crate::format::lemma_continued_from_prefix;
use crate::format::lemma_payload_bound;
use crate::format::lemma_payload_push;
use crate::format::lemma_weight_grows;
use crate::format::payload;
use crate::format::varint_decoding;
use crate::format::varint_encoding;
use crate::format::varlong_decoding;
use crate::format::varlong_encoding;
use crate::format::consumed;
use crate::format::CONTINUE_BIT;
use crate::format::SEGMENT_BITS;
use crate::format::VARINT_MAX_GROUPS;
use crate::format::VARLONG_MAX_GROUPS;
use crate::stream::next_byte;
use crate::stream::put_byte;
use crate::stream::reader_over;
use crate::stream::unread;
use crate::utils::bits32;
use crate::utils::bits64;
use crate::utils::bitshift_i32_with_sign;
use crate::utils::bitshift_i64_with_sign;
use crate::utils::lemma_pattern32;
use crate::utils::lemma_pattern64;
use crate::utils::lemma_reinterpret32;
use crate::utils::lemma_reinterpret64;
use crate::utils::span32;
use crate::utils::span64;

verus! {

/// Why a value could not be read.
#[derive(Clone, Copy, Debug, PartialEq, Eq, Structural)]
pub enum VarIntReadError {
    /// The byte source gave no byte although the value was not complete.
    ReadError,
    /// More groups announced a successor than the width of the value allows.
    VarIntTooLong,
}

/// Why a value could not be written.
#[derive(Clone, Copy, Debug, PartialEq, Eq, Structural)]
pub enum VarIntWriteError {
    /// The byte sink did not take a byte.
    WriteError,
}

/// A byte and its two parts: the data bits and the continuation bit.
proof fn lemma_byte_parts(byte: u8)
    ensures
        byte & SEGMENT_BITS == byte % 128,
        (byte & CONTINUE_BIT == 0) == (byte < 128),
{
    assert(byte & 0x7F == byte % 128) by (bit_vector);
    assert((byte & 0x80 == 0) == (byte < 128)) by (bit_vector);
}

/// Setting seven data bits above a 32-bit accumulator that is still empty
/// there adds them at that offset; what passes the 32nd bit is lost.
proof fn lemma_place32(acc: u32, data: u32, position: u32)
    requires
        position <= 28,
        data < 128,
        acc < pow2(position as nat),
    ensures
        (acc | (data << position)) as nat == (acc + data * pow2(position as nat)) % (span32() as int),
{
    vstd::bits::lemma_u32_pow2_no_overflow(position as nat);
    vstd::bits::lemma_u32_shl_is_mul(1, position);
    assert((acc | (data << position)) == (acc + data * (1u32 << position)) % 0x1_0000_0000)
        by (bit_vector)
        requires
            position <= 28,
            data < 128,
            acc < (1u32 << position),
    ;
}

/// Setting seven data bits above a 64-bit accumulator that is still empty
/// there adds them at that offset; what passes the 64th bit is lost.
proof fn lemma_place64(acc: u64, data: u64, position: u64)
    requires
        position <= 63,
        data < 128,
        acc < pow2(position as nat),
    ensures
        (acc | (data << position)) as nat == (acc + data * pow2(position as nat)) % (span64() as int),
{
    vstd::bits::lemma_u64_pow2_no_overflow(position as nat);
    vstd::bits::lemma_u64_shl_is_mul(1, position);
    assert((acc | (data << position)) == (acc + data * (1u64 << position))
        % 0x1_0000_0000_0000_0000) by (bit_vector)
        requires
            position <= 63,
            data < 128,
            acc < (1u64 << position),
    ;
}

/// What one more byte makes of the value read so far: the data bits of
/// `stream[count]` come on top of the `count` groups before it.
proof fn lemma_next_group(stream: Seq<u8>, count: int)
    requires
        0 <= count < stream.len(),
    ensures
        payload(stream.take(count + 1)) == payload(stream.take(count)) + (stream[count]
            % 128) as nat * pow2((7 * count) as nat),
        payload(stream.take(count)) < pow2((7 * count) as nat),
        payload(stream.take(count + 1)) < pow2((7 * (count + 1)) as nat),
        stream.skip(count).skip(1) == stream.skip(count + 1),
        stream.skip(count)[0] == stream[count],
{
    let before = stream.take(count);
    assert(stream.take(count + 1) == before.push(stream[count]));
    lemma_payload_push(before, stream[count]);
    lemma_payload_bound(before);
    lemma_payload_bound(stream.take(count + 1));
}

/// Reads a VarInt from `reader` and leaves the reader behind the bytes read.
///
/// The result is the 32-bit value at the head of the bytes that the reader
/// has left, whether or not it is written with the fewest groups. It is
/// `VarIntTooLong` if the first five bytes all announce a successor, and
/// `ReadError` if the bytes end before a last group was read. The reader has
/// moved past the groups of the value and no further; after `VarIntTooLong`
/// past five bytes, after `ReadError` to the end.
pub fn read_varint_from(reader: &mut std::io::BufReader<&[u8]>) -> (outcome: Result<
    i32,
    VarIntReadError,
>)
    ensures
        outcome == varint_decoding(unread(*old(reader))),
        unread(*final(reader)) == unread(*old(reader)).skip(
            consumed(unread(*old(reader)), VARINT_MAX_GROUPS as nat) as int,
        ),
{
    let ghost stream = unread(*reader);
    let mut value: u32 = 0;
    let mut position: u8 = 0;
    loop
        invariant
            stream == unread(*old(reader)),
            position % 7 == 0,
            position <= 28,
            position / 7 <= stream.len(),
            unread(*reader) == stream.skip((position / 7) as int),
            forall|i: int| 0 <= i < position / 7 ==> stream[i] >= 128,
            value as nat == payload(stream.take((position / 7) as int)),
        decreases 35 - position,
    {
        let ghost count = (position / 7) as int;
        let current_byte: u8 = match next_byte(reader) {
            Ok(byte) => byte,
            Err(_) => {
                proof {
                    lemma_continued_from_prefix(stream, count as nat);
                    assert(unread(*reader) == stream.skip(stream.len() as int));
                }
                return Err(VarIntReadError::ReadError);
            },
        };
        proof {
            lemma_byte_parts(current_byte);
            lemma_next_group(stream, count);
            lemma_place32(value, (current_byte & SEGMENT_BITS) as u32, position as u32);
            vstd::arithmetic::power2::lemma2_to64();
            if count < 4 {
                lemma_weight_grows((count + 1) as nat, 4);
                vstd::arithmetic::div_mod::lemma_small_mod(
                    payload(stream.take(count + 1)),
                    span32(),
                );
            }
        }
        value |= ((current_byte & SEGMENT_BITS) as u32) << position;
        position += 7;
        if current_byte & CONTINUE_BIT == 0 {
            proof {
                lemma_continued_from_prefix(stream, count as nat);
                lemma_reinterpret32(value);
            }
            return Ok(#[verifier::truncate] (value as i32));
        }
        if position >= 32 {
            proof {
                lemma_continued_from_prefix(stream, 5);
            }
            return Err(VarIntReadError::VarIntTooLong);
        }
    }
}

/// Reads a VarLong from `reader` and leaves the reader behind the bytes read.
///
/// The result is the 64-bit value at the head of the bytes that the reader
/// has left, whether or not it is written with the fewest groups. It is
/// `VarIntTooLong` if the first ten bytes all announce a successor, and
/// `ReadError` if the bytes end before a last group was read. The reader has
/// moved past the groups of the value and no further; after `VarIntTooLong`
/// past ten bytes, after `ReadError` to the end.
pub fn read_varlong_from(reader: &mut std::io::BufReader<&[u8]>) -> (outcome: Result<
    i64,
    VarIntReadError,
>)
    ensures
        outcome == varlong_decoding(unread(*old(reader))),
        unread(*final(reader)) == unread(*old(reader)).skip(
            consumed(unread(*old(reader)), VARLONG_MAX_GROUPS as nat) as int,
        ),
{
    let ghost stream = unread(*reader);
    let mut value: u64 = 0;
    let mut position: u8 = 0;
    loop
        invariant
            stream == unread(*old(reader)),
            position % 7 == 0,
            position <= 63,
            position / 7 <= stream.len(),
            unread(*reader) == stream.skip((position / 7) as int),
            forall|i: int| 0 <= i < position / 7 ==> stream[i] >= 128,
            value as nat == payload(stream.take((position / 7) as int)),
        decreases 70 - position,
    {
        let ghost count = (position / 7) as int;
        let current_byte: u8 = match next_byte(reader) {
            Ok(byte) => byte,
            Err(_) => {
                proof {
                    lemma_continued_from_prefix(stream, count as nat);
                    assert(unread(*reader) == stream.skip(stream.len() as int));
                }
                return Err(VarIntReadError::ReadError);
            },
        };
        proof {
            lemma_byte_parts(current_byte);
            lemma_next_group(stream, count);
            lemma_place64(value, (current_byte & SEGMENT_BITS) as u64, position as u64);
            vstd::arithmetic::power2::lemma2_to64();
            vstd::arithmetic::power2::lemma2_to64_rest();
            if count < 9 {
                lemma_weight_grows((count + 1) as nat, 9);
                vstd::arithmetic::div_mod::lemma_small_mod(
                    payload(stream.take(count + 1)),
                    span64(),
                );
            }
        }
        value |= ((current_byte & SEGMENT_BITS) as u64) << position;
        position += 7;
        if current_byte & CONTINUE_BIT == 0 {
            proof {
                lemma_continued_from_prefix(stream, count as nat);
                lemma_reinterpret64(value);
            }
            return Ok(#[verifier::truncate] (value as i64));
        }
        if position >= 64 {
            proof {
                lemma_continued_from_prefix(stream, 10);
            }
            return Err(VarIntReadError::VarIntTooLong);
        }
    }
}

/// Reads a VarInt from `reader`, which is given up with the call.
///
/// The result is the 32-bit value at the head of the bytes that the reader
/// has left, whether or not it is written with the fewest groups. It is
/// `VarIntTooLong` if the first five bytes all announce a successor, and
/// `ReadError` if the bytes end before a last group was read.
pub fn read_varint_bufreader(reader: std::io::BufReader<&[u8]>) -> (outcome: Result<
    i32,
    VarIntReadError,
>)
    ensures
        outcome == varint_decoding(unread(reader)),
{
    let mut source = reader;
    read_varint_from(&mut source)
}

/// Reads a VarLong from `reader`, which is given up with the call.
///
/// The result is the 64-bit value at the head of the bytes that the reader
/// has left, whether or not it is written with the fewest groups. It is
/// `VarIntTooLong` if the first ten bytes all announce a successor, and
/// `ReadError` if the bytes end before a last group was read.
pub fn read_varlong_bufreader(reader: std::io::BufReader<&[u8]>) -> (outcome: Result<
    i64,
    VarIntReadError,
>)
    ensures
        outcome == varlong_decoding(unread(reader)),
{
    let mut source = reader;
    read_varlong_from(&mut source)
}

/// The VarInt at the head of `bytes`, or the reason why there is none.
pub fn decode_varint(bytes: &[u8]) -> (outcome: Result<i32, VarIntReadError>)
    ensures
        outcome == varint_decoding(bytes@),
{
    let mut source = reader_over(bytes);
    read_varint_from(&mut source)
}

/// The VarLong at the head of `bytes`, or the reason why there is none.
pub fn decode_varlong(bytes: &[u8]) -> (outcome: Result<i64, VarIntReadError>)
    ensures
        outcome == varlong_decoding(bytes@),
{
    let mut source = reader_over(bytes);
    read_varlong_from(&mut source)
}

/// The low byte of a 32-bit pattern, as the next group of its encoding.
proof fn lemma_group32(pattern: u32)
    ensures
        (pattern & !0x7Fu32 == 0) == (pattern < 128),
        pattern < 128 ==> pattern as u8 == pattern,
        ((pattern as u8) & 0x7F) | 0x80 == pattern % 128 + 128,
{
    assert((pattern & !0x7Fu32 == 0) == (pattern < 128)) by (bit_vector);
    assert(pattern < 128 ==> pattern as u8 == pattern) by (bit_vector);
    assert(((pattern as u8) & 0x7F) | 0x80 == pattern % 128 + 128) by (bit_vector);
}

/// The low byte of a 64-bit pattern, as the next group of its encoding.
proof fn lemma_group64(pattern: u64)
    ensures
        (pattern & !0x7Fu64 == 0) == (pattern < 128),
        pattern < 128 ==> pattern as u8 == pattern,
        ((pattern as u8) & 0x7F) | 0x80 == pattern % 128 + 128,
{
    assert((pattern & !0x7Fu64 == 0) == (pattern < 128)) by (bit_vector);
    assert(pattern < 128 ==> pattern as u8 == pattern) by (bit_vector);
    assert(((pattern as u8) & 0x7F) | 0x80 == pattern % 128 + 128) by (bit_vector);
}

/// The bytes that stand for `value` as a VarInt: one to five groups, the
/// fewest that hold its bit pattern.
pub fn encode_varint(value: i32) -> (bytes: Vec<u8>)
    ensures
        bytes@ == varint_encoding(value),
{
    let mut bytes: Vec<u8> = Vec::new();
    let mut remaining: i32 = value;
    loop
        invariant
            bytes@ + groups(bits32(remaining)) == varint_encoding(value),
        decreases bits32(remaining),
    {
        let pattern: u32 = #[verifier::truncate] (remaining as u32);
        proof {
            lemma_pattern32(remaining);
            lemma_group32(pattern);
            vstd::arithmetic::power2::lemma2_to64();
        }
        if pattern & !(SEGMENT_BITS as u32) == 0 {
            bytes.push(#[verifier::truncate] (pattern as u8));
            return bytes;
        }
        let ghost sent = bytes@;
        let group: u8 = (#[verifier::truncate] (pattern as u8) & SEGMENT_BITS) | CONTINUE_BIT;
        bytes.push(group);
        let next: i32 = bitshift_i32_with_sign(remaining, 7);
        proof {
            assert(groups(bits32(remaining)) == seq![group] + groups(bits32(next)));
            assert(bytes@ + groups(bits32(next)) == sent + groups(bits32(remaining)));
        }
        remaining = next;
    }
}

/// The bytes that stand for `value` as a VarLong: one to ten groups, the
/// fewest that hold its bit pattern.
pub fn encode_varlong(value: i64) -> (bytes: Vec<u8>)
    ensures
        bytes@ == varlong_encoding(value),
{
    let mut bytes: Vec<u8> = Vec::new();
    let mut remaining: i64 = value;
    loop
        invariant
            bytes@ + groups(bits64(remaining)) == varlong_encoding(value),
        decreases bits64(remaining),
    {
        let pattern: u64 = #[verifier::truncate] (remaining as u64);
        proof {
            lemma_pattern64(remaining);
            lemma_group64(pattern);
            vstd::arithmetic::power2::lemma2_to64();
        }
        if pattern & !(SEGMENT_BITS as u64) == 0 {
            bytes.push(#[verifier::truncate] (pattern as u8));
            return bytes;
        }
        let ghost sent = bytes@;
        let group: u8 = (#[verifier::truncate] (pattern as u8) & SEGMENT_BITS) | CONTINUE_BIT;
        bytes.push(group);
        let next: i64 = bitshift_i64_with_sign(remaining, 7);
        proof {
            assert(groups(bits64(remaining)) == seq![group] + groups(bits64(next)));
            assert(bytes@ + groups(bits64(next)) == sent + groups(bits64(remaining)));
        }
        remaining = next;
    }
}

/// Hands `bytes` to the sink one by one, in order. It would stop at the first
/// byte that the sink does not take; a vector takes them all.
fn send(writer: &mut Vec<u8>, bytes: &Vec<u8>) -> (outcome: Result<(), VarIntWriteError>)
    ensures
        outcome is Ok,
        final(writer)@ == old(writer)@ + bytes@,
{
    let mut index: usize = 0;
    while index < bytes.len()
        invariant
            index <= bytes@.len(),
            writer@ == old(writer)@ + bytes@.take(index as int),
        decreases bytes@.len() - index,
    {
        match put_byte(writer, bytes[index]) {
            Ok(()) => {},
            Err(_) => {
                return Err(VarIntWriteError::WriteError);
            },
        }
        proof {
            assert(bytes@.take(index + 1) == bytes@.take(index as int).push(bytes@[index as int]));
        }
        index += 1;
    }
    proof {
        assert(bytes@.take(index as int) == bytes@);
    }
    Ok(())
}

/// Writes `value` to `writer` as a VarInt.
///
/// The encoding of `value`, one to five bytes, is appended to `writer`, and
/// the call succeeds whatever the value is.
pub fn write_varint_bufwriter(writer: &mut Vec<u8>, value: i32) -> (outcome: Result<
    (),
    VarIntWriteError,
>)
    ensures
        outcome is Ok,
        final(writer)@ == old(writer)@ + varint_encoding(value),
{
    let bytes: Vec<u8> = encode_varint(value);
    send(writer, &bytes)
}

/// Writes `value` to `writer` as a VarLong.
///
/// The encoding of `value`, one to ten bytes, is appended to `writer`, and
/// the call succeeds whatever the value is.
pub fn write_varlong_bufwriter(writer: &mut Vec<u8>, value: i64) -> (outcome: Result<
    (),
    VarIntWriteError,
>)
    ensures
        outcome is Ok,
        final(writer)@ == old(writer)@ + varlong_encoding(value),
{
    let bytes: Vec<u8> = encode_varlong(value);
    send(writer, &bytes)
}

} // verus!
