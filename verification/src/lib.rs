//! Variable-length integer codec for a binary network protocol.
//!
//! A signed 32-bit integer (VarInt) or signed 64-bit integer (VarLong) is
//! sent as a sequence of bytes, each carrying seven bits of the value's
//! two's-complement bit pattern, least-significant group first. The top bit
//! of a byte says whether another group follows.
//!
//! * [`format`] defines the wire format as mathematical functions on byte
//!   sequences and proves its laws.
//! * [`varint`] holds the readers and writers, verified against that format.
//! * [`utils`] holds the sign-handling helpers.
//! * [`stream`] is the boundary to the byte source and sink.

pub mod format;
pub mod stream;
pub mod utils;
pub mod varint;
