//! The wire format: a value's bit pattern cut into groups of seven bits, the
//! least-significant group first, each group in a byte of its own whose top
//! bit says whether another group follows.

use vstd::prelude::*;
use vstd::arithmetic::power2::pow2;
use vstd::arithmetic::power2::lemma2_to64;
use vstd::arithmetic::power2::lemma2_to64_rest;
use vstd::arithmetic::power2::lemma_pow2_adds;
use vstd::arithmetic::power2::lemma_pow2_pos;
use vstd::arithmetic::power2::lemma_pow2_strictly_increases;
use crate::utils::bits32;
use crate::utils::bits64;
use crate::utils::signed32;
use crate::utils::signed64;
use crate::utils::span32;
use crate::utils::span64;
use crate::utils::lemma_pattern32;
use crate::utils::lemma_pattern64;
use crate::varint::VarIntReadError;

verus! {

/// Mask of the seven data bits of a byte.
pub const SEGMENT_BITS: u8 = 0x7F;

/// The bit of a byte that announces a further group.
pub const CONTINUE_BIT: u8 = 0x80;

/// Most groups that a 32-bit value takes.
pub const VARINT_MAX_GROUPS: u8 = 5;

/// Most groups that a 64-bit value takes.
pub const VARLONG_MAX_GROUPS: u8 = 10;

/// The group sequence of the unsigned value `n`: seven bits per byte from the
/// low end, the continuation bit set on every byte but the last, and no group
/// after the one that holds the highest set bit.
pub open spec fn groups(n: nat) -> Seq<u8>
    decreases n,
{
    if n < 128 {
        seq![n as u8]
    } else {
        seq![(n % 128 + 128) as u8] + groups(n / 128)
    }
}

/// The unsigned value that the data bits of `bytes` spell: the group at index
/// `i` stands at bit offset `7 * i`. Continuation bits play no part.
pub open spec fn payload(bytes: Seq<u8>) -> nat
    decreases bytes.len(),
{
    if bytes.len() == 0 {
        0
    } else {
        payload(bytes.drop_last()) + (bytes.last() % 128) as nat * pow2(
            (7 * (bytes.len() - 1)) as nat,
        )
    }
}

/// How many bytes at the start of `bytes` have the continuation bit set.
pub open spec fn continued(bytes: Seq<u8>) -> nat
    decreases bytes.len(),
{
    if bytes.len() > 0 && bytes[0] >= 128 {
        1 + continued(bytes.skip(1))
    } else {
        0
    }
}

/// What a decoder that accepts at most `max_groups` groups makes of a stream
/// that holds `bytes` and then ends. It reads up to the first byte without a
/// continuation bit, which is the last group of the value. If `max_groups`
/// bytes in a row announce a successor the value is too long; if the stream
/// ends before the last group was seen, reading fails.
pub open spec fn decode(bytes: Seq<u8>, max_groups: nat) -> Result<nat, VarIntReadError> {
    let open_groups = continued(bytes);
    if open_groups >= max_groups {
        Err(VarIntReadError::VarIntTooLong)
    } else if open_groups >= bytes.len() {
        Err(VarIntReadError::ReadError)
    } else {
        Ok(payload(bytes.take((open_groups + 1) as int)))
    }
}

/// How many bytes of the stream the decoder of [`decode`] has taken when it stops.
pub open spec fn consumed(bytes: Seq<u8>, max_groups: nat) -> nat {
    let open_groups = continued(bytes);
    if open_groups >= max_groups {
        max_groups
    } else if open_groups >= bytes.len() {
        bytes.len()
    } else {
        open_groups + 1
    }
}

/// The bytes that stand for the 32-bit value `v` on the wire.
pub open spec fn varint_encoding(v: i32) -> Seq<u8> {
    groups(bits32(v))
}

/// The bytes that stand for the 64-bit value `v` on the wire.
pub open spec fn varlong_encoding(v: i64) -> Seq<u8> {
    groups(bits64(v))
}

/// The 32-bit value at the head of a stream that holds `bytes`, or the reason
/// why there is none. Data bits beyond the 32nd are dropped.
pub open spec fn varint_decoding(bytes: Seq<u8>) -> Result<i32, VarIntReadError> {
    match decode(bytes, VARINT_MAX_GROUPS as nat) {
        Ok(n) => Ok(signed32(n % span32())),
        Err(e) => Err(e),
    }
}

/// The 64-bit value at the head of a stream that holds `bytes`, or the reason
/// why there is none. Data bits beyond the 64th are dropped.
pub open spec fn varlong_decoding(bytes: Seq<u8>) -> Result<i64, VarIntReadError> {
    match decode(bytes, VARLONG_MAX_GROUPS as nat) {
        Ok(n) => Ok(signed64(n % span64())),
        Err(e) => Err(e),
    }
}

/// Each group weighs 128 times the one before it.
pub proof fn lemma_weight_step(i: nat)
    ensures
        pow2(7 * (i + 1)) == 128 * pow2(7 * i),
        pow2(7 * i) > 0,
{
    lemma2_to64();
    lemma_pow2_adds(7, 7 * i);
    lemma_pow2_pos(7 * i);
}

/// The weight of a group grows with its index.
pub proof fn lemma_weight_grows(i: nat, j: nat)
    requires
        i <= j,
    ensures
        pow2(7 * i) <= pow2(7 * j),
{
    if i < j {
        lemma_pow2_strictly_increases(7 * i, 7 * j);
    }
}

/// A further group at the end adds its data bits at the next offset.
pub proof fn lemma_payload_push(bytes: Seq<u8>, byte: u8)
    ensures
        payload(bytes.push(byte)) == payload(bytes) + (byte % 128) as nat * pow2(7 * bytes.len()),
{
    assert(bytes.push(byte).drop_last() == bytes);
}

/// `k` groups hold a value below `2^(7k)`.
pub proof fn lemma_payload_bound(bytes: Seq<u8>)
    ensures
        payload(bytes) < pow2(7 * bytes.len()),
    decreases bytes.len(),
{
    if bytes.len() == 0 {
        lemma_pow2_pos(0);
    } else {
        let rest = bytes.drop_last();
        let weight = pow2(7 * rest.len());
        let data = (bytes.last() % 128) as nat;
        lemma_payload_bound(rest);
        lemma_weight_step(rest.len());
        assert(data * weight <= 127 * weight) by (nonlinear_arith)
            requires
                data <= 127,
        ;
    }
}

/// A group at the front holds the low seven bits; the rest move up by seven.
pub proof fn lemma_payload_prepend(byte: u8, bytes: Seq<u8>)
    ensures
        payload(seq![byte] + bytes) == (byte % 128) as nat + 128 * payload(bytes),
    decreases bytes.len(),
{
    let whole = seq![byte] + bytes;
    if bytes.len() == 0 {
        assert(whole.drop_last() == Seq::<u8>::empty());
        assert(payload(whole.drop_last()) == 0);
        assert(payload(bytes) == 0);
        assert(whole.last() == byte);
        lemma2_to64();
        assert(payload(whole) == 0 + (byte % 128) as nat * pow2(0));
    } else {
        let rest = bytes.drop_last();
        let data = (bytes.last() % 128) as nat;
        let weight = pow2(7 * rest.len());
        assert(whole.drop_last() == seq![byte] + rest);
        assert(whole.last() == bytes.last());
        lemma_payload_prepend(byte, rest);
        lemma_weight_step(rest.len());
        assert(payload(bytes) == payload(rest) + data * weight);
        assert(payload(whole) == payload(seq![byte] + rest) + data * pow2(7 * (rest.len() + 1)));
        assert(data * (128 * weight) == 128 * (data * weight)) by (nonlinear_arith);
        assert(128 * (payload(rest) + data * weight) == 128 * payload(rest) + 128 * (data
            * weight)) by (nonlinear_arith);
        assert(payload(whole) == (byte % 128) as nat + 128 * payload(rest) + data * (128
            * weight));
    }
}

/// Where the first byte without a continuation bit stands.
pub proof fn lemma_continued_from_prefix(bytes: Seq<u8>, k: nat)
    requires
        k <= bytes.len(),
        forall|i: int| 0 <= i < k ==> bytes[i] >= 128,
    ensures
        continued(bytes) >= k,
        (k == bytes.len() || bytes[k as int] < 128) ==> continued(bytes) == k,
    decreases k,
{
    if k > 0 {
        let tail = bytes.skip(1);
        assert forall|i: int| 0 <= i < k - 1 implies tail[i] >= 128 by {
            assert(tail[i] == bytes[i + 1]);
        }
        lemma_continued_from_prefix(tail, (k - 1) as nat);
        if k < bytes.len() {
            assert(tail[k - 1] == bytes[k as int]);
        }
    }
}

/// The bytes that `continued` counts have the continuation bit set, and the
/// byte after them, if there is one, has not.
pub proof fn lemma_continued_bytes(bytes: Seq<u8>)
    ensures
        continued(bytes) <= bytes.len(),
        forall|i: int| 0 <= i < continued(bytes) ==> bytes[i] >= 128,
        continued(bytes) < bytes.len() ==> bytes[continued(bytes) as int] < 128,
    decreases bytes.len(),
{
    if bytes.len() > 0 && bytes[0] >= 128 {
        let tail = bytes.skip(1);
        lemma_continued_bytes(tail);
        assert forall|i: int| 0 <= i < continued(bytes) implies bytes[i] >= 128 by {
            if i > 0 {
                assert(tail[i - 1] == bytes[i]);
            }
        }
        if continued(bytes) < bytes.len() {
            assert(tail[continued(tail) as int] == bytes[continued(bytes) as int]);
        }
    }
}

/// The shape of a group sequence: every byte but the last announces a
/// successor, the last does not, and the data bits spell the value.
pub proof fn lemma_groups_shape(n: nat)
    ensures
        groups(n).len() >= 1,
        forall|i: int| 0 <= i < groups(n).len() - 1 ==> groups(n)[i] >= 128,
        groups(n).last() < 128,
        continued(groups(n)) == groups(n).len() - 1,
        payload(groups(n)) == n,
    decreases n,
{
    let g = groups(n);
    if n < 128 {
        assert(g.drop_last() == Seq::<u8>::empty());
        assert(payload(g.drop_last()) == 0);
        assert(g.last() == n as u8);
        lemma2_to64();
        assert(payload(g) == 0 + (g.last() % 128) as nat * pow2(0));
    } else {
        let head = (n % 128 + 128) as u8;
        let tail = groups(n / 128);
        lemma_groups_shape(n / 128);
        assert(g == seq![head] + tail);
        assert forall|i: int| 0 <= i < g.len() - 1 implies g[i] >= 128 by {
            if i > 0 {
                assert(g[i] == tail[i - 1]);
            }
        }
        assert(g.last() == tail.last());
        lemma_payload_prepend(head, tail);
        assert(head % 128 == n % 128);
        assert(payload(g) == n % 128 + 128 * (n / 128));
    }
    lemma_continued_from_prefix(g, (g.len() - 1) as nat);
}

/// The group sequence of `n` has the least length that can hold `n`: `k`
/// groups hold every value below `2^(7k)`, and `n` is too large for one group
/// fewer. No group of padding is ever part of it.
pub proof fn lemma_groups_length(n: nat)
    ensures
        groups(n).len() >= 1,
        n < pow2(7 * groups(n).len()),
        groups(n).len() > 1 ==> n >= pow2((7 * (groups(n).len() - 1)) as nat),
    decreases n,
{
    lemma2_to64();
    if n >= 128 {
        let tail = groups(n / 128);
        lemma_groups_length(n / 128);
        assert(groups(n).len() == tail.len() + 1);
        lemma_weight_step(tail.len());
        if tail.len() > 1 {
            lemma_weight_step((tail.len() - 1) as nat);
        }
    }
}

/// A value below `2^(7k)` takes at most `k` groups.
pub proof fn lemma_groups_fit(n: nat, k: nat)
    requires
        k >= 1,
        n < pow2(7 * k),
    ensures
        groups(n).len() <= k,
{
    lemma_groups_length(n);
    if groups(n).len() > k {
        lemma_weight_grows(k, (groups(n).len() - 1) as nat);
    }
}

/// The byte at index `i` of a group sequence holds bits `7i` to `7i + 6` of the
/// value, and its continuation bit is set if and only if it is not the last.
pub proof fn lemma_group_at(n: nat, i: nat)
    requires
        i < groups(n).len(),
    ensures
        groups(n)[i as int] as nat == (n / pow2(7 * i)) % 128 + if i + 1 < groups(n).len() {
            128nat
        } else {
            0nat
        },
    decreases n,
{
    lemma2_to64();
    if n < 128 {
        assert(groups(n)[0] == n as u8);
        assert(n / pow2(0) == n);
    } else {
        let head = (n % 128 + 128) as u8;
        let tail = groups(n / 128);
        assert(groups(n) == seq![head] + tail);
        if i == 0 {
            assert(groups(n)[0] == head);
            assert(n / pow2(0) == n);
        } else {
            let below = (i - 1) as nat;
            let weight = pow2(7 * below);
            lemma_group_at(n / 128, below);
            assert(groups(n)[i as int] == tail[below as int]);
            lemma_weight_step(below);
            vstd::arithmetic::div_mod::lemma_div_denominator(n as int, 128, weight as int);
            assert(7 * (below + 1) == 7 * i);
            assert((n / 128) / weight == n / pow2(7 * i));
        }
    }
}

/// A value that is not negative has the same encoding at both widths.
pub proof fn lemma_widths_agree(v: i32)
    requires
        v >= 0,
    ensures
        varlong_encoding(v as i64) == varint_encoding(v),
{
}

/// A negative 32-bit value takes all five groups, and its last group holds the
/// four highest bits of the pattern, the sign bit among them.
pub proof fn lemma_negative_varint(v: i32)
    requires
        v < 0,
    ensures
        varint_encoding(v).len() == 5,
        0x08 <= varint_encoding(v).last() <= 0x0F,
{
    let n = bits32(v);
    lemma2_to64();
    lemma2_to64_rest();
    lemma_groups_length(n);
    lemma_groups_fit(n, 5);
    if groups(n).len() < 5 {
        lemma_weight_grows(groups(n).len(), 4);
    }
    lemma_group_at(n, 4);
    assert(pow2(28) == 0x1000_0000);
    assert(8 <= n / 0x1000_0000 <= 15);
}

/// A negative 64-bit value takes all ten groups, and its last group holds the
/// sign bit alone.
pub proof fn lemma_negative_varlong(v: i64)
    requires
        v < 0,
    ensures
        varlong_encoding(v).len() == 10,
        varlong_encoding(v).last() == 0x01,
{
    let n = bits64(v);
    lemma2_to64();
    lemma2_to64_rest();
    lemma_pow2_adds(64, 6);
    lemma_groups_length(n);
    lemma_groups_fit(n, 10);
    if groups(n).len() < 10 {
        lemma_weight_grows(groups(n).len(), 9);
    }
    lemma_group_at(n, 9);
    assert(pow2(63) == 0x8000_0000_0000_0000);
    assert(n / 0x8000_0000_0000_0000 == 1);
}

/// Decoding the encoding of a 32-bit value `v` gives `v` again, and takes
/// every byte of it.
pub proof fn lemma_varint_round_trip(v: i32)
    ensures
        varint_decoding(varint_encoding(v)) == Ok::<i32, VarIntReadError>(v),
        consumed(varint_encoding(v), VARINT_MAX_GROUPS as nat) == varint_encoding(v).len(),
        1 <= varint_encoding(v).len() <= VARINT_MAX_GROUPS,
{
    let n = bits32(v);
    let g = groups(n);
    lemma_pattern32(v);
    lemma_groups_shape(n);
    lemma2_to64();
    lemma2_to64_rest();
    lemma_groups_fit(n, 5);
    assert(g.take(g.len() as int) == g);
    vstd::arithmetic::div_mod::lemma_small_mod(n, span32());
}

/// Decoding the encoding of a 64-bit value `v` gives `v` again, and takes
/// every byte of it.
pub proof fn lemma_varlong_round_trip(v: i64)
    ensures
        varlong_decoding(varlong_encoding(v)) == Ok::<i64, VarIntReadError>(v),
        consumed(varlong_encoding(v), VARLONG_MAX_GROUPS as nat) == varlong_encoding(v).len(),
        1 <= varlong_encoding(v).len() <= VARLONG_MAX_GROUPS,
{
    let n = bits64(v);
    let g = groups(n);
    lemma_pattern64(v);
    lemma_groups_shape(n);
    lemma2_to64();
    lemma2_to64_rest();
    lemma_pow2_adds(64, 6);
    lemma_groups_fit(n, 10);
    assert(g.take(g.len() as int) == g);
    vstd::arithmetic::div_mod::lemma_small_mod(n, span64());
}

/// No byte sequence that decodes to the 32-bit value `v` does so with fewer
/// bytes than the encoding of `v` has.
pub proof fn lemma_varint_encoding_shortest(bytes: Seq<u8>, v: i32)
    requires
        varint_decoding(bytes) == Ok::<i32, VarIntReadError>(v),
    ensures
        varint_encoding(v).len() <= consumed(bytes, VARINT_MAX_GROUPS as nat),
{
    let used = continued(bytes) + 1;
    let spelled = payload(bytes.take(used as int));
    lemma_payload_bound(bytes.take(used as int));
    lemma_pattern32(v);
    vstd::arithmetic::div_mod::lemma_mod_decreases(spelled, span32());
    assert(bits32(v) == spelled % span32());
    lemma_groups_fit(bits32(v), used);
}

/// No byte sequence that decodes to the 64-bit value `v` does so with fewer
/// bytes than the encoding of `v` has.
pub proof fn lemma_varlong_encoding_shortest(bytes: Seq<u8>, v: i64)
    requires
        varlong_decoding(bytes) == Ok::<i64, VarIntReadError>(v),
    ensures
        varlong_encoding(v).len() <= consumed(bytes, VARLONG_MAX_GROUPS as nat),
{
    let used = continued(bytes) + 1;
    let spelled = payload(bytes.take(used as int));
    lemma_payload_bound(bytes.take(used as int));
    lemma_pattern64(v);
    vstd::arithmetic::div_mod::lemma_mod_decreases(spelled, span64());
    assert(bits64(v) == spelled % span64());
    lemma_groups_fit(bits64(v), used);
}

/// A decoder for at most `max_groups` groups answers `VarIntTooLong` exactly
/// when the stream starts with `max_groups` bytes that all announce a
/// successor, whatever their data bits are and whatever follows.
pub proof fn lemma_overlong(bytes: Seq<u8>, max_groups: nat)
    ensures
        decode(bytes, max_groups) == Err::<nat, VarIntReadError>(VarIntReadError::VarIntTooLong)
            <==> (bytes.len() >= max_groups && forall|i: int|
            0 <= i < max_groups ==> bytes[i] >= 128),
{
    lemma_continued_bytes(bytes);
    if bytes.len() >= max_groups && forall|i: int| 0 <= i < max_groups ==> bytes[i] >= 128 {
        lemma_continued_from_prefix(bytes, max_groups);
    }
}

/// A decoder for at most `max_groups` groups answers `ReadError` exactly when
/// the stream ends before `max_groups` bytes were read and every byte read, if
/// any, announces a successor.
pub proof fn lemma_truncated(bytes: Seq<u8>, max_groups: nat)
    ensures
        decode(bytes, max_groups) == Err::<nat, VarIntReadError>(VarIntReadError::ReadError) <==> (
        bytes.len() < max_groups && forall|i: int| 0 <= i < bytes.len() ==> bytes[i] >= 128),
{
    lemma_continued_bytes(bytes);
    if forall|i: int| 0 <= i < bytes.len() ==> bytes[i] >= 128 {
        lemma_continued_from_prefix(bytes, bytes.len());
    }
}

/// Reading a VarInt fails with `VarIntTooLong` exactly when the first five
/// bytes all announce a successor, and with `ReadError` exactly when the stream
/// ends within its first four bytes without a byte that announces none.
pub proof fn lemma_varint_failures(bytes: Seq<u8>)
    ensures
        varint_decoding(bytes) == Err::<i32, VarIntReadError>(VarIntReadError::VarIntTooLong)
            <==> (bytes.len() >= 5 && forall|i: int| 0 <= i < 5 ==> bytes[i] >= 128),
        varint_decoding(bytes) == Err::<i32, VarIntReadError>(VarIntReadError::ReadError) <==> (
        bytes.len() < 5 && forall|i: int| 0 <= i < bytes.len() ==> bytes[i] >= 128),
{
    lemma_overlong(bytes, 5);
    lemma_truncated(bytes, 5);
}

/// Reading a VarLong fails with `VarIntTooLong` exactly when the first ten
/// bytes all announce a successor, and with `ReadError` exactly when the stream
/// ends within its first nine bytes without a byte that announces none.
pub proof fn lemma_varlong_failures(bytes: Seq<u8>)
    ensures
        varlong_decoding(bytes) == Err::<i64, VarIntReadError>(VarIntReadError::VarIntTooLong)
            <==> (bytes.len() >= 10 && forall|i: int| 0 <= i < 10 ==> bytes[i] >= 128),
        varlong_decoding(bytes) == Err::<i64, VarIntReadError>(VarIntReadError::ReadError) <==> (
        bytes.len() < 10 && forall|i: int| 0 <= i < bytes.len() ==> bytes[i] >= 128),
{
    lemma_overlong(bytes, 10);
    lemma_truncated(bytes, 10);
}

/// Once a decoder has its answer, bytes that follow in the stream do not
/// change it: a value or `VarIntTooLong` found at the head of `bytes` is found
/// at the head of `bytes + rest` as well, after as many bytes.
pub proof fn lemma_decided_by_head(bytes: Seq<u8>, rest: Seq<u8>, max_groups: nat)
    requires
        decode(bytes, max_groups) != Err::<nat, VarIntReadError>(VarIntReadError::ReadError),
    ensures
        decode(bytes + rest, max_groups) == decode(bytes, max_groups),
        consumed(bytes + rest, max_groups) == consumed(bytes, max_groups),
{
    let open_groups = continued(bytes);
    let longer = bytes + rest;
    lemma_continued_bytes(bytes);
    if open_groups >= max_groups {
        lemma_continued_from_prefix(longer, max_groups);
    } else {
        assert(longer[open_groups as int] == bytes[open_groups as int]);
        lemma_continued_from_prefix(longer, open_groups);
        assert(longer.take((open_groups + 1) as int) == bytes.take((open_groups + 1) as int));
    }
}

} // verus!
