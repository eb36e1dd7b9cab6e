//! Bit patterns of signed integers and the logical right shift on them.

use vstd::prelude::*;
use vstd::arithmetic::power2::pow2;

verus! {

/// Number of unsigned values of 32 bits, `2^32`.
pub open spec fn span32() -> nat {
    0x1_0000_0000
}

/// Number of unsigned values of 64 bits, `2^64`.
pub open spec fn span64() -> nat {
    0x1_0000_0000_0000_0000
}

/// The two's-complement bit pattern of `v`, read as an unsigned number.
pub open spec fn bits32(v: i32) -> nat {
    if v >= 0 {
        v as nat
    } else {
        (v + span32()) as nat
    }
}

/// The two's-complement bit pattern of `v`, read as an unsigned number.
pub open spec fn bits64(v: i64) -> nat {
    if v >= 0 {
        v as nat
    } else {
        (v + span64()) as nat
    }
}

/// The signed integer whose two's-complement bit pattern is `n`, for `n < 2^32`.
pub open spec fn signed32(n: nat) -> i32
    recommends
        n < span32(),
{
    if n < 0x8000_0000 {
        n as i32
    } else {
        (n - span32()) as i32
    }
}

/// The signed integer whose two's-complement bit pattern is `n`, for `n < 2^64`.
pub open spec fn signed64(n: nat) -> i64
    recommends
        n < span64(),
{
    if n < 0x8000_0000_0000_0000 {
        n as i64
    } else {
        (n - span64()) as i64
    }
}

/// Reading a signed 32-bit integer as unsigned gives its bit pattern.
pub proof fn lemma_pattern32(v: i32)
    ensures
        (v as u32) as nat == bits32(v),
        bits32(v) < span32(),
        signed32(bits32(v)) == v,
{
    assert(v >= 0 ==> v as u32 == v) by (bit_vector);
    assert(v < 0 ==> v as u32 == v + 0x1_0000_0000) by (bit_vector);
}

/// Reading a signed 64-bit integer as unsigned gives its bit pattern.
pub proof fn lemma_pattern64(v: i64)
    ensures
        (v as u64) as nat == bits64(v),
        bits64(v) < span64(),
        signed64(bits64(v)) == v,
{
    assert(v >= 0 ==> v as u64 == v) by (bit_vector);
    assert(v < 0 ==> v as u64 == v + 0x1_0000_0000_0000_0000) by (bit_vector);
}

/// Reading an unsigned 32-bit integer as signed keeps its bit pattern.
pub proof fn lemma_reinterpret32(u: u32)
    ensures
        u as i32 == signed32(u as nat),
        bits32(u as i32) == u as nat,
{
    assert(u < 0x8000_0000 ==> u as i32 == u) by (bit_vector);
    assert(u >= 0x8000_0000 ==> u as i32 == u - 0x1_0000_0000) by (bit_vector);
}

/// Reading an unsigned 64-bit integer as signed keeps its bit pattern.
pub proof fn lemma_reinterpret64(u: u64)
    ensures
        u as i64 == signed64(u as nat),
        bits64(u as i64) == u as nat,
{
    assert(u < 0x8000_0000_0000_0000 ==> u as i64 == u) by (bit_vector);
    assert(u >= 0x8000_0000_0000_0000 ==> u as i64 == u - 0x1_0000_0000_0000_0000) by (bit_vector);
}

/// A bit pattern of `width` bits, shifted right by `width` places or more, is zero.
proof fn lemma_shifted_out(n: nat, width: nat, shift: nat)
    requires
        n < pow2(width),
        width <= shift,
    ensures
        n / pow2(shift) == 0,
{
    if width < shift {
        vstd::arithmetic::power2::lemma_pow2_strictly_increases(width, shift);
    }
    vstd::arithmetic::div_mod::lemma_basic_div(n as int, pow2(shift) as int);
}

/// Logical right shift of a signed 32-bit integer: the bit pattern of `val`
/// moves `bitshift` places towards the low end and zeros come in from the
/// top, whatever the sign of `val`. A shift by 32 places or more leaves zero.
pub fn bitshift_i32_with_sign(val: i32, bitshift: u8) -> (shifted: i32)
    ensures
        bits32(shifted) == bits32(val) / pow2(bitshift as nat),
        bitshift >= 32 ==> shifted == 0,
{
    proof {
        lemma_pattern32(val);
        vstd::arithmetic::power2::lemma2_to64();
    }
    if bitshift >= 32 {
        proof {
            lemma_shifted_out(bits32(val), 32, bitshift as nat);
        }
        0
    } else {
        let pattern: u32 = #[verifier::truncate] (val as u32);
        let moved: u32 = pattern >> bitshift;
        proof {
            vstd::bits::lemma_u32_shr_is_div(pattern, bitshift as u32);
            lemma_reinterpret32(moved);
        }
        #[verifier::truncate] (moved as i32)
    }
}

/// Logical right shift of a signed 64-bit integer: the bit pattern of `val`
/// moves `bitshift` places towards the low end and zeros come in from the
/// top, whatever the sign of `val`. A shift by 64 places or more leaves zero.
pub fn bitshift_i64_with_sign(val: i64, bitshift: u8) -> (shifted: i64)
    ensures
        bits64(shifted) == bits64(val) / pow2(bitshift as nat),
        bitshift >= 64 ==> shifted == 0,
{
    proof {
        lemma_pattern64(val);
        vstd::arithmetic::power2::lemma2_to64();
    }
    if bitshift >= 64 {
        proof {
            lemma_shifted_out(bits64(val), 64, bitshift as nat);
        }
        0
    } else {
        let pattern: u64 = #[verifier::truncate] (val as u64);
        let moved: u64 = pattern >> bitshift;
        proof {
            vstd::bits::lemma_u64_shr_is_div(pattern, bitshift as u64);
            lemma_reinterpret64(moved);
        }
        #[verifier::truncate] (moved as i64)
    }
}

} // verus!
