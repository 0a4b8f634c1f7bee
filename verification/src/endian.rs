//! Fixed-width integers as little-endian bytes.
//!
//! Everything here is stated with division and remainder by powers of 256, so
//! that the ordinary arithmetic solver can reason about it.

use vstd::prelude::*;

verus! {

/// The two bytes of `v`, least significant first.
pub open spec fn u16_le(v: u16) -> Seq<u8> {
    seq![(v % 256) as u8, (v / 256) as u8]
}

/// The four bytes of `v`, least significant first.
pub open spec fn u32_le(v: u32) -> Seq<u8> {
    seq![
        (v % 256) as u8,
        (v / 256 % 256) as u8,
        (v / 65536 % 256) as u8,
        (v / 16777216) as u8,
    ]
}

/// The number whose little-endian bytes are `b0`, `b1`.
pub open spec fn u16_from_le(b0: u8, b1: u8) -> u16 {
    (b0 + 256 * b1) as u16
}

/// The number whose little-endian bytes are `b0`, `b1`, `b2`, `b3`.
pub open spec fn u32_from_le(b0: u8, b1: u8, b2: u8, b3: u8) -> u32 {
    (b0 + 256 * b1 + 65536 * b2 + 16777216 * b3) as u32
}

/// The byte that holds `v` in two's complement.
pub open spec fn i8_to_byte(v: i8) -> u8 {
    if v < 0 {
        (v + 256) as u8
    } else {
        v as u8
    }
}

/// The signed value that the byte `b` holds in two's complement.
pub open spec fn i8_from_byte(b: u8) -> i8 {
    if b < 128 {
        b as i8
    } else {
        (b - 256) as i8
    }
}

/// The 16-bit pattern that holds `v` in two's complement.
pub open spec fn i16_to_bits(v: i16) -> u16 {
    if v < 0 {
        (v + 65536) as u16
    } else {
        v as u16
    }
}

/// The signed value that the 16-bit pattern `u` holds in two's complement.
pub open spec fn i16_from_bits(u: u16) -> i16 {
    if u < 32768 {
        u as i16
    } else {
        (u - 65536) as i16
    }
}

/// The two bytes of `v` in two's complement, least significant first.
pub open spec fn i16_le(v: i16) -> Seq<u8> {
    u16_le(i16_to_bits(v))
}

/// The signed number whose little-endian bytes are `b0`, `b1`.
pub open spec fn i16_from_le(b0: u8, b1: u8) -> i16 {
    i16_from_bits(u16_from_le(b0, b1))
}

/// The number read from the two bytes of `v` is `v`.
pub proof fn lemma_u16_from_its_bytes(v: u16)
    ensures
        u16_le(v).len() == 2,
        u16_from_le(u16_le(v)[0], u16_le(v)[1]) == v,
{
}

/// The number read from the four bytes of `v` is `v`.
pub proof fn lemma_u32_from_its_bytes(v: u32)
    ensures
        u32_le(v).len() == 4,
        u32_from_le(u32_le(v)[0], u32_le(v)[1], u32_le(v)[2], u32_le(v)[3]) == v,
{
    let q1 = v / 256;
    let q2 = q1 / 256;
    let q3 = q2 / 256;
    assert(v == 256 * q1 + v % 256);
    assert(q1 == 256 * q2 + q1 % 256);
    assert(q2 == 256 * q3 + q2 % 256);
    assert(q2 == v / 65536);
    assert(q3 == v / 16777216);
    assert(q3 < 256);
}

/// The signed value read from the byte of `v` is `v`.
pub proof fn lemma_i8_from_its_byte(v: i8)
    ensures
        i8_from_byte(i8_to_byte(v)) == v,
{
}

/// The number read from the two bytes of `v` is `v`.
pub proof fn lemma_i16_from_its_bytes(v: i16)
    ensures
        i16_le(v).len() == 2,
        i16_from_le(i16_le(v)[0], i16_le(v)[1]) == v,
{
    lemma_u16_from_its_bytes(i16_to_bits(v));
}

} // verus!
