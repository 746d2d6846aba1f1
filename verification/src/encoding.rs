//! Little-endian integers of fixed width, as mathematical functions on byte
//! sequences and as executable conversions proved against them.

use vstd::prelude::*;

verus! {

/// The value of two bytes read as a little-endian unsigned integer.
pub open spec fn le_u16(b: Seq<u8>) -> int
    recommends
        b.len() == 2,
{
    b[0] as int + 256 * (b[1] as int)
}

/// The two bytes that hold `x` in little-endian order.
pub open spec fn u16_le(x: u16) -> Seq<u8> {
    seq![(x as int % 256) as u8, (x as int / 256) as u8]
}

/// The value of four bytes read as a little-endian unsigned integer.
pub open spec fn le_u32(b: Seq<u8>) -> int
    recommends
        b.len() == 4,
{
    b[0] as int + 256 * (b[1] as int) + 65536 * (b[2] as int) + 16777216 * (b[3] as int)
}

/// The four bytes that hold `x` in little-endian order.
pub open spec fn u32_le(x: u32) -> Seq<u8> {
    seq![
        (x as int % 256) as u8,
        (x as int / 256 % 256) as u8,
        (x as int / 65536 % 256) as u8,
        (x as int / 16777216) as u8,
    ]
}

/// The value of eight bytes read as a little-endian unsigned integer.
pub open spec fn le_u64(b: Seq<u8>) -> int
    recommends
        b.len() == 8,
{
    le_u32(b.subrange(0, 4)) + 4294967296 * le_u32(b.subrange(4, 8))
}

/// The eight bytes that hold `x` in little-endian order.
pub open spec fn u64_le(x: u64) -> Seq<u8> {
    u32_le((x as int % 4294967296) as u32) + u32_le((x as int / 4294967296) as u32)
}

/// Reading back the bytes of a 16-bit value gives the value.
pub proof fn lemma_u16_round_trip(x: u16)
    ensures
        u16_le(x).len() == 2,
        le_u16(u16_le(x)) == x,
{
}

/// Writing the value of two bytes gives the two bytes.
pub proof fn lemma_u16_bytes_round_trip(b: Seq<u8>)
    requires
        b.len() == 2,
    ensures
        0 <= le_u16(b) <= u16::MAX,
        u16_le(le_u16(b) as u16) == b,
{
    assert(u16_le(le_u16(b) as u16) =~= b);
}

/// Reading back the bytes of a 32-bit value gives the value.
pub proof fn lemma_u32_round_trip(x: u32)
    ensures
        u32_le(x).len() == 4,
        le_u32(u32_le(x)) == x,
{
}

/// Writing the value of four bytes gives the four bytes.
pub proof fn lemma_u32_bytes_round_trip(b: Seq<u8>)
    requires
        b.len() == 4,
    ensures
        0 <= le_u32(b) <= u32::MAX,
        u32_le(le_u32(b) as u32) == b,
{
    assert(u32_le(le_u32(b) as u32) =~= b);
}

/// Reading back the bytes of a 64-bit value gives the value.
pub proof fn lemma_u64_round_trip(x: u64)
    ensures
        u64_le(x).len() == 8,
        le_u64(u64_le(x)) == x,
{
    let lo = (x as int % 4294967296) as u32;
    let hi = (x as int / 4294967296) as u32;
    lemma_u32_round_trip(lo);
    lemma_u32_round_trip(hi);
    assert(u64_le(x).subrange(0, 4) =~= u32_le(lo));
    assert(u64_le(x).subrange(4, 8) =~= u32_le(hi));
}

/// Encodes a 16-bit value in little-endian order.
pub fn u16_to_le_bytes(x: u16) -> (out: Vec<u8>)
    ensures
        out@ == u16_le(x),
{
    let mut out: Vec<u8> = Vec::new();
    out.push((x % 256) as u8);
    out.push((x / 256) as u8);
    assert(out@ =~= u16_le(x));
    out
}

/// Decodes a 16-bit value from two bytes in little-endian order.
pub fn u16_from_le_bytes(low: u8, high: u8) -> (x: u16)
    ensures
        x == le_u16(seq![low, high]),
{
    low as u16 + 256 * (high as u16)
}

/// Encodes a 32-bit value in little-endian order.
pub fn u32_to_le_bytes(x: u32) -> (out: Vec<u8>)
    ensures
        out@ == u32_le(x),
{
    let mut out: Vec<u8> = Vec::new();
    out.push((x % 256) as u8);
    out.push((x / 256 % 256) as u8);
    out.push((x / 65536 % 256) as u8);
    out.push((x / 16777216) as u8);
    assert(out@ =~= u32_le(x));
    out
}

/// Decodes the 32-bit value held in little-endian order at `at`.
pub fn u32_from_le_bytes(bytes: &[u8], at: usize) -> (x: u32)
    requires
        at + 4 <= bytes@.len(),
    ensures
        x == le_u32(bytes@.subrange(at as int, at + 4)),
{
    let b0: u32 = bytes[at] as u32;
    let b1: u32 = bytes[at + 1] as u32;
    let b2: u32 = bytes[at + 2] as u32;
    let b3: u32 = bytes[at + 3] as u32;
    b0 + 256 * b1 + 65536 * b2 + 16777216 * b3
}

/// Encodes a 64-bit value in little-endian order.
pub fn u64_to_le_bytes(x: u64) -> (out: Vec<u8>)
    ensures
        out@ == u64_le(x),
{
    let mut out: Vec<u8> = u32_to_le_bytes((x % 4294967296) as u32);
    let mut high: Vec<u8> = u32_to_le_bytes((x / 4294967296) as u32);
    out.append(&mut high);
    out
}

/// Decodes the 64-bit value held in little-endian order at `at`.
pub fn u64_from_le_bytes(bytes: &[u8], at: usize) -> (x: u64)
    requires
        at + 8 <= bytes@.len(),
    ensures
        x == le_u64(bytes@.subrange(at as int, at + 8)),
{
    let len: usize = bytes.len();
    let low: u64 = u32_from_le_bytes(bytes, at) as u64;
    let high: u64 = u32_from_le_bytes(bytes, at + 4) as u64;
    proof {
        let window = bytes@.subrange(at as int, at + 8);
        assert(window.subrange(0, 4) =~= bytes@.subrange(at as int, at + 4));
        assert(window.subrange(4, 8) =~= bytes@.subrange(at + 4, at + 8));
    }
    low + 4294967296 * high
}

} // verus!
