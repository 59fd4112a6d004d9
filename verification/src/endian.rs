use byteorder::{BigEndian, ByteOrder};
use vstd::prelude::*;

verus! {

/// The unsigned number that the first four bytes of `b` spell, most
/// significant byte first.
pub open spec fn be_u32(b: Seq<u8>) -> int {
    b[0] as int * 0x100_0000 + b[1] as int * 0x1_0000 + b[2] as int * 0x100 + b[3] as int
}

/// The two's-complement reading of `be_u32`.
pub open spec fn be_i32(b: Seq<u8>) -> int {
    if be_u32(b) >= 0x8000_0000 {
        be_u32(b) - 0x1_0000_0000
    } else {
        be_u32(b)
    }
}

/// The unsigned number that the first two bytes of `b` spell, most
/// significant byte first.
pub open spec fn be_u16(b: Seq<u8>) -> int {
    b[0] as int * 0x100 + b[1] as int
}

/// The two's-complement reading of `be_u16`.
pub open spec fn be_i16(b: Seq<u8>) -> int {
    if be_u16(b) >= 0x8000 {
        be_u16(b) - 0x1_0000
    } else {
        be_u16(b)
    }
}

/// The four bytes that spell `value` in two's complement, most significant
/// byte first.
pub open spec fn be_bytes_i32(value: int) -> Seq<u8> {
    let unsigned = if value < 0 {
        value + 0x1_0000_0000
    } else {
        value
    };
    seq![
        (unsigned / 0x100_0000) as u8,
        (unsigned / 0x1_0000 % 0x100) as u8,
        (unsigned / 0x100 % 0x100) as u8,
        (unsigned % 0x100) as u8,
    ]
}

/// Reading back the bytes that spell a 32-bit number gives the number,
/// whatever follows the four bytes.
pub proof fn lemma_be_i32_round_trip(value: int, rest: Seq<u8>)
    requires
        i32::MIN <= value <= i32::MAX,
    ensures
        be_bytes_i32(value).len() == 4,
        be_i32(be_bytes_i32(value) + rest) == value,
{
    let bytes = be_bytes_i32(value) + rest;
    assert(bytes[0] == be_bytes_i32(value)[0]);
    assert(bytes[1] == be_bytes_i32(value)[1]);
    assert(bytes[2] == be_bytes_i32(value)[2]);
    assert(bytes[3] == be_bytes_i32(value)[3]);
}

/// Calls `byteorder::BigEndian::read_i32`, which reads the first four bytes
/// of the slice as a big-endian signed integer and panics on a shorter slice.
#[verifier::external_body]
pub(crate) fn read_i32_be(buf: &[u8]) -> (value: i32)
    requires
        buf@.len() >= 4,
    ensures
        value as int == be_i32(buf@),
{
    BigEndian::read_i32(buf)
}

/// Calls `byteorder::BigEndian::read_i16`, which reads the first two bytes
/// of the slice as a big-endian signed integer and panics on a shorter slice.
#[verifier::external_body]
pub(crate) fn read_i16_be(buf: &[u8]) -> (value: i16)
    requires
        buf@.len() >= 2,
    ensures
        value as int == be_i16(buf@),
{
    BigEndian::read_i16(buf)
}

} // verus!
