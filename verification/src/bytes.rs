//! Numbers of more than one byte, most significant byte first.

use crate::error::DecodeError;
use vstd::prelude::*;

verus! {

/// The number made of the four bytes from `pos` on, most significant first.
pub open spec fn be32(data: Seq<u8>, pos: int) -> u32 {
    (data[pos] * 0x100_0000 + data[pos + 1] * 0x1_0000 + data[pos + 2] * 0x100 + data[pos
        + 3]) as u32
}

/// The number made of the two bytes from `pos` on, most significant first.
pub open spec fn be16(data: Seq<u8>, pos: int) -> u16 {
    (data[pos] * 0x100 + data[pos + 1]) as u16
}

/// The four bytes from `offset` on as a number, most significant byte first.
pub fn peek_u32(data: &[u8], offset: usize) -> (r: Result<u32, DecodeError>)
    ensures
        match r {
            Ok(v) => offset + 4 <= data.len() && v == be32(data@, offset as int),
            Err(e) => offset + 4 > data.len() && e == DecodeError::Truncated,
        },
{
    if data.len() < 4 || offset > data.len() - 4 {
        return Err(DecodeError::Truncated);
    }
    let mut result: u32 = 0;
    let mut i: usize = 0;
    while i < 4
        invariant
            i <= 4,
            offset + 4 <= data.len(),
            i == 0 ==> result == 0,
            i == 1 ==> result == data[offset as int],
            i == 2 ==> result == data[offset as int] * 0x100 + data[offset + 1],
            i == 3 ==> result == data[offset as int] * 0x1_0000 + data[offset + 1] * 0x100
                + data[offset + 2],
            i == 4 ==> result == be32(data@, offset as int),
        decreases 4 - i,
    {
        let byte = data[offset + i] as u32;
        result = result * 256 + byte;
        i = i + 1;
    }
    Ok(result)
}

/// The two bytes from `offset` on as a number, most significant byte first.
pub fn peek_u16(data: &[u8], offset: usize) -> (r: Result<u16, DecodeError>)
    ensures
        match r {
            Ok(v) => offset + 2 <= data.len() && v == be16(data@, offset as int),
            Err(e) => offset + 2 > data.len() && e == DecodeError::Truncated,
        },
{
    if data.len() < 2 || offset > data.len() - 2 {
        return Err(DecodeError::Truncated);
    }
    let hi = data[offset] as u16;
    let lo = data[offset + 1] as u16;
    Ok(hi * 256 + lo)
}

/// The byte at `offset`.
pub fn peek_u8(data: &[u8], offset: usize) -> (r: Result<u8, DecodeError>)
    ensures
        match r {
            Ok(v) => offset < data.len() && v == data[offset as int],
            Err(e) => offset >= data.len() && e == DecodeError::Truncated,
        },
{
    if offset >= data.len() {
        return Err(DecodeError::Truncated);
    }
    Ok(data[offset])
}

/// The four bytes of a chunk type as one number.
pub fn to_u32(a: [u8; 4]) -> (r: u32)
    ensures
        r == be32(a@, 0),
{
    (a[0] as u32) * 0x100_0000 + (a[1] as u32) * 0x1_0000 + (a[2] as u32) * 0x100 + (a[3] as u32)
}

/// The two bytes of a marker as one number.
pub fn to_u16(a: [u8; 2]) -> (r: u16)
    ensures
        r == be16(a@, 0),
{
    (a[0] as u16) * 0x100 + (a[1] as u16)
}

} // verus!
