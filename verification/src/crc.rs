//! The 32-bit cyclic redundancy check that guards each PNG chunk.

use vstd::prelude::*;

verus! {

/// One step of the check: a shift right by one bit, with the polynomial
/// `0xEDB88320` folded in where a set bit falls out.
pub open spec fn crc_round(c: u32) -> u32 {
    if c & 1 != 0 {
        0xedb88320u32 ^ (c >> 1)
    } else {
        c >> 1
    }
}

/// Eight steps, which take in one byte.
pub open spec fn crc_byte(c: u32) -> u32 {
    crc_round(crc_round(crc_round(crc_round(crc_round(crc_round(crc_round(crc_round(c))))))))
}

/// The running value `c` after the bytes of `data` are taken in.
pub open spec fn crc_update(c: u32, data: Seq<u8>) -> u32
    decreases data.len(),
{
    if data.len() == 0 {
        c
    } else {
        crc_byte(crc_update(c, data.drop_last()) ^ (data.last() as u32))
    }
}

/// The check value of `data`: the running value starts with all bits set and
/// is inverted at the end.
pub open spec fn crc32(data: Seq<u8>) -> u32 {
    crc_update(0xffffffff, data) ^ 0xffffffff
}

/// Taking in a byte bit by bit gives what the table gives: the entry for the
/// low byte, and the rest of the running value moved down by a byte.
proof fn lemma_table_step(c: u32, b: u8)
    ensures
        crc_byte(c ^ (b as u32)) == crc_byte((c ^ (b as u32)) & 0xff) ^ (c >> 8),
{
    let x: u32 = c ^ (b as u32);
    assert(x >> 8 == c >> 8) by (bit_vector)
        requires
            x == c ^ (b as u32),
    ;
    lemma_low_byte(x);
}

/// The eight steps act on the low byte alone; the bits above move down.
proof fn lemma_low_byte(x: u32)
    ensures
        crc_byte(x) == crc_byte(x & 0xff) ^ (x >> 8),
{
    assert(crc_byte(x) == crc_byte(x & 0xff) ^ (x >> 8)) by (bit_vector);
}

/// The table of the check: entry `i` is what eight steps make of `i`.
pub fn make_crc_table() -> (table: Vec<u32>)
    ensures
        table.len() == 256,
        forall|i: int| 0 <= i < 256 ==> #[trigger] table[i] == crc_byte(i as u32),
{
    let mut result: Vec<u32> = Vec::new();
    let mut i: u32 = 0;
    while i < 256
        invariant
            i <= 256,
            result.len() == i,
            forall|k: int| 0 <= k < i ==> #[trigger] result[k] == crc_byte(k as u32),
        decreases 256 - i,
    {
        let c1 = crc_step(i);
        let c2 = crc_step(c1);
        let c3 = crc_step(c2);
        let c4 = crc_step(c3);
        let c5 = crc_step(c4);
        let c6 = crc_step(c5);
        let c7 = crc_step(c6);
        let c8 = crc_step(c7);
        result.push(c8);
        i = i + 1;
    }
    result
}

/// One step of the check.
fn crc_step(c: u32) -> (r: u32)
    ensures
        r == crc_round(c),
{
    if (c & 1) != 0 {
        0xedb88320u32 ^ (c >> 1)
    } else {
        c >> 1
    }
}

/// The check value of the `length` bytes of `data` from `start` on, worked
/// out with the table of `make_crc_table`.
pub fn calc_crc(table: &Vec<u32>, data: &[u8], start: usize, length: usize) -> (r: u32)
    requires
        table.len() == 256,
        forall|i: int| 0 <= i < 256 ==> #[trigger] table[i] == crc_byte(i as u32),
        start + length <= data.len(),
    ensures
        r == crc32(data@.subrange(start as int, start + length)),
{
    let mut result: u32 = 0xffffffff;
    let mut i: usize = 0;
    while i < length
        invariant
            table.len() == 256,
            forall|k: int| 0 <= k < 256 ==> #[trigger] table[k] == crc_byte(k as u32),
            start + length <= data.len(),
            i <= length,
            result == crc_update(0xffffffff, data@.subrange(start as int, start + i)),
        decreases length - i,
    {
        let b = data[start + i];
        let x: u32 = result ^ (b as u32);
        proof {
            lemma_table_step(result, b);
            assert(x & 0xff < 256) by (bit_vector);
            let before = data@.subrange(start as int, start + i);
            let after = data@.subrange(start as int, start + i + 1);
            assert(after.drop_last() =~= before);
            assert(after.last() == b);
        }
        result = table[(x & 0xff) as usize] ^ (result >> 8);
        i = i + 1;
    }
    result ^ 0xffffffff
}

} // verus!
