//! The zlib container and the DEFLATE stream inside it.

use crate::bits::{
    bits_value, bits_window, lemma_bits_value_bound, stream_bits, BitBuffer,
};
use crate::canonical::{
    build_huffman_codes, build_huffman_tree, canonical_code, code_list, codes_fit, count_len,
    first_code, table_of,
};
use crate::error::DecodeError;
use crate::huffman::{decode_symbol, first_match, HuffmanTree};
use crate::prefix::lemma_canonical_insertable;
use vstd::arithmetic::power2::{lemma2_to64, pow2};
use vstd::pervasive::unreached;
use vstd::prelude::*;

verus! {

/// The number of extra bits that follow each length symbol, from 257 on.
pub const LENGTH_EXTRA_BITS: [u32; 29] = [
    0,
    0,
    0,
    0,
    0,
    0,
    0,
    0,
    1,
    1,
    1,
    1,
    2,
    2,
    2,
    2,
    3,
    3,
    3,
    3,
    4,
    4,
    4,
    4,
    5,
    5,
    5,
    5,
    0,
];

/// The smallest match length of each length symbol, from 257 on.
pub const LENGTHS_BASE: [u16; 29] = [
    3,
    4,
    5,
    6,
    7,
    8,
    9,
    10,
    11,
    13,
    15,
    17,
    19,
    23,
    27,
    31,
    35,
    43,
    51,
    59,
    67,
    83,
    99,
    115,
    131,
    163,
    195,
    227,
    258,
];

/// The number of extra bits that follow each distance symbol.
pub const DIST_EXTRA_BITS: [u32; 30] = [
    0,
    0,
    0,
    0,
    1,
    1,
    2,
    2,
    3,
    3,
    4,
    4,
    5,
    5,
    6,
    6,
    7,
    7,
    8,
    8,
    9,
    9,
    10,
    10,
    11,
    11,
    12,
    12,
    13,
    13,
];

/// The smallest distance of each distance symbol.
pub const DIST_BASE: [u16; 30] = [
    1,
    2,
    3,
    4,
    5,
    7,
    9,
    13,
    17,
    25,
    33,
    49,
    65,
    97,
    129,
    193,
    257,
    385,
    513,
    769,
    1025,
    1537,
    2049,
    3073,
    4097,
    6145,
    8193,
    12289,
    16385,
    24577,
];

/// The order in which a dynamic block lists the lengths of the code-length
/// codes.
pub const CODE_LENGTH_INDICES: [usize; 19] = [
    16,
    17,
    18,
    0,
    8,
    7,
    9,
    6,
    10,
    5,
    11,
    4,
    12,
    3,
    13,
    2,
    14,
    1,
    15,
];

/// The position `n` bits after `pos`, which stops at the end of the stream.
pub open spec fn advance(bits: Seq<bool>, pos: int, n: nat) -> int {
    if pos + n <= bits.len() {
        pos + n
    } else {
        bits.len() as int
    }
}

/// The first byte boundary at or after `pos`.
pub open spec fn aligned(pos: int) -> int {
    pos + (8 - pos % 8) % 8
}

/// The table of the canonical code that a vector of code lengths stands
/// for, its codes stored for a stream that hands out the least significant
/// bit first.
pub open spec fn code_table(lengths: Seq<u32>) -> Map<Seq<bool>, u32> {
    table_of(
        code_list(lengths, true, lengths.len() as int),
        code_list(lengths, true, lengths.len() as int).len() as int,
    )
}

/// The table that a block defines by a vector of code lengths. Lengths above
/// 16, and lengths that ask for more codes than there are, are an error.
pub open spec fn tree_table(lengths: Seq<u32>) -> Result<Map<Seq<bool>, u32>, DecodeError> {
    if codes_fit(lengths, lengths.len() as int) {
        Ok(code_table(lengths))
    } else {
        Err(DecodeError::BadCodeLengths)
    }
}

/// `out` after `len` bytes are copied to its end from `dist` bytes before the
/// end, one at a time, so that a copy may run into what it has just written.
pub open spec fn copy_back(out: Seq<u8>, dist: int, len: nat) -> Seq<u8>
    decreases len,
{
    if len == 0 {
        out
    } else {
        copy_back(out.push(out[out.len() - dist]), dist, (len - 1) as nat)
    }
}

/// The match length that the length symbol `symbol`, 257 to 285, and the extra
/// bits at `pos` stand for.
pub open spec fn match_length(bits: Seq<bool>, pos: int, symbol: u32) -> nat {
    (LENGTHS_BASE[symbol - 257] + bits_value(
        bits,
        pos,
        LENGTH_EXTRA_BITS[symbol - 257] as nat,
    )) as nat
}

/// The distance that the distance symbol `symbol`, 0 to 29, and the extra bits
/// at `pos` stand for.
pub open spec fn match_distance(bits: Seq<bool>, pos: int, symbol: u32) -> nat {
    (DIST_BASE[symbol as int] + bits_value(bits, pos, DIST_EXTRA_BITS[symbol as int] as nat)) as nat
}

/// A lookup that finds a code finds one of at least one bit.
pub proof fn lemma_decode_symbol_len(codes: Map<Seq<bool>, u32>, bits: Seq<bool>, pos: int)
    ensures
        decode_symbol(codes, bits, pos) matches Some((_, k)) ==> 1 <= k <= 16,
{
    lemma_first_match_range(codes, bits, pos, 1);
}

proof fn lemma_first_match_range(codes: Map<Seq<bool>, u32>, bits: Seq<bool>, pos: int, k: nat)
    ensures
        first_match(codes, bits, pos, k) matches Some(m) ==> k <= m <= 16,
    decreases 17 - k,
{
    if k <= 16 && !codes.dom().contains(bits_window(bits, pos, k)) {
        lemma_first_match_range(codes, bits, pos, k + 1);
    }
}

/// The distance that the stream holds at `pos`, as a distance symbol of at
/// most 29 and its extra bits, and the position after it.
pub open spec fn read_distance(dist: Map<Seq<bool>, u32>, bits: Seq<bool>, pos: int) -> Result<
    (nat, int),
    DecodeError,
> {
    match decode_symbol(dist, bits, pos) {
        None => Err(DecodeError::NoCode),
        Some((d, k)) => if d > 29 {
            Err(DecodeError::BadDistance)
        } else {
            Ok(
                (
                    match_distance(bits, advance(bits, pos, k), d),
                    advance(bits, advance(bits, pos, k), DIST_EXTRA_BITS[d as int] as nat),
                ),
            )
        },
    }
}

/// The data of a compressed block from `pos` on, decoded with the two tables
/// and appended to `out`, and the position after the end-of-block symbol.
/// Symbols below 256 stand for themselves, 256 ends the block, 257 to 285
/// start a back-reference of a length and a distance.
pub open spec fn inflate_symbols(
    lit: Map<Seq<bool>, u32>,
    dist: Map<Seq<bool>, u32>,
    bits: Seq<bool>,
    pos: int,
    out: Seq<u8>,
) -> Result<(Seq<u8>, int), DecodeError>
    decreases bits.len() - pos,
{
    if pos >= bits.len() {
        Err(DecodeError::Truncated)
    } else {
        match decode_symbol(lit, bits, pos) {
            None => Err(DecodeError::NoCode),
            Some((symbol, k)) => {
                proof {
                    lemma_decode_symbol_len(lit, bits, pos);
                }
                let pos1 = advance(bits, pos, k);
                if symbol < 256 {
                    inflate_symbols(lit, dist, bits, pos1, out.push(symbol as u8))
                } else if symbol == 256 {
                    Ok((out, pos1))
                } else if symbol <= 285 {
                    let len = match_length(bits, pos1, symbol);
                    let pos2 = advance(bits, pos1, LENGTH_EXTRA_BITS[symbol - 257] as nat);
                    match read_distance(dist, bits, pos2) {
                        Err(e) => Err(e),
                        Ok((distance, pos4)) => if distance > out.len() {
                            Err(DecodeError::DistanceTooFar)
                        } else {
                            inflate_symbols(
                                lit,
                                dist,
                                bits,
                                pos4,
                                copy_back(out, distance as int, len),
                            )
                        },
                    }
                } else {
                    Err(DecodeError::BadSymbol)
                }
            },
        }
    }
}

/// `n` times the value `v`.
pub open spec fn repeated(v: u32, n: nat) -> Seq<u32> {
    Seq::new(n, |i: int| v)
}

/// The code lengths that the stream holds from `pos` on, `needed` in all with
/// those in `acc`, and the position after them. Symbols up to 15 are lengths;
/// 16 repeats the length before it 3 to 6 times, 17 and 18 stand for 3 to 10
/// and 11 to 138 zeros. A repeat that runs past `needed` is an error.
pub open spec fn read_lengths(
    cl: Map<Seq<bool>, u32>,
    bits: Seq<bool>,
    pos: int,
    needed: nat,
    acc: Seq<u32>,
) -> Result<(Seq<u32>, int), DecodeError>
    decreases (if acc.len() <= needed {
        needed - acc.len() + 1
    } else {
        0
    }),
{
    if acc.len() == needed {
        Ok((acc, pos))
    } else if acc.len() > needed {
        Err(DecodeError::BadSymbol)
    } else {
        match decode_symbol(cl, bits, pos) {
            None => Err(DecodeError::NoCode),
            Some((symbol, k)) => {
                proof {
                    assert forall|v: u32, n: nat| #[trigger]
                        (acc + repeated(v, n)).len() == acc.len() + n by {}
                }
                let pos1 = advance(bits, pos, k);
                if symbol <= 15 {
                    read_lengths(cl, bits, pos1, needed, acc.push(symbol))
                } else if symbol == 16 {
                    if acc.len() == 0 {
                        Err(DecodeError::BadSymbol)
                    } else {
                        read_lengths(
                            cl,
                            bits,
                            advance(bits, pos1, 2),
                            needed,
                            acc + repeated(acc.last(), 3 + bits_value(bits, pos1, 2)),
                        )
                    }
                } else if symbol == 17 {
                    read_lengths(
                        cl,
                        bits,
                        advance(bits, pos1, 3),
                        needed,
                        acc + repeated(0, 3 + bits_value(bits, pos1, 3)),
                    )
                } else if symbol == 18 {
                    read_lengths(
                        cl,
                        bits,
                        advance(bits, pos1, 7),
                        needed,
                        acc + repeated(0, 11 + bits_value(bits, pos1, 7)),
                    )
                } else {
                    Err(DecodeError::BadSymbol)
                }
            },
        }
    }
}

/// The lengths of the 19 code-length codes, of which the stream lists the
/// first `count` at `pos`, three bits each, in the order of
/// `CODE_LENGTH_INDICES`; the others are 0.
pub open spec fn clen_lengths(bits: Seq<bool>, pos: int, count: nat) -> Seq<u32>
    decreases count,
{
    if count == 0 {
        Seq::new(19, |i: int| 0u32)
    } else {
        clen_lengths(bits, pos, (count - 1) as nat).update(
            CODE_LENGTH_INDICES[count - 1] as int,
            bits_value(bits, advance(bits, pos, (3 * (count - 1)) as nat), 3) as u32,
        )
    }
}

/// The two tables that the header of a dynamic block at `pos` describes, for
/// literals and lengths and for distances, and the position after the header.
pub open spec fn dynamic_tables(bits: Seq<bool>, pos: int) -> Result<
    (Map<Seq<bool>, u32>, Map<Seq<bool>, u32>, int),
    DecodeError,
> {
    let hlit = bits_value(bits, pos, 5);
    let pos1 = advance(bits, pos, 5);
    let hdist = bits_value(bits, pos1, 5);
    let pos2 = advance(bits, pos1, 5);
    let hclen = bits_value(bits, pos2, 4);
    let pos3 = advance(bits, pos2, 4);
    let pos4 = advance(bits, pos3, 3 * (hclen + 4));
    match tree_table(clen_lengths(bits, pos3, hclen + 4)) {
        Err(e) => Err(e),
        Ok(cl) => match read_lengths(cl, bits, pos4, 258 + hlit + hdist, Seq::empty()) {
            Err(e) => Err(e),
            Ok((all, pos5)) => match tree_table(all.subrange(0, (257 + hlit) as int)) {
                Err(e) => Err(e),
                Ok(lit) => match tree_table(
                    all.subrange((257 + hlit) as int, (258 + hlit + hdist) as int),
                ) {
                    Err(e) => Err(e),
                    Ok(dist) => Ok((lit, dist, pos5)),
                },
            },
        },
    }
}

/// The code lengths of the fixed table for literals and lengths.
pub open spec fn fixed_lit_lengths() -> Seq<u32> {
    Seq::new(
        288,
        |i: int|
            if i < 144 {
                8u32
            } else if i < 256 {
                9u32
            } else if i < 280 {
                7u32
            } else {
                8u32
            },
    )
}

/// The code lengths of the fixed table for distances.
pub open spec fn fixed_dist_lengths() -> Seq<u32> {
    Seq::new(32, |i: int| 5u32)
}

/// The `n` bytes that the stream holds from the byte boundary `pos` on.
pub open spec fn stored_bytes(bits: Seq<bool>, pos: int, n: nat) -> Seq<u8> {
    Seq::new(n, |j: int| bits_value(bits, pos + 8 * j, 8) as u8)
}

/// A stored block, whose header ends at `pos`: after the next byte boundary
/// come its length and the complement of the length, 16 bits each, then its
/// bytes, which are appended to `out`.
pub open spec fn inflate_stored(bits: Seq<bool>, pos: int, out: Seq<u8>) -> Result<
    (Seq<u8>, int),
    DecodeError,
> {
    let pos0 = advance(bits, aligned(pos), 0);
    let len = bits_value(bits, pos0, 16);
    let pos1 = advance(bits, pos0, 16);
    let nlen = bits_value(bits, pos1, 16);
    let pos2 = advance(bits, pos1, 16);
    if len + nlen != 0xffff {
        Err(DecodeError::StoredLength)
    } else if pos2 + 8 * len > bits.len() {
        Err(DecodeError::Truncated)
    } else {
        Ok((out + stored_bytes(bits, pos2, len), pos2 + 8 * len))
    }
}

/// One block from `pos` on: what `out` becomes, the position after the block,
/// and whether the block is the last one.
pub open spec fn inflate_block(bits: Seq<bool>, pos: int, out: Seq<u8>) -> Result<
    (Seq<u8>, int, bool),
    DecodeError,
> {
    if pos >= bits.len() {
        Err(DecodeError::Truncated)
    } else {
        let last = bits_value(bits, pos, 1) == 1;
        let pos1 = advance(bits, pos, 1);
        let kind = bits_value(bits, pos1, 2);
        let pos2 = advance(bits, pos1, 2);
        if kind == 0 {
            match inflate_stored(bits, pos2, out) {
                Err(e) => Err(e),
                Ok((o, p)) => Ok((o, p, last)),
            }
        } else if kind == 1 {
            match inflate_symbols(
                code_table(fixed_lit_lengths()),
                code_table(fixed_dist_lengths()),
                bits,
                pos2,
                out,
            ) {
                Err(e) => Err(e),
                Ok((o, p)) => Ok((o, p, last)),
            }
        } else if kind == 2 {
            match dynamic_tables(bits, pos2) {
                Err(e) => Err(e),
                Ok((lit, dist, pos3)) => match inflate_symbols(lit, dist, bits, pos3, out) {
                    Err(e) => Err(e),
                    Ok((o, p)) => Ok((o, p, last)),
                },
            }
        } else {
            Err(DecodeError::ReservedBlockType)
        }
    }
}

/// A copy keeps what was there and adds `len` bytes, each of them the byte
/// `dist` places before it.
pub proof fn lemma_copy_back(out: Seq<u8>, dist: int, len: nat)
    requires
        1 <= dist <= out.len(),
    ensures
        copy_back(out, dist, len).len() == out.len() + len,
        forall|i: int| 0 <= i < out.len() ==> #[trigger] copy_back(out, dist, len)[i] == out[i],
        forall|i: int|
            out.len() <= i < out.len() + len ==> #[trigger] copy_back(out, dist, len)[i]
                == copy_back(out, dist, len)[i - dist],
    decreases len,
{
    if len > 0 {
        let next = out.push(out[out.len() - dist]);
        lemma_copy_back(next, dist, (len - 1) as nat);
        let r = copy_back(out, dist, len);
        assert(r == copy_back(next, dist, (len - 1) as nat));
        assert forall|i: int| 0 <= i < out.len() implies #[trigger] r[i] == out[i] by {
            assert(next[i] == out[i]);
        }
        assert forall|i: int| out.len() <= i < out.len() + len implies #[trigger] r[i] == r[i
            - dist] by {
            if i == out.len() {
                assert(r[i] == next[i]);
                assert(r[i - dist] == next[i - dist]);
            }
        }
    }
}

/// A copy from one byte back repeats the last byte.
pub proof fn lemma_run_of_one(out: Seq<u8>, len: nat)
    requires
        out.len() >= 1,
    ensures
        copy_back(out, 1, len) == out + Seq::new(len, |i: int| out.last()),
    decreases len,
{
    if len > 0 {
        let next = out.push(out.last());
        lemma_run_of_one(next, (len - 1) as nat);
        assert(next + Seq::new((len - 1) as nat, |i: int| next.last()) =~= out + Seq::new(
            len,
            |i: int| out.last(),
        ));
    } else {
        assert(out + Seq::new(0, |i: int| out.last()) =~= out);
    }
}

/// A copy from two bytes back alternates the last two bytes.
pub proof fn lemma_run_of_two(out: Seq<u8>, len: nat)
    requires
        out.len() >= 2,
    ensures
        copy_back(out, 2, len) == out + Seq::new(len, |i: int| out[out.len() - 2 + i % 2]),
    decreases len,
{
    if len > 0 {
        let next = out.push(out[out.len() - 2]);
        lemma_run_of_two(next, (len - 1) as nat);
        let a = next + Seq::new((len - 1) as nat, |i: int| next[next.len() - 2 + i % 2]);
        let b = out + Seq::new(len, |i: int| out[out.len() - 2 + i % 2]);
        assert(a.len() == b.len());
        assert forall|j: int| 0 <= j < a.len() implies a[j] == b[j] by {
            if j > out.len() {
                let i = j - next.len();
                assert(a[j] == next[next.len() - 2 + i % 2]);
                assert(b[j] == out[out.len() - 2 + (i + 1) % 2]);
            }
        }
        assert(a =~= b);
    } else {
        assert(out + Seq::new(0, |i: int| out[out.len() - 2 + i % 2]) =~= out);
    }
}

/// Where the stream holds a length symbol and a distance that reaches no
/// further back than the output goes, the block goes on with the output
/// grown by the copy.
pub proof fn lemma_back_reference(
    lit: Map<Seq<bool>, u32>,
    dist: Map<Seq<bool>, u32>,
    bits: Seq<bool>,
    pos: int,
    out: Seq<u8>,
    symbol: u32,
    k: nat,
    distance: nat,
    after: int,
)
    requires
        0 <= pos < bits.len(),
        decode_symbol(lit, bits, pos) == Some((symbol, k)),
        257 <= symbol <= 285,
        read_distance(
            dist,
            bits,
            advance(bits, advance(bits, pos, k), LENGTH_EXTRA_BITS[symbol - 257] as nat),
        ) == Ok::<_, DecodeError>((distance, after)),
        distance <= out.len(),
    ensures
        inflate_symbols(lit, dist, bits, pos, out) == inflate_symbols(
            lit,
            dist,
            bits,
            after,
            copy_back(out, distance as int, match_length(bits, advance(bits, pos, k), symbol)),
        ),
{
}

/// A block that holds a literal and then a back-reference of distance 1 gives
/// the literal once more than the back-reference is long.
pub proof fn lemma_literal_then_run(
    lit: Map<Seq<bool>, u32>,
    dist: Map<Seq<bool>, u32>,
    bits: Seq<bool>,
    pos: int,
    out: Seq<u8>,
    x: u8,
    k: nat,
    symbol: u32,
    k2: nat,
    after: int,
)
    requires
        0 <= pos < bits.len(),
        decode_symbol(lit, bits, pos) == Some((x as u32, k)),
        advance(bits, pos, k) < bits.len(),
        decode_symbol(lit, bits, advance(bits, pos, k)) == Some((symbol, k2)),
        257 <= symbol <= 285,
        read_distance(
            dist,
            bits,
            advance(
                bits,
                advance(bits, advance(bits, pos, k), k2),
                LENGTH_EXTRA_BITS[symbol - 257] as nat,
            ),
        ) == Ok::<_, DecodeError>((1nat, after)),
    ensures
        inflate_symbols(lit, dist, bits, pos, out) == inflate_symbols(
            lit,
            dist,
            bits,
            after,
            out + Seq::new(
                match_length(bits, advance(bits, advance(bits, pos, k), k2), symbol) + 1,
                |i: int| x,
            ),
        ),
{
    let pos1 = advance(bits, pos, k);
    let len = match_length(bits, advance(bits, pos1, k2), symbol);
    let first = out.push(x);
    assert(inflate_symbols(lit, dist, bits, pos, out) == inflate_symbols(
        lit,
        dist,
        bits,
        pos1,
        first,
    ));
    lemma_back_reference(lit, dist, bits, pos1, first, symbol, k2, 1, after);
    lemma_run_of_one(first, len);
    assert(first + Seq::new(len, |i: int| first.last()) =~= out + Seq::new(
        len + 1,
        |i: int| x,
    ));
}

/// A block ends after the position at which it starts.
pub proof fn lemma_inflate_block_advances(bits: Seq<bool>, pos: int, out: Seq<u8>)
    requires
        0 <= pos,
    ensures
        inflate_block(bits, pos, out) matches Ok((_, p, _)) ==> pos < p <= bits.len(),
{
    if pos < bits.len() {
        let pos1 = advance(bits, pos, 1);
        let pos2 = advance(bits, pos1, 2);
        let kind = bits_value(bits, pos1, 2);
        if kind == 1 {
            lemma_inflate_symbols_advances(
                code_table(fixed_lit_lengths()),
                code_table(fixed_dist_lengths()),
                bits,
                pos2,
                out,
            );
        } else if kind == 2 {
            if let Ok((lit, dist, pos3)) = dynamic_tables(bits, pos2) {
                lemma_dynamic_tables_advances(bits, pos2);
                lemma_inflate_symbols_advances(lit, dist, bits, pos3, out);
            }
        }
    }
}

/// The data of a block ends after the position at which it starts.
pub proof fn lemma_inflate_symbols_advances(
    lit: Map<Seq<bool>, u32>,
    dist: Map<Seq<bool>, u32>,
    bits: Seq<bool>,
    pos: int,
    out: Seq<u8>,
)
    requires
        0 <= pos,
    ensures
        inflate_symbols(lit, dist, bits, pos, out) matches Ok((_, p)) ==> pos < p <= bits.len(),
    decreases bits.len() - pos,
{
    if pos < bits.len() {
        lemma_decode_symbol_len(lit, bits, pos);
        match decode_symbol(lit, bits, pos) {
            None => {},
            Some((symbol, k)) => {
                let pos1 = advance(bits, pos, k);
                if symbol < 256 {
                    lemma_inflate_symbols_advances(lit, dist, bits, pos1, out.push(symbol as u8));
                } else if symbol == 256 {
                } else if symbol <= 285 {
                    let len = match_length(bits, pos1, symbol);
                    let pos2 = advance(bits, pos1, LENGTH_EXTRA_BITS[symbol - 257] as nat);
                    match read_distance(dist, bits, pos2) {
                        Err(e) => {},
                        Ok((distance, pos4)) => {
                            if distance <= out.len() {
                                lemma_inflate_symbols_advances(
                                    lit,
                                    dist,
                                    bits,
                                    pos4,
                                    copy_back(out, distance as int, len),
                                );
                            }
                        },
                    }
                }
            },
        }
    }
}

/// The header of a dynamic block ends within the stream.
pub proof fn lemma_dynamic_tables_advances(bits: Seq<bool>, pos: int)
    requires
        0 <= pos <= bits.len(),
    ensures
        dynamic_tables(bits, pos) matches Ok((_, _, p)) ==> pos <= p <= bits.len(),
{
    let hlit = bits_value(bits, pos, 5);
    let pos1 = advance(bits, pos, 5);
    let hdist = bits_value(bits, pos1, 5);
    let pos2 = advance(bits, pos1, 5);
    let hclen = bits_value(bits, pos2, 4);
    let pos3 = advance(bits, pos2, 4);
    let pos4 = advance(bits, pos3, 3 * (hclen + 4));
    if let Ok(cl) = tree_table(clen_lengths(bits, pos3, hclen + 4)) {
        lemma_read_lengths_advances(cl, bits, pos4, 258 + hlit + hdist, Seq::empty());
    }
}

/// Reading code lengths ends within the stream, with as many lengths as were
/// asked for.
pub proof fn lemma_read_lengths_advances(
    cl: Map<Seq<bool>, u32>,
    bits: Seq<bool>,
    pos: int,
    needed: nat,
    acc: Seq<u32>,
)
    requires
        0 <= pos <= bits.len(),
    ensures
        read_lengths(cl, bits, pos, needed, acc) matches Ok((all, p)) ==> pos <= p <= bits.len()
            && all.len() == needed,
    decreases (if acc.len() <= needed {
        needed - acc.len() + 1
    } else {
        0
    }),
{
    if acc.len() < needed {
        assert forall|v: u32, n: nat| #[trigger]
            (acc + repeated(v, n)).len() == acc.len() + n by {}
        match decode_symbol(cl, bits, pos) {
            None => {},
            Some((symbol, k)) => {
                let pos1 = advance(bits, pos, k);
                if symbol <= 15 {
                    lemma_read_lengths_advances(cl, bits, pos1, needed, acc.push(symbol));
                } else if symbol == 16 {
                    if acc.len() > 0 {
                        lemma_read_lengths_advances(
                            cl,
                            bits,
                            advance(bits, pos1, 2),
                            needed,
                            acc + repeated(acc.last(), 3 + bits_value(bits, pos1, 2)),
                        );
                    }
                } else if symbol == 17 {
                    lemma_read_lengths_advances(
                        cl,
                        bits,
                        advance(bits, pos1, 3),
                        needed,
                        acc + repeated(0, 3 + bits_value(bits, pos1, 3)),
                    );
                } else if symbol == 18 {
                    lemma_read_lengths_advances(
                        cl,
                        bits,
                        advance(bits, pos1, 7),
                        needed,
                        acc + repeated(0, 11 + bits_value(bits, pos1, 7)),
                    );
                }
            },
        }
    }
}

/// The blocks from `pos` on, up to and with the first that is marked as the
/// last: what `out` becomes.
pub open spec fn inflate_blocks(bits: Seq<bool>, pos: int, out: Seq<u8>) -> Result<
    Seq<u8>,
    DecodeError,
>
    decreases bits.len() - pos,
    when 0 <= pos
{
    match inflate_block(bits, pos, out) {
        Err(e) => Err(e),
        Ok((o, p, last)) => {
            proof {
                lemma_inflate_block_advances(bits, pos, out);
            }
            if last {
                Ok(o)
            } else {
                inflate_blocks(bits, p, o)
            }
        },
    }
}

/// What a zlib stream decompresses to. The two header bytes must be a
/// multiple of 31 when read as one number, name DEFLATE as the method and ask
/// for no preset dictionary; the blocks follow. The checksum that ends the
/// stream is not looked at.
pub open spec fn inflate(data: Seq<u8>) -> Result<Seq<u8>, DecodeError> {
    if data.len() < 2 {
        Err(DecodeError::Truncated)
    } else if (data[0] * 256 + data[1]) % 31 != 0 {
        Err(DecodeError::HeaderChecksum)
    } else if data[0] % 16 != 8 {
        Err(DecodeError::NotDeflate)
    } else if (data[1] / 32) % 2 != 0 {
        Err(DecodeError::PresetDictionary)
    } else {
        inflate_blocks(stream_bits(data, false), 16, Seq::empty())
    }
}

/// The failures of decompression: of the stream's header, of a block's
/// header or tables, of the coded data, and the stream ending too early.
pub open spec fn stream_error(e: DecodeError) -> bool {
    e == DecodeError::Truncated || e == DecodeError::HeaderChecksum || e == DecodeError::NotDeflate
        || e == DecodeError::PresetDictionary || e == DecodeError::ReservedBlockType || e
        == DecodeError::StoredLength || e == DecodeError::NoCode || e == DecodeError::BadSymbol || e
        == DecodeError::BadDistance || e == DecodeError::DistanceTooFar || e
        == DecodeError::BadCodeLengths
}

/// The data of a block fails only as decompression does.
pub proof fn lemma_inflate_symbols_errors(
    lit: Map<Seq<bool>, u32>,
    dist: Map<Seq<bool>, u32>,
    bits: Seq<bool>,
    pos: int,
    out: Seq<u8>,
)
    ensures
        inflate_symbols(lit, dist, bits, pos, out) matches Err(e) ==> stream_error(e),
    decreases bits.len() - pos,
{
    if pos < bits.len() {
        lemma_decode_symbol_len(lit, bits, pos);
        match decode_symbol(lit, bits, pos) {
            None => {},
            Some((symbol, k)) => {
                let pos1 = advance(bits, pos, k);
                if symbol < 256 {
                    lemma_inflate_symbols_errors(lit, dist, bits, pos1, out.push(symbol as u8));
                } else if symbol == 256 {
                } else if symbol <= 285 {
                    let len = match_length(bits, pos1, symbol);
                    let pos2 = advance(bits, pos1, LENGTH_EXTRA_BITS[symbol - 257] as nat);
                    match read_distance(dist, bits, pos2) {
                        Err(e) => {},
                        Ok((distance, pos4)) => {
                            if distance <= out.len() {
                                lemma_decode_symbol_len(dist, bits, pos2);
                                lemma_inflate_symbols_errors(
                                    lit,
                                    dist,
                                    bits,
                                    pos4,
                                    copy_back(out, distance as int, len),
                                );
                            }
                        },
                    }
                }
            },
        }
    }
}

/// Reading code lengths fails only as decompression does.
pub proof fn lemma_read_lengths_errors(
    cl: Map<Seq<bool>, u32>,
    bits: Seq<bool>,
    pos: int,
    needed: nat,
    acc: Seq<u32>,
)
    ensures
        read_lengths(cl, bits, pos, needed, acc) matches Err(e) ==> stream_error(e),
    decreases (if acc.len() <= needed {
        needed - acc.len() + 1
    } else {
        0
    }),
{
    if acc.len() < needed {
        assert forall|v: u32, n: nat| #[trigger]
            (acc + repeated(v, n)).len() == acc.len() + n by {}
        match decode_symbol(cl, bits, pos) {
            None => {},
            Some((symbol, k)) => {
                let pos1 = advance(bits, pos, k);
                if symbol <= 15 {
                    lemma_read_lengths_errors(cl, bits, pos1, needed, acc.push(symbol));
                } else if symbol == 16 {
                    if acc.len() > 0 {
                        lemma_read_lengths_errors(
                            cl,
                            bits,
                            advance(bits, pos1, 2),
                            needed,
                            acc + repeated(acc.last(), 3 + bits_value(bits, pos1, 2)),
                        );
                    }
                } else if symbol == 17 {
                    lemma_read_lengths_errors(
                        cl,
                        bits,
                        advance(bits, pos1, 3),
                        needed,
                        acc + repeated(0, 3 + bits_value(bits, pos1, 3)),
                    );
                } else if symbol == 18 {
                    lemma_read_lengths_errors(
                        cl,
                        bits,
                        advance(bits, pos1, 7),
                        needed,
                        acc + repeated(0, 11 + bits_value(bits, pos1, 7)),
                    );
                }
            },
        }
    }
}

/// A block fails only as decompression does.
pub proof fn lemma_inflate_block_errors(bits: Seq<bool>, pos: int, out: Seq<u8>)
    ensures
        inflate_block(bits, pos, out) matches Err(e) ==> stream_error(e),
{
    if pos < bits.len() {
        let pos1 = advance(bits, pos, 1);
        let pos2 = advance(bits, pos1, 2);
        let kind = bits_value(bits, pos1, 2);
        if kind == 1 {
            lemma_inflate_symbols_errors(
                code_table(fixed_lit_lengths()),
                code_table(fixed_dist_lengths()),
                bits,
                pos2,
                out,
            );
        } else if kind == 2 {
            let hlit = bits_value(bits, pos2, 5);
            let q1 = advance(bits, pos2, 5);
            let hdist = bits_value(bits, q1, 5);
            let q2 = advance(bits, q1, 5);
            let hclen = bits_value(bits, q2, 4);
            let q3 = advance(bits, q2, 4);
            let q4 = advance(bits, q3, 3 * (hclen + 4));
            if let Ok(cl) = tree_table(clen_lengths(bits, q3, hclen + 4)) {
                lemma_read_lengths_errors(cl, bits, q4, 258 + hlit + hdist, Seq::empty());
            }
            if let Ok((lit, dist, pos3)) = dynamic_tables(bits, pos2) {
                lemma_inflate_symbols_errors(lit, dist, bits, pos3, out);
            }
        }
    }
}

/// A run of blocks fails only as decompression does.
pub proof fn lemma_inflate_blocks_errors(bits: Seq<bool>, pos: int, out: Seq<u8>)
    requires
        0 <= pos,
    ensures
        inflate_blocks(bits, pos, out) matches Err(e) ==> stream_error(e),
    decreases bits.len() - pos,
{
    lemma_inflate_block_errors(bits, pos, out);
    if let Ok((o, p, last)) = inflate_block(bits, pos, out) {
        lemma_inflate_block_advances(bits, pos, out);
        if !last {
            lemma_inflate_blocks_errors(bits, p, o);
        }
    }
}

/// Decompression fails for what the stream holds or for its early end, and
/// for nothing else.
pub proof fn lemma_inflate_errors(data: Seq<u8>)
    ensures
        inflate(data) matches Err(e) ==> stream_error(e),
{
    lemma_inflate_blocks_errors(stream_bits(data, false), 16, Seq::empty());
}

/// Builds the tree of the canonical code that `lengths` stands for.
pub fn build_table(lengths: &Vec<u32>) -> (r: Result<HuffmanTree, DecodeError>)
    requires
        lengths.len() <= u32::MAX,
    ensures
        match r {
            Ok(tree) => tree.wf() && tree_table(lengths@) == Ok::<_, DecodeError>(tree@),
            Err(e) => tree_table(lengths@) == Err::<Map<Seq<bool>, u32>, _>(e),
        },
{
    match build_huffman_codes(lengths, true) {
        Err(e) => Err(e),
        Ok(codes) => {
            proof {
                lemma_canonical_insertable(lengths@, codes@.len() as int);
            }
            build_huffman_tree(&codes)
        },
    }
}

/// Appends to `out` a copy of `len` of its bytes, from `dist` bytes before its
/// end on, byte by byte.
pub fn copy_match(out: &mut Vec<u8>, dist: usize, len: usize)
    requires
        1 <= dist <= old(out).len(),
    ensures
        final(out)@ == copy_back(old(out)@, dist as int, len as nat),
{
    let mut j: usize = 0;
    while j < len
        invariant
            j <= len,
            1 <= dist <= out.len(),
            copy_back(out@, dist as int, (len - j) as nat) == copy_back(
                old(out)@,
                dist as int,
                len as nat,
            ),
        decreases len - j,
    {
        let v = out[out.len() - dist];
        out.push(v);
        j = j + 1;
    }
}

/// The number of extra bits and the smallest length of a length symbol.
fn length_entry(symbol: u32) -> (r: (u32, u16))
    requires
        257 <= symbol <= 285,
    ensures
        r.0 == LENGTH_EXTRA_BITS[symbol - 257],
        r.1 == LENGTHS_BASE[symbol - 257],
        r.0 <= 5,
        r.1 <= 258,
{
    let idx = (symbol - 257) as usize;
    (LENGTH_EXTRA_BITS[idx], LENGTHS_BASE[idx])
}

/// The number of extra bits and the smallest distance of a distance symbol.
fn distance_entry(symbol: u32) -> (r: (u32, u16))
    requires
        symbol <= 29,
    ensures
        r.0 == DIST_EXTRA_BITS[symbol as int],
        r.1 == DIST_BASE[symbol as int],
        r.0 <= 13,
        1 <= r.1 <= 24577,
{
    let idx = symbol as usize;
    (DIST_EXTRA_BITS[idx], DIST_BASE[idx])
}

/// Reads the extra bits of the length symbol `symbol` and returns the match
/// length.
pub fn read_match_length(reader: &mut BitBuffer, symbol: u32) -> (len: u16)
    requires
        old(reader).wf(),
        !old(reader).msb_first(),
        257 <= symbol <= 285,
    ensures
        final(reader).wf(),
        final(reader).data() == old(reader).data(),
        !final(reader).msb_first(),
        len == match_length(old(reader).bits(), old(reader).bit_pos(), symbol),
        3 <= len <= 289,
        final(reader).bit_pos() == advance(
            old(reader).bits(),
            old(reader).bit_pos(),
            LENGTH_EXTRA_BITS[symbol - 257] as nat,
        ),
{
    let (extra, base) = length_entry(symbol);
    proof {
        lemma_bits_value_bound(reader.bits(), reader.bit_pos(), extra as nat);
        lemma2_to64();
        if extra < 5 {
            vstd::arithmetic::power2::lemma_pow2_strictly_increases(extra as nat, 5);
        }
    }
    let more = reader.get_n_bits(extra);
    base + more
}

/// Reads a distance: a symbol of the distance tree and its extra bits.
pub fn read_match_distance(dist: &HuffmanTree, reader: &mut BitBuffer) -> (r: Result<
    u16,
    DecodeError,
>)
    requires
        dist.wf(),
        old(reader).wf(),
        !old(reader).msb_first(),
    ensures
        final(reader).wf(),
        final(reader).data() == old(reader).data(),
        !final(reader).msb_first(),
        match read_distance(dist@, old(reader).bits(), old(reader).bit_pos()) {
            Ok((distance, p)) => r == Ok::<_, DecodeError>(distance as u16) && 1 <= distance
                <= 32768 && final(reader).bit_pos() == p,
            Err(e) => r == Err::<u16, _>(e),
        },
{
    let symbol = match dist.find(reader) {
        None => {
            return Err(DecodeError::NoCode);
        },
        Some(d) => d,
    };
    if symbol > 29 {
        return Err(DecodeError::BadDistance);
    }
    let (extra, base) = distance_entry(symbol);
    proof {
        lemma_bits_value_bound(reader.bits(), reader.bit_pos(), extra as nat);
        lemma2_to64();
        if extra < 13 {
            vstd::arithmetic::power2::lemma_pow2_strictly_increases(extra as nat, 13);
        }
    }
    let more = reader.get_n_bits(extra);
    Ok(base + more)
}

/// Decodes the data of one compressed block with the two trees and appends it
/// to `out`, up to and with the end-of-block symbol.
pub fn decode_block(
    lit: &HuffmanTree,
    dist: &HuffmanTree,
    reader: &mut BitBuffer,
    out: &mut Vec<u8>,
) -> (r: Result<(), DecodeError>)
    requires
        lit.wf(),
        dist.wf(),
        old(reader).wf(),
        !old(reader).msb_first(),
    ensures
        final(reader).wf(),
        final(reader).data() == old(reader).data(),
        !final(reader).msb_first(),
        match inflate_symbols(
            lit@,
            dist@,
            old(reader).bits(),
            old(reader).bit_pos(),
            old(out)@,
        ) {
            Ok((o, p)) => r is Ok && final(out)@ == o && final(reader).bit_pos() == p,
            Err(e) => r == Err::<(), _>(e),
        },
{
    let ghost bits = reader.bits();
    let ghost goal = inflate_symbols(lit@, dist@, bits, reader.bit_pos(), out@);
    proof {
        reader.lemma_bit_pos_range();
    }
    loop
        invariant
            lit.wf(),
            dist.wf(),
            reader.wf(),
            !reader.msb_first(),
            reader.data() == old(reader).data(),
            reader.bits() == bits,
            bits.len() == 8 * reader.data().len(),
            0 <= reader.bit_pos() <= bits.len(),
            goal == inflate_symbols(lit@, dist@, bits, reader.bit_pos(), out@),
            goal == inflate_symbols(
                lit@,
                dist@,
                old(reader).bits(),
                old(reader).bit_pos(),
                old(out)@,
            ),
        decreases bits.len() - reader.bit_pos(),
    {
        let ghost pos = reader.bit_pos();
        let ghost before = out@;
        if reader.is_exhausted() {
            return Err(DecodeError::Truncated);
        }
        proof {
            lemma_decode_symbol_len(lit@, bits, pos);
        }
        let symbol = match lit.find(reader) {
            None => {
                return Err(DecodeError::NoCode);
            },
            Some(s) => s,
        };
        if symbol < 256 {
            out.push(symbol as u8);
        } else if symbol == 256 {
            return Ok(());
        } else if symbol <= 285 {
            let len = read_match_length(reader, symbol);
            let distance = match read_match_distance(dist, reader) {
                Err(e) => {
                    return Err(e);
                },
                Ok(d) => d,
            };
            if distance as usize > out.len() {
                return Err(DecodeError::DistanceTooFar);
            }
            copy_match(out, distance as usize, len as usize);
        } else {
            return Err(DecodeError::BadSymbol);
        }
    }
}

/// Reads `num_needed` code lengths with the tree of the code-length codes.
pub fn fill_with_huffman(num_needed: usize, hf_codes: &HuffmanTree, buffer: &mut BitBuffer) -> (r:
    Result<Vec<u32>, DecodeError>)
    requires
        hf_codes.wf(),
        old(buffer).wf(),
        !old(buffer).msb_first(),
    ensures
        final(buffer).wf(),
        final(buffer).data() == old(buffer).data(),
        !final(buffer).msb_first(),
        match read_lengths(
            hf_codes@,
            old(buffer).bits(),
            old(buffer).bit_pos(),
            num_needed as nat,
            Seq::empty(),
        ) {
            Ok((all, p)) => r is Ok && r->Ok_0@ == all && final(buffer).bit_pos() == p,
            Err(e) => r == Err::<Vec<u32>, _>(e),
        },
{
    let ghost bits = buffer.bits();
    let ghost goal = read_lengths(
        hf_codes@,
        bits,
        buffer.bit_pos(),
        num_needed as nat,
        Seq::empty(),
    );
    let mut lengths: Vec<u32> = Vec::new();
    while lengths.len() < num_needed
        invariant
            hf_codes.wf(),
            buffer.wf(),
            !buffer.msb_first(),
            buffer.data() == old(buffer).data(),
            buffer.bits() == bits,
            goal == read_lengths(hf_codes@, bits, buffer.bit_pos(), num_needed as nat, lengths@),
            goal == read_lengths(
                hf_codes@,
                old(buffer).bits(),
                old(buffer).bit_pos(),
                num_needed as nat,
                Seq::empty(),
            ),
        decreases (if lengths.len() <= num_needed {
            num_needed - lengths.len() + 1
        } else {
            0
        }),
    {
        let ghost start = lengths@;
        let symbol = match hf_codes.find(buffer) {
            None => {
                return Err(DecodeError::NoCode);
            },
            Some(s) => s,
        };
        let ghost pos1 = buffer.bit_pos();
        if symbol <= 15 {
            lengths.push(symbol);
        } else if symbol <= 18 {
            if symbol == 16 && lengths.len() == 0 {
                return Err(DecodeError::BadSymbol);
            }
            let value: u32 = if symbol == 16 {
                lengths[lengths.len() - 1]
            } else {
                0
            };
            let width: u32 = if symbol == 16 {
                2
            } else if symbol == 17 {
                3
            } else {
                7
            };
            let base: u16 = if symbol == 18 {
                11
            } else {
                3
            };
            let more = buffer.get_n_bits(width);
            proof {
                lemma_bits_value_bound(bits, pos1, width as nat);
                lemma2_to64();
            }
            let count = base + more;
            let mut j: u16 = 0;
            while j < count
                invariant
                    j <= count,
                    lengths@ == start + repeated(value, j as nat),
                decreases count - j,
            {
                lengths.push(value);
                proof {
                    assert(lengths@ =~= start + repeated(value, (j + 1) as nat));
                }
                j = j + 1;
            }
            proof {
                assert(lengths@.len() == start.len() + count);
            }
        } else {
            return Err(DecodeError::BadSymbol);
        }
    }
    if lengths.len() > num_needed {
        return Err(DecodeError::BadSymbol);
    }
    Ok(lengths)
}

/// Copies the part of `v` from `from` up to `to`.
fn slice_of(v: &Vec<u32>, from: usize, to: usize) -> (r: Vec<u32>)
    requires
        from <= to <= v.len(),
    ensures
        r@ == v@.subrange(from as int, to as int),
{
    let mut r: Vec<u32> = Vec::new();
    let mut i: usize = from;
    while i < to
        invariant
            from <= i <= to <= v.len(),
            r@ == v@.subrange(from as int, i as int),
        decreases to - i,
    {
        r.push(v[i]);
        proof {
            assert(r@ =~= v@.subrange(from as int, i + 1));
        }
        i = i + 1;
    }
    r
}

/// Reads the header of a dynamic block and builds its two trees: the one for
/// literals and lengths and the one for distances.
pub fn read_dynamic_tables(reader: &mut BitBuffer) -> (r: Result<
    (HuffmanTree, HuffmanTree),
    DecodeError,
>)
    requires
        old(reader).wf(),
        !old(reader).msb_first(),
    ensures
        final(reader).wf(),
        final(reader).data() == old(reader).data(),
        !final(reader).msb_first(),
        match dynamic_tables(old(reader).bits(), old(reader).bit_pos()) {
            Ok((lit, dist, p)) => r is Ok && r->Ok_0.0.wf() && r->Ok_0.1.wf() && r->Ok_0.0@ == lit
                && r->Ok_0.1@ == dist && final(reader).bit_pos() == p,
            Err(e) => r is Err && r->Err_0 == e,
        },
{
    let ghost bits = reader.bits();
    let ghost pos = reader.bit_pos();
    proof {
        reader.lemma_bit_pos_range();
        lemma_bits_value_bound(bits, pos, 5);
        lemma2_to64();
    }
    let h_lit = reader.get_n_bits(5);
    proof {
        lemma_bits_value_bound(bits, reader.bit_pos(), 5);
    }
    let h_dist = reader.get_n_bits(5);
    proof {
        lemma_bits_value_bound(bits, reader.bit_pos(), 4);
    }
    let h_clen = reader.get_n_bits(4);
    let ghost pos3 = reader.bit_pos();
    let count: usize = 4 + h_clen as usize;
    let mut code_lengths: Vec<u32> = vec![0u32; 19];
    proof {
        assert(code_lengths@ =~= clen_lengths(bits, pos3, 0));
    }
    let mut i: usize = 0;
    while i < count
        invariant
            reader.wf(),
            !reader.msb_first(),
            reader.data() == old(reader).data(),
            reader.bits() == bits,
            bits.len() == 8 * reader.data().len(),
            0 <= pos3 <= bits.len(),
            i <= count <= 19,
            code_lengths.len() == 19,
            code_lengths@ == clen_lengths(bits, pos3, i as nat),
            reader.bit_pos() == advance(bits, pos3, (3 * i) as nat),
        decreases count - i,
    {
        proof {
            lemma_bits_value_bound(bits, reader.bit_pos(), 3);
            lemma2_to64();
        }
        let cl = reader.get_n_bits(3);
        code_lengths.set(CODE_LENGTH_INDICES[i], cl as u32);
        i = i + 1;
    }
    let cl_tree = match build_table(&code_lengths) {
        Err(e) => {
            return Err(e);
        },
        Ok(t) => t,
    };
    let n_lit: usize = 257 + h_lit as usize;
    let n_dist: usize = 1 + h_dist as usize;
    let all = match fill_with_huffman(n_lit + n_dist, &cl_tree, reader) {
        Err(e) => {
            return Err(e);
        },
        Ok(v) => v,
    };
    proof {
        lemma_read_lengths_advances(
            cl_tree@,
            bits,
            advance(bits, pos3, (3 * count) as nat),
            (n_lit + n_dist) as nat,
            Seq::empty(),
        );
    }
    let lits = slice_of(&all, 0, n_lit);
    let dists = slice_of(&all, n_lit, n_lit + n_dist);
    let hf_lit = match build_table(&lits) {
        Err(e) => {
            return Err(e);
        },
        Ok(t) => t,
    };
    let hf_dist = match build_table(&dists) {
        Err(e) => {
            return Err(e);
        },
        Ok(t) => t,
    };
    Ok((hf_lit, hf_dist))
}

/// The code lengths of the fixed tables give codes that fit.
pub proof fn lemma_fixed_codes_fit()
    ensures
        codes_fit(fixed_lit_lengths(), 288),
        codes_fit(fixed_dist_lengths(), 32),
{
    let lit = fixed_lit_lengths();
    let dist = fixed_dist_lengths();
    lemma_fixed_lit_counts(288);
    lemma_fixed_dist_counts(32);
    reveal_with_fuel(first_code, 10);
    assert(first_code(lit, 1) == 0);
    assert(first_code(lit, 2) == 0);
    assert(first_code(lit, 3) == 0);
    assert(first_code(lit, 4) == 0);
    assert(first_code(lit, 5) == 0);
    assert(first_code(lit, 6) == 0);
    assert(first_code(lit, 7) == 0);
    assert(first_code(lit, 8) == 48);
    assert(first_code(lit, 9) == 400);
    assert(first_code(dist, 5) == 0);
    lemma2_to64();
    assert forall|i: int| 0 <= i < 288 && #[trigger] lit[i] > 0 implies lit[i] <= 16
        && canonical_code(lit, i) < pow2(lit[i] as nat) by {
        lemma_fixed_lit_counts(i);
    }
    assert forall|i: int| 0 <= i < 32 && #[trigger] dist[i] > 0 implies dist[i] <= 16
        && canonical_code(dist, i) < pow2(dist[i] as nat) by {
        lemma_fixed_dist_counts(i);
    }
}

/// How many of the first `i` symbols of the fixed table for literals and
/// lengths have each length.
proof fn lemma_fixed_lit_counts(i: int)
    requires
        0 <= i <= 288,
    ensures
        count_len(fixed_lit_lengths(), 7, i) == (if i <= 256 {
            0
        } else if i <= 280 {
            i - 256
        } else {
            24
        }),
        count_len(fixed_lit_lengths(), 8, i) == (if i <= 144 {
            i
        } else if i <= 280 {
            144
        } else {
            i - 136
        }),
        count_len(fixed_lit_lengths(), 9, i) == (if i <= 144 {
            0
        } else if i <= 256 {
            i - 144
        } else {
            112
        }),
        forall|l: int|
            l != 7 && l != 8 && l != 9 ==> #[trigger] count_len(fixed_lit_lengths(), l, i) == 0,
    decreases i,
{
    if i > 0 {
        lemma_fixed_lit_counts(i - 1);
    }
    assert forall|l: int| l != 7 && l != 8 && l != 9 implies #[trigger] count_len(
        fixed_lit_lengths(),
        l,
        i,
    ) == 0 by {
        if i > 0 {
            assert(count_len(fixed_lit_lengths(), l, i - 1) == 0);
        }
    }
}

/// How many of the first `i` symbols of the fixed table for distances have
/// each length.
proof fn lemma_fixed_dist_counts(i: int)
    requires
        0 <= i <= 32,
    ensures
        count_len(fixed_dist_lengths(), 5, i) == i,
        forall|l: int| l != 5 ==> #[trigger] count_len(fixed_dist_lengths(), l, i) == 0,
    decreases i,
{
    if i > 0 {
        lemma_fixed_dist_counts(i - 1);
    }
    assert forall|l: int| l != 5 implies #[trigger] count_len(fixed_dist_lengths(), l, i) == 0 by {
        if i > 0 {
            assert(count_len(fixed_dist_lengths(), l, i - 1) == 0);
        }
    }
}

/// Builds the two fixed tables.
pub fn fixed_tables() -> (r: (HuffmanTree, HuffmanTree))
    ensures
        r.0.wf(),
        r.1.wf(),
        r.0@ == code_table(fixed_lit_lengths()),
        r.1@ == code_table(fixed_dist_lengths()),
{
    let mut lits: Vec<u32> = Vec::new();
    let mut i: usize = 0;
    while i < 288
        invariant
            i <= 288,
            lits.len() == i,
            forall|j: int| 0 <= j < i ==> #[trigger] lits[j] == fixed_lit_lengths()[j],
        decreases 288 - i,
    {
        let l: u32 = if i < 144 {
            8
        } else if i < 256 {
            9
        } else if i < 280 {
            7
        } else {
            8
        };
        lits.push(l);
        i = i + 1;
    }
    let dists: Vec<u32> = vec![5u32; 32];
    proof {
        assert(lits@ =~= fixed_lit_lengths());
        assert(dists@ =~= fixed_dist_lengths());
        lemma_fixed_codes_fit();
    }
    let hf_lit = match build_table(&lits) {
        Err(_) => unreached(),
        Ok(t) => t,
    };
    let hf_dist = match build_table(&dists) {
        Err(_) => unreached(),
        Ok(t) => t,
    };
    (hf_lit, hf_dist)
}

/// Reads a stored block, whose header the reader has just passed, and appends
/// its bytes to `out`.
pub fn read_stored(reader: &mut BitBuffer, out: &mut Vec<u8>) -> (r: Result<(), DecodeError>)
    requires
        old(reader).wf(),
        !old(reader).msb_first(),
    ensures
        final(reader).wf(),
        final(reader).data() == old(reader).data(),
        !final(reader).msb_first(),
        match inflate_stored(old(reader).bits(), old(reader).bit_pos(), old(out)@) {
            Ok((o, p)) => r is Ok && final(out)@ == o && final(reader).bit_pos() == p,
            Err(e) => r == Err::<(), _>(e),
        },
{
    let ghost bits = reader.bits();
    proof {
        reader.lemma_bit_pos_range();
    }
    reader.reset();
    let ghost pos0 = reader.bit_pos();
    proof {
        reader.lemma_bit_pos_range();
        lemma_bits_value_bound(bits, pos0, 16);
        lemma2_to64();
    }
    let len = reader.get_n_bits(16);
    proof {
        lemma_bits_value_bound(bits, reader.bit_pos(), 16);
    }
    let nlen = reader.get_n_bits(16);
    let ghost pos2 = reader.bit_pos();
    if len as u32 + nlen as u32 != 0xffff {
        return Err(DecodeError::StoredLength);
    }
    if !reader.has_bits(8 * len as u32) {
        return Err(DecodeError::Truncated);
    }
    let ghost start = out@;
    let mut j: u16 = 0;
    while j < len
        invariant
            reader.wf(),
            !reader.msb_first(),
            reader.data() == old(reader).data(),
            reader.bits() == bits,
            bits.len() == 8 * reader.data().len(),
            j <= len,
            0 <= pos2,
            pos2 + 8 * len <= bits.len(),
            reader.bit_pos() == pos2 + 8 * j,
            out@ == start + stored_bytes(bits, pos2, j as nat),
        decreases len - j,
    {
        proof {
            lemma_bits_value_bound(bits, reader.bit_pos(), 8);
            lemma2_to64();
        }
        let b = reader.get_n_bits(8);
        out.push(b as u8);
        proof {
            assert(out@ =~= start + stored_bytes(bits, pos2, (j + 1) as nat));
        }
        j = j + 1;
    }
    Ok(())
}

/// Reads one block and appends what it holds to `out`. Returns whether the
/// block is marked as the last one.
pub fn read_block(reader: &mut BitBuffer, out: &mut Vec<u8>) -> (r: Result<bool, DecodeError>)
    requires
        old(reader).wf(),
        !old(reader).msb_first(),
    ensures
        final(reader).wf(),
        final(reader).data() == old(reader).data(),
        !final(reader).msb_first(),
        match inflate_block(old(reader).bits(), old(reader).bit_pos(), old(out)@) {
            Ok((o, p, last)) => r == Ok::<_, DecodeError>(last) && final(out)@ == o && final(reader).bit_pos() == p,
            Err(e) => r == Err::<bool, _>(e),
        },
{
    let ghost bits = reader.bits();
    proof {
        reader.lemma_bit_pos_range();
    }
    if reader.is_exhausted() {
        return Err(DecodeError::Truncated);
    }
    let b_final = reader.get_n_bits(1);
    let b_type = reader.get_n_bits(2);
    let last = b_final != 0;
    proof {
        lemma_bits_value_bound(bits, old(reader).bit_pos(), 1);
        lemma2_to64();
    }
    if b_type == 0 {
        match read_stored(reader, out) {
            Err(e) => Err(e),
            Ok(()) => Ok(last),
        }
    } else if b_type == 1 {
        let (hf_lit, hf_dist) = fixed_tables();
        match decode_block(&hf_lit, &hf_dist, reader, out) {
            Err(e) => Err(e),
            Ok(()) => Ok(last),
        }
    } else if b_type == 2 {
        let (hf_lit, hf_dist) = match read_dynamic_tables(reader) {
            Err(e) => {
                return Err(e);
            },
            Ok(t) => t,
        };
        match decode_block(&hf_lit, &hf_dist, reader, out) {
            Err(e) => Err(e),
            Ok(()) => Ok(last),
        }
    } else {
        Err(DecodeError::ReservedBlockType)
    }
}

/// Decompresses a zlib stream.
pub fn parse(data: &[u8]) -> (r: Result<Vec<u8>, DecodeError>)
    ensures
        match r {
            Ok(out) => inflate(data@) == Ok::<_, DecodeError>(out@),
            Err(e) => inflate(data@) == Err::<Seq<u8>, _>(e),
        },
{
    if data.len() < 2 {
        return Err(DecodeError::Truncated);
    }
    let cmf = data[0];
    let flg = data[1];
    if (cmf as u16 * 256 + flg as u16) % 31 != 0 {
        return Err(DecodeError::HeaderChecksum);
    }
    let c_method = cmf & 0b1111;
    let f_dict = (flg >> 5) & 0b1;
    proof {
        assert(cmf & 0b1111 == cmf % 16) by (bit_vector);
        assert((flg >> 5) & 0b1 == (flg / 32) % 2) by (bit_vector);
    }
    if c_method != 8 {
        return Err(DecodeError::NotDeflate);
    }
    if f_dict > 0 {
        return Err(DecodeError::PresetDictionary);
    }
    let mut buffer = BitBuffer::new(data);
    buffer.consume(16);
    let ghost bits = buffer.bits();
    let mut output: Vec<u8> = Vec::new();
    let ghost goal = inflate_blocks(bits, 16, Seq::empty());
    let mut is_final = false;
    while !is_final
        invariant
            buffer.wf(),
            !buffer.msb_first(),
            buffer.data() == data@,
            buffer.bits() == bits,
            bits == stream_bits(data@, false),
            0 <= buffer.bit_pos() <= bits.len(),
            !is_final ==> goal == inflate_blocks(bits, buffer.bit_pos(), output@),
            is_final ==> goal == Ok::<_, DecodeError>(output@),
            goal == inflate(data@),
        decreases bits.len() - buffer.bit_pos() + (if is_final { 0int } else { 1 }),
    {
        proof {
            lemma_inflate_block_advances(bits, buffer.bit_pos(), output@);
        }
        match read_block(&mut buffer, &mut output) {
            Err(e) => {
                return Err(e);
            },
            Ok(last) => {
                is_final = last;
            },
        }
    }
    Ok(output)
}

} // verus!
