//! The metadata of a baseline JPEG stream: its segments up to the header of
//! the first scan, with the quantisation and Huffman tables they define.

use crate::bits::{bits_value_msb, lemma_bits_value_msb_bound, BitBuffer};
use crate::bytes::{be16, peek_u16, peek_u8};
use crate::canonical::{
    build_huffman_codes, build_huffman_tree, code_list, codes_fit, insertable,
    lemma_code_list_symbols, table_of,
};
use crate::error::DecodeError;
use crate::prefix::lemma_canonical_insertable;
use crate::huffman::{decode_symbol, HuffmanTree};
use crate::zlib::advance;
use vstd::arithmetic::power2::*;
use vstd::bits::*;
use vstd::prelude::*;

verus! {

/// For each place of the zigzag sequence, the entry of the 8×8 block, counted
/// row by row, that stands there.
pub const DEZIGZAG: [usize; 64] = [
    0,
    1,
    8,
    16,
    9,
    2,
    3,
    10,
    17,
    24,
    32,
    25,
    18,
    11,
    4,
    5,
    12,
    19,
    26,
    33,
    40,
    48,
    41,
    34,
    27,
    20,
    13,
    6,
    7,
    14,
    21,
    28,
    35,
    42,
    49,
    56,
    57,
    50,
    43,
    36,
    29,
    22,
    15,
    23,
    30,
    37,
    44,
    51,
    58,
    59,
    52,
    45,
    38,
    31,
    39,
    46,
    53,
    60,
    61,
    54,
    47,
    55,
    62,
    63,
];

/// For each entry of the 8×8 block, counted row by row, its place in the
/// zigzag sequence.
pub const ZIGZAG: [usize; 64] = [
    0,
    1,
    5,
    6,
    14,
    15,
    27,
    28,
    2,
    4,
    7,
    13,
    16,
    26,
    29,
    42,
    3,
    8,
    12,
    17,
    25,
    30,
    41,
    43,
    9,
    11,
    18,
    24,
    31,
    40,
    44,
    53,
    10,
    19,
    23,
    32,
    39,
    45,
    52,
    54,
    20,
    22,
    33,
    38,
    46,
    51,
    55,
    60,
    21,
    34,
    37,
    47,
    50,
    56,
    59,
    61,
    35,
    36,
    48,
    49,
    57,
    58,
    62,
    63,
];

/// The coding process that a frame header names.
#[derive(Clone, Copy, Debug, PartialEq, Eq, Structural)]
pub enum ParsingMode {
    Baseline,
    ExtendedHuffman,
    ProgressiveHuffman,
    LosslessHuffman,
    ExtendedArithmetic,
    ProgressiveArithmetic,
    LosslessArithmetic,
    Invalid,
}

/// The segments that the reader tells apart.
#[derive(Clone, Copy, Debug, PartialEq, Eq, Structural)]
pub enum Marker {
    SOF0,
    DHT,
    SOS,
    DQT,
    APP0,
    APP1,
    APP2,
    AppOther,
    Unknown,
}

/// A colour component of the frame: its sampling factors and the tables that
/// it is coded with.
#[derive(Clone, Copy, Debug, PartialEq, Eq, Structural)]
pub struct Component {
    pub identifier: u8,
    pub sampling_hor: u8,
    pub sampling_ver: u8,
    pub quant_table: usize,
    pub dc_table: usize,
    pub ac_table: usize,
}

impl Component {
    /// A component that no scan has given its Huffman tables yet.
    pub fn new(identifier: u8, sampling_hor: u8, sampling_ver: u8, quant_table: usize) -> (r:
        Component)
        ensures
            r == (Component {
                identifier,
                sampling_hor,
                sampling_ver,
                quant_table,
                dc_table: 0,
                ac_table: 0,
            }),
    {
        Component { identifier, sampling_hor, sampling_ver, quant_table, dc_table: 0, ac_table: 0 }
    }
}

/// What the segments read so far have told about the image.
pub struct JpegState {
    /// The four quantisation tables, each of 64 entries, row by row.
    pub quant: Seq<Seq<u16>>,
    /// The four Huffman tables for DC coefficients.
    pub dc_tables: Seq<Map<Seq<bool>, u32>>,
    /// The four Huffman tables for AC coefficients.
    pub ac_tables: Seq<Map<Seq<bool>, u32>>,
    pub mode: ParsingMode,
    pub depth: u8,
    pub width: u16,
    pub height: u16,
    pub num_components: u8,
    pub components: Seq<Component>,
    /// Start and end of the spectral selection of the scan, and the high and
    /// low bit position of its successive approximation.
    pub scan: (u8, u8, u8, u8),
}

/// The state before any segment is read.
pub open spec fn initial_state() -> JpegState {
    JpegState {
        quant: Seq::new(4, |i: int| Seq::new(64, |k: int| 0u16)),
        dc_tables: Seq::new(4, |i: int| Map::empty()),
        ac_tables: Seq::new(4, |i: int| Map::empty()),
        mode: ParsingMode::Invalid,
        depth: 0,
        width: 0,
        height: 0,
        num_components: 0,
        components: Seq::empty(),
        scan: (0, 0, 0, 0),
    }
}

/// The check of the start-of-image marker: the first byte that is missing or
/// wrong decides.
pub open spec fn check_soi(data: Seq<u8>) -> Result<(), DecodeError> {
    if data.len() < 1 {
        Err(DecodeError::Truncated)
    } else if data[0] != 0xff {
        Err(DecodeError::NotJpeg)
    } else if data.len() < 2 {
        Err(DecodeError::Truncated)
    } else if data[1] != 0xd8 {
        Err(DecodeError::NotJpeg)
    } else {
        Ok(())
    }
}

/// The segment that a marker opens.
pub open spec fn marker_kind(marker: u16) -> Marker {
    if marker == 0xffc0 {
        Marker::SOF0
    } else if marker == 0xffc4 {
        Marker::DHT
    } else if marker == 0xffda {
        Marker::SOS
    } else if marker == 0xffdb {
        Marker::DQT
    } else if marker == 0xffe0 {
        Marker::APP0
    } else if marker == 0xffe1 {
        Marker::APP1
    } else if marker == 0xffe2 {
        Marker::APP2
    } else if 0xffe3 <= marker <= 0xffef {
        Marker::AppOther
    } else {
        Marker::Unknown
    }
}

/// The 64 values of a quantisation table as they are stored from `at` on, in
/// zigzag order, of one byte each or of two.
pub open spec fn quant_values(data: Seq<u8>, at: int, wide: bool) -> Seq<u16> {
    Seq::new(
        64,
        |i: int|
            if wide {
                be16(data, at + 2 * i)
            } else {
                data[at + i] as u16
            },
    )
}

/// The table, row by row, whose values are given in zigzag order.
pub open spec fn unzigzag(values: Seq<u16>) -> Seq<u16> {
    Seq::new(64, |k: int| values[ZIGZAG[k] as int])
}

/// The quantisation tables after the tables stored between `at` and `end`
/// are read: each begins with a byte that holds the width of its values and
/// its place among the four.
pub open spec fn dqt_tables(data: Seq<u8>, at: int, end: int, quant: Seq<Seq<u16>>) -> Result<
    Seq<Seq<u16>>,
    DecodeError,
>
    decreases end - at,
{
    if at >= end {
        Ok(quant)
    } else {
        let pq = data[at] / 16;
        let tq = data[at] % 16;
        if tq >= 4 || pq > 1 {
            Err(DecodeError::BadTable)
        } else if at + 1 + 64 * (pq + 1) > end {
            Err(DecodeError::ChunkLength)
        } else {
            dqt_tables(
                data,
                at + 1 + 64 * (pq + 1),
                end,
                quant.update(tq as int, unzigzag(quant_values(data, at + 1, pq == 1))),
            )
        }
    }
}

/// The code lengths of the values of a Huffman table, in the order of the
/// values: `counts[i]` times the length `i + 1`, for the first `upto` lengths.
pub open spec fn code_sizes(counts: Seq<u8>, upto: int) -> Seq<u32>
    decreases upto,
{
    if upto <= 0 {
        Seq::empty()
    } else {
        code_sizes(counts, upto - 1) + Seq::new(counts[upto - 1] as nat, |k: int| upto as u32)
    }
}

/// A list of codes with the symbol of each replaced by the value that stands
/// at the symbol's place.
pub open spec fn valued_codes(list: Seq<(u32, u32, u32)>, values: Seq<u8>) -> Seq<
    (u32, u32, u32),
> {
    Seq::new(list.len(), |j: int| (list[j].0, list[j].1, values[list[j].2 as int] as u32))
}

/// The codes of a Huffman table: the canonical codes of the lengths, each
/// walked from its most significant bit, with the values in their order.
pub open spec fn table_codes(counts: Seq<u8>, values: Seq<u8>) -> Seq<(u32, u32, u32)> {
    valued_codes(
        code_list(code_sizes(counts, 16), true, code_sizes(counts, 16).len() as int),
        values,
    )
}

/// The Huffman table that 16 counts and the values define. It is refused
/// where the counts ask for more codes than there are.
pub open spec fn huffman_table(counts: Seq<u8>, values: Seq<u8>) -> Result<
    Map<Seq<bool>, u32>,
    DecodeError,
> {
    let sizes = code_sizes(counts, 16);
    let codes = table_codes(counts, values);
    if !codes_fit(sizes, sizes.len() as int) {
        Err(DecodeError::BadTable)
    } else {
        Ok(table_of(codes, codes.len() as int))
    }
}

/// The state after the Huffman tables stored between `at` and `end` are
/// read: each begins with a byte that holds its class, DC or AC, and its
/// place among the four, then its 16 counts, then its values.
pub open spec fn dht_tables(data: Seq<u8>, at: int, end: int, s: JpegState) -> Result<
    JpegState,
    DecodeError,
>
    decreases end - at,
{
    if at >= end {
        Ok(s)
    } else if at + 17 > end {
        Err(DecodeError::ChunkLength)
    } else {
        let tc = data[at] / 16;
        let th = data[at] % 16;
        let counts = data.subrange(at + 1, at + 17);
        let total = code_sizes(counts, 16).len();
        if at + 17 + total > end {
            Err(DecodeError::ChunkLength)
        } else if th >= 4 || tc > 1 {
            Err(DecodeError::BadTable)
        } else {
            match huffman_table(counts, data.subrange(at + 17, at + 17 + total)) {
                Err(e) => Err(e),
                Ok(table) => dht_tables(
                    data,
                    at + 17 + total,
                    end,
                    if tc == 0 {
                        JpegState { dc_tables: s.dc_tables.update(th as int, table), ..s }
                    } else {
                        JpegState { ac_tables: s.ac_tables.update(th as int, table), ..s }
                    },
                ),
            }
        }
    }
}

/// Component `j` of the frame header that starts at `at`.
pub open spec fn frame_component(data: Seq<u8>, at: int, j: int) -> Component {
    Component {
        identifier: data[at + 6 + 3 * j],
        sampling_hor: data[at + 7 + 3 * j] / 16,
        sampling_ver: data[at + 7 + 3 * j] % 16,
        quant_table: data[at + 8 + 3 * j] as usize,
        dc_table: 0,
        ac_table: 0,
    }
}

/// The frame header between `at` and `end`: precision, height, width, the
/// number of components, and three bytes for each component.
pub open spec fn apply_sof0(s: JpegState, data: Seq<u8>, at: int, end: int) -> Result<
    JpegState,
    DecodeError,
> {
    if end - at < 6 || end - at != 6 + 3 * data[at + 5] {
        Err(DecodeError::ChunkLength)
    } else {
        Ok(
            JpegState {
                depth: data[at],
                height: be16(data, at + 1),
                width: be16(data, at + 3),
                num_components: data[at + 5],
                mode: ParsingMode::Baseline,
                components: s.components + Seq::new(
                    data[at + 5] as nat,
                    |j: int| frame_component(data, at, j),
                ),
                ..s
            },
        )
    }
}

/// The components with the tables `td` and `ta` given to each one that has
/// the identifier `cs`.
pub open spec fn select_tables(components: Seq<Component>, cs: u8, td: usize, ta: usize) -> Seq<
    Component,
> {
    Seq::new(
        components.len(),
        |i: int|
            if components[i].identifier == cs {
                Component { dc_table: td, ac_table: ta, ..components[i] }
            } else {
                components[i]
            },
    )
}

/// The components after the first `upto` entries of the scan header that
/// starts at `at` have given them their tables.
pub open spec fn scan_components(data: Seq<u8>, at: int, upto: int, components: Seq<Component>) -> Seq<
    Component,
>
    decreases upto,
{
    if upto <= 0 {
        components
    } else {
        select_tables(
            scan_components(data, at, upto - 1, components),
            data[at + 2 * upto - 1],
            (data[at + 2 * upto] / 16) as usize,
            (data[at + 2 * upto] % 16) as usize,
        )
    }
}

/// The scan header between `at` and `end`: the number of components of the
/// scan, two bytes for each, and three bytes on spectral selection and
/// successive approximation. A scan needs a frame header before it.
pub open spec fn apply_sos(s: JpegState, data: Seq<u8>, at: int, end: int) -> Result<
    JpegState,
    DecodeError,
> {
    if end - at < 1 || end - at != 4 + 2 * data[at] {
        Err(DecodeError::ChunkLength)
    } else if s.mode == ParsingMode::Invalid {
        Err(DecodeError::MissingFrame)
    } else if s.mode != ParsingMode::Baseline {
        Err(DecodeError::UnsupportedMarker)
    } else {
        let n = data[at] as int;
        Ok(
            JpegState {
                components: scan_components(data, at, n, s.components),
                scan: (
                    data[at + 2 * n + 1],
                    data[at + 2 * n + 2],
                    data[at + 2 * n + 3] / 16,
                    data[at + 2 * n + 3] % 16,
                ),
                ..s
            },
        )
    }
}

/// What the segment of the given kind, whose content lies between `at` and
/// `end`, makes of the state. Application segments are passed over.
pub open spec fn apply_segment(s: JpegState, kind: Marker, data: Seq<u8>, at: int, end: int) -> Result<
    JpegState,
    DecodeError,
> {
    match kind {
        Marker::DQT => match dqt_tables(data, at, end, s.quant) {
            Err(e) => Err(e),
            Ok(quant) => Ok(JpegState { quant, ..s }),
        },
        Marker::DHT => dht_tables(data, at, end, s),
        Marker::SOF0 => apply_sof0(s, data, at, end),
        Marker::SOS => apply_sos(s, data, at, end),
        Marker::Unknown => Err(DecodeError::UnsupportedMarker),
        _ => Ok(s),
    }
}

/// The segment at `pos`: its marker, its length, which counts its own two
/// bytes, and its content. Gives the state after the segment, the position
/// behind it, and whether it was the header of a scan.
#[verifier::opaque]
pub open spec fn segment_step(data: Seq<u8>, pos: int, s: JpegState) -> Result<
    (JpegState, int, bool),
    DecodeError,
> {
    if pos + 2 > data.len() {
        Err(DecodeError::Truncated)
    } else if marker_kind(be16(data, pos)) == Marker::Unknown {
        Err(DecodeError::UnsupportedMarker)
    } else if pos + 4 > data.len() {
        Err(DecodeError::Truncated)
    } else if be16(data, pos + 2) < 2 {
        Err(DecodeError::ChunkLength)
    } else if pos + 2 + be16(data, pos + 2) > data.len() {
        Err(DecodeError::Truncated)
    } else {
        let kind = marker_kind(be16(data, pos));
        let end = pos + 2 + be16(data, pos + 2);
        match apply_segment(s, kind, data, pos + 4, end) {
            Err(e) => Err(e),
            Ok(t) => Ok((t, end, kind == Marker::SOS)),
        }
    }
}

/// The segments from `pos` on, up to and with the header of the first scan.
pub open spec fn parse_segments(data: Seq<u8>, pos: int, s: JpegState) -> Result<
    JpegState,
    DecodeError,
>
    decreases data.len() - pos,
{
    match segment_step(data, pos, s) {
        Err(e) => Err(e),
        Ok((t, next, done)) => if done {
            Ok(t)
        } else {
            proof {
                reveal(segment_step);
            }
            parse_segments(data, next, t)
        },
    }
}

/// What a JPEG stream tells about its image, up to the header of its first
/// scan.
pub open spec fn decode(data: Seq<u8>) -> Result<JpegState, DecodeError> {
    match check_soi(data) {
        Err(e) => Err(e),
        Ok(()) => parse_segments(data, 2, initial_state()),
    }
}

/// The value of a coefficient that is coded in `n` bits as `v`: the upper
/// half of the numbers of `n` bits stand for themselves, the lower half for
/// the negative values.
pub open spec fn extend(v: int, n: nat) -> int {
    if n >= 1 && v < pow2((n - 1) as nat) {
        v - pow2(n) + 1
    } else {
        v
    }
}

/// The difference of a DC coefficient that the stream holds at `pos`, and the
/// position behind it: a symbol of the table says how many bits follow, and
/// these hold the value.
pub open spec fn dc_difference(table: Map<Seq<bool>, u32>, bits: Seq<bool>, pos: int) -> Result<
    (int, int),
    DecodeError,
> {
    match decode_symbol(table, bits, pos) {
        None => Err(DecodeError::NoCode),
        Some((symbol, len)) => if symbol > 15 {
            Err(DecodeError::BadSymbol)
        } else {
            let at = advance(bits, pos, len);
            Ok(
                (
                    extend(bits_value_msb(bits, at, symbol as nat) as int, symbol as nat),
                    advance(bits, at, symbol as nat),
                ),
            )
        },
    }
}

/// The zigzag place of an entry and the entry of a zigzag place undo each
/// other.
pub proof fn lemma_zigzag_inverse(i: int)
    requires
        0 <= i < 64,
    ensures
        0 <= DEZIGZAG[i] < 64,
        ZIGZAG[DEZIGZAG[i] as int] == i,
{
    if i < 16 {
        assert(ZIGZAG[DEZIGZAG[0] as int] == 0 && ZIGZAG[DEZIGZAG[1] as int] == 1);
        assert(ZIGZAG[DEZIGZAG[2] as int] == 2 && ZIGZAG[DEZIGZAG[3] as int] == 3);
        assert(ZIGZAG[DEZIGZAG[4] as int] == 4 && ZIGZAG[DEZIGZAG[5] as int] == 5);
        assert(ZIGZAG[DEZIGZAG[6] as int] == 6 && ZIGZAG[DEZIGZAG[7] as int] == 7);
        assert(ZIGZAG[DEZIGZAG[8] as int] == 8 && ZIGZAG[DEZIGZAG[9] as int] == 9);
        assert(ZIGZAG[DEZIGZAG[10] as int] == 10 && ZIGZAG[DEZIGZAG[11] as int] == 11);
        assert(ZIGZAG[DEZIGZAG[12] as int] == 12 && ZIGZAG[DEZIGZAG[13] as int] == 13);
        assert(ZIGZAG[DEZIGZAG[14] as int] == 14 && ZIGZAG[DEZIGZAG[15] as int] == 15);
    } else if i < 32 {
        assert(ZIGZAG[DEZIGZAG[16] as int] == 16 && ZIGZAG[DEZIGZAG[17] as int] == 17);
        assert(ZIGZAG[DEZIGZAG[18] as int] == 18 && ZIGZAG[DEZIGZAG[19] as int] == 19);
        assert(ZIGZAG[DEZIGZAG[20] as int] == 20 && ZIGZAG[DEZIGZAG[21] as int] == 21);
        assert(ZIGZAG[DEZIGZAG[22] as int] == 22 && ZIGZAG[DEZIGZAG[23] as int] == 23);
        assert(ZIGZAG[DEZIGZAG[24] as int] == 24 && ZIGZAG[DEZIGZAG[25] as int] == 25);
        assert(ZIGZAG[DEZIGZAG[26] as int] == 26 && ZIGZAG[DEZIGZAG[27] as int] == 27);
        assert(ZIGZAG[DEZIGZAG[28] as int] == 28 && ZIGZAG[DEZIGZAG[29] as int] == 29);
        assert(ZIGZAG[DEZIGZAG[30] as int] == 30 && ZIGZAG[DEZIGZAG[31] as int] == 31);
    } else if i < 48 {
        assert(ZIGZAG[DEZIGZAG[32] as int] == 32 && ZIGZAG[DEZIGZAG[33] as int] == 33);
        assert(ZIGZAG[DEZIGZAG[34] as int] == 34 && ZIGZAG[DEZIGZAG[35] as int] == 35);
        assert(ZIGZAG[DEZIGZAG[36] as int] == 36 && ZIGZAG[DEZIGZAG[37] as int] == 37);
        assert(ZIGZAG[DEZIGZAG[38] as int] == 38 && ZIGZAG[DEZIGZAG[39] as int] == 39);
        assert(ZIGZAG[DEZIGZAG[40] as int] == 40 && ZIGZAG[DEZIGZAG[41] as int] == 41);
        assert(ZIGZAG[DEZIGZAG[42] as int] == 42 && ZIGZAG[DEZIGZAG[43] as int] == 43);
        assert(ZIGZAG[DEZIGZAG[44] as int] == 44 && ZIGZAG[DEZIGZAG[45] as int] == 45);
        assert(ZIGZAG[DEZIGZAG[46] as int] == 46 && ZIGZAG[DEZIGZAG[47] as int] == 47);
    } else {
        assert(ZIGZAG[DEZIGZAG[48] as int] == 48 && ZIGZAG[DEZIGZAG[49] as int] == 49);
        assert(ZIGZAG[DEZIGZAG[50] as int] == 50 && ZIGZAG[DEZIGZAG[51] as int] == 51);
        assert(ZIGZAG[DEZIGZAG[52] as int] == 52 && ZIGZAG[DEZIGZAG[53] as int] == 53);
        assert(ZIGZAG[DEZIGZAG[54] as int] == 54 && ZIGZAG[DEZIGZAG[55] as int] == 55);
        assert(ZIGZAG[DEZIGZAG[56] as int] == 56 && ZIGZAG[DEZIGZAG[57] as int] == 57);
        assert(ZIGZAG[DEZIGZAG[58] as int] == 58 && ZIGZAG[DEZIGZAG[59] as int] == 59);
        assert(ZIGZAG[DEZIGZAG[60] as int] == 60 && ZIGZAG[DEZIGZAG[61] as int] == 61);
        assert(ZIGZAG[DEZIGZAG[62] as int] == 62 && ZIGZAG[DEZIGZAG[63] as int] == 63);
    }
}

/// Value `i` of the zigzag sequence stands in the table at the entry that
/// the zigzag order gives to place `i`.
pub proof fn lemma_unzigzag_places(values: Seq<u16>, i: int)
    requires
        0 <= i < 64,
    ensures
        0 <= DEZIGZAG[i] < 64,
        unzigzag(values)[DEZIGZAG[i] as int] == values[i],
{
    lemma_zigzag_inverse(i);
}

/// The zigzag place of every entry lies within the sequence.
pub proof fn lemma_zigzag_range(k: int)
    requires
        0 <= k < 64,
    ensures
        0 <= ZIGZAG[k] < 64,
{
    if k < 16 {
        assert(ZIGZAG[0] < 64 && ZIGZAG[1] < 64 && ZIGZAG[2] < 64 && ZIGZAG[3] < 64);
        assert(ZIGZAG[4] < 64 && ZIGZAG[5] < 64 && ZIGZAG[6] < 64 && ZIGZAG[7] < 64);
        assert(ZIGZAG[8] < 64 && ZIGZAG[9] < 64 && ZIGZAG[10] < 64 && ZIGZAG[11] < 64);
        assert(ZIGZAG[12] < 64 && ZIGZAG[13] < 64 && ZIGZAG[14] < 64 && ZIGZAG[15] < 64);
    } else if k < 32 {
        assert(ZIGZAG[16] < 64 && ZIGZAG[17] < 64 && ZIGZAG[18] < 64 && ZIGZAG[19] < 64);
        assert(ZIGZAG[20] < 64 && ZIGZAG[21] < 64 && ZIGZAG[22] < 64 && ZIGZAG[23] < 64);
        assert(ZIGZAG[24] < 64 && ZIGZAG[25] < 64 && ZIGZAG[26] < 64 && ZIGZAG[27] < 64);
        assert(ZIGZAG[28] < 64 && ZIGZAG[29] < 64 && ZIGZAG[30] < 64 && ZIGZAG[31] < 64);
    } else if k < 48 {
        assert(ZIGZAG[32] < 64 && ZIGZAG[33] < 64 && ZIGZAG[34] < 64 && ZIGZAG[35] < 64);
        assert(ZIGZAG[36] < 64 && ZIGZAG[37] < 64 && ZIGZAG[38] < 64 && ZIGZAG[39] < 64);
        assert(ZIGZAG[40] < 64 && ZIGZAG[41] < 64 && ZIGZAG[42] < 64 && ZIGZAG[43] < 64);
        assert(ZIGZAG[44] < 64 && ZIGZAG[45] < 64 && ZIGZAG[46] < 64 && ZIGZAG[47] < 64);
    } else {
        assert(ZIGZAG[48] < 64 && ZIGZAG[49] < 64 && ZIGZAG[50] < 64 && ZIGZAG[51] < 64);
        assert(ZIGZAG[52] < 64 && ZIGZAG[53] < 64 && ZIGZAG[54] < 64 && ZIGZAG[55] < 64);
        assert(ZIGZAG[56] < 64 && ZIGZAG[57] < 64 && ZIGZAG[58] < 64 && ZIGZAG[59] < 64);
        assert(ZIGZAG[60] < 64 && ZIGZAG[61] < 64 && ZIGZAG[62] < 64 && ZIGZAG[63] < 64);
    }
}

/// Codes that can stand in one tree can do so whatever they stand for.
proof fn lemma_valued_insertable(list: Seq<(u32, u32, u32)>, values: Seq<u8>, upto: int)
    requires
        0 <= upto <= list.len(),
        insertable(list, upto),
    ensures
        insertable(valued_codes(list, values), upto),
        table_of(valued_codes(list, values), upto).dom() == table_of(list, upto).dom(),
    decreases upto,
{
    if upto > 0 {
        lemma_valued_insertable(list, values, upto - 1);
        assert(table_of(valued_codes(list, values), upto).dom() =~= table_of(list, upto).dom());
    }
}

/// The number of code lengths that the first `upto` counts stand for.
pub proof fn lemma_code_sizes_len(counts: Seq<u8>, upto: int)
    requires
        0 <= upto,
    ensures
        code_sizes(counts, upto).len() <= 255 * upto,
    decreases upto,
{
    if upto > 0 {
        lemma_code_sizes_len(counts, upto - 1);
    }
}

/// The segment that a marker opens.
pub fn marker_of(marker: u16) -> (r: Marker)
    ensures
        r == marker_kind(marker),
{
    if marker == 0xffc0 {
        Marker::SOF0
    } else if marker == 0xffc4 {
        Marker::DHT
    } else if marker == 0xffda {
        Marker::SOS
    } else if marker == 0xffdb {
        Marker::DQT
    } else if marker == 0xffe0 {
        Marker::APP0
    } else if marker == 0xffe1 {
        Marker::APP1
    } else if marker == 0xffe2 {
        Marker::APP2
    } else if 0xffe3 <= marker && marker <= 0xffef {
        Marker::AppOther
    } else {
        Marker::Unknown
    }
}

/// Reads the marker at `pos`.
pub fn get_chunk_type(data: &[u8], pos: usize) -> (r: Result<Marker, DecodeError>)
    ensures
        match r {
            Ok(kind) => pos + 2 <= data.len() && kind == marker_kind(be16(data@, pos as int))
                && kind != Marker::Unknown,
            Err(e) => if pos + 2 > data.len() {
                e == DecodeError::Truncated
            } else {
                e == DecodeError::UnsupportedMarker && marker_kind(be16(data@, pos as int))
                    == Marker::Unknown
            },
        },
{
    let marker = match peek_u16(data, pos) {
        Err(e) => {
            return Err(e);
        },
        Ok(v) => v,
    };
    match marker_of(marker) {
        Marker::Unknown => Err(DecodeError::UnsupportedMarker),
        kind => Ok(kind),
    }
}

/// Checks that the stream starts with the start-of-image marker.
pub fn is_jpeg(data: &[u8]) -> (r: Result<(), DecodeError>)
    ensures
        r == check_soi(data@),
{
    let first = match peek_u8(data, 0) {
        Err(e) => {
            return Err(e);
        },
        Ok(b) => b,
    };
    if first != 0xff {
        return Err(DecodeError::NotJpeg);
    }
    let second = match peek_u8(data, 1) {
        Err(e) => {
            return Err(e);
        },
        Ok(b) => b,
    };
    if second != 0xd8 {
        return Err(DecodeError::NotJpeg);
    }
    Ok(())
}

/// A copy of the bytes of `data` from `from` up to `to`.
fn copy_bytes(data: &[u8], from: usize, to: usize) -> (r: Vec<u8>)
    requires
        from <= to <= data.len(),
    ensures
        r@ == data@.subrange(from as int, to as int),
{
    let mut out: Vec<u8> = Vec::new();
    let mut i: usize = from;
    while i < to
        invariant
            from <= i <= to <= data.len(),
            out@ == data@.subrange(from as int, i as int),
        decreases to - i,
    {
        out.push(data[i]);
        proof {
            assert(out@ =~= data@.subrange(from as int, i + 1));
        }
        i = i + 1;
    }
    out
}

/// Reads the quantisation table whose 64 values are stored from `at` on, and
/// puts each value at its entry.
pub fn read_quant_table(data: &[u8], at: usize, wide: bool) -> (r: Vec<u16>)
    requires
        at + (if wide {
            128int
        } else {
            64
        }) <= data.len(),
    ensures
        r@ == unzigzag(quant_values(data@, at as int, wide)),
{
    let ghost values = quant_values(data@, at as int, wide);
    let mut table: Vec<u16> = Vec::new();
    let mut k: usize = 0;
    while k < 64
        invariant
            k <= 64,
            at + (if wide {
                128int
            } else {
                64
            }) <= data.len(),
            values == quant_values(data@, at as int, wide),
            table@ == Seq::new(k as nat, |j: int| values[ZIGZAG[j] as int]),
        decreases 64 - k,
    {
        proof {
            lemma_zigzag_range(k as int);
        }
        let i: usize = ZIGZAG[k];
        let v: u16 = if wide {
            (data[at + 2 * i] as u16) * 256 + data[at + 2 * i + 1] as u16
        } else {
            data[at + i] as u16
        };
        table.push(v);
        proof {
            assert(table@ =~= Seq::new((k + 1) as nat, |j: int| values[ZIGZAG[j] as int]));
        }
        k = k + 1;
    }
    table
}

/// The code lengths that 16 counts stand for, in the order of the values.
pub fn gen_huffman_table(counts: &Vec<u8>) -> (r: Vec<u32>)
    requires
        counts.len() == 16,
    ensures
        r@ == code_sizes(counts@, 16),
        r.len() <= 4080,
{
    let mut sizes: Vec<u32> = Vec::new();
    let mut i: usize = 0;
    while i < 16
        invariant
            i <= 16,
            counts.len() == 16,
            sizes@ == code_sizes(counts@, i as int),
        decreases 16 - i,
    {
        let count: u8 = counts[i];
        let ghost before = sizes@;
        let mut j: u8 = 0;
        while j < count
            invariant
                j <= count,
                i < 16,
                sizes@ == before + Seq::new(j as nat, |k: int| (i + 1) as u32),
            decreases count - j,
        {
            sizes.push((i + 1) as u32);
            proof {
                assert(sizes@ =~= before + Seq::new((j + 1) as nat, |k: int| (i + 1) as u32));
            }
            j = j + 1;
        }
        i = i + 1;
    }
    proof {
        lemma_code_sizes_len(counts@, 16);
    }
    sizes
}

/// Builds the Huffman tree that 16 counts and the values define.
pub fn build_table(counts: &Vec<u8>, values: &Vec<u8>) -> (r: Result<HuffmanTree, DecodeError>)
    requires
        counts.len() == 16,
        values.len() == code_sizes(counts@, 16).len(),
    ensures
        match huffman_table(counts@, values@) {
            Ok(table) => r is Ok && r->Ok_0.wf() && r->Ok_0@ == table,
            Err(e) => r is Err && r->Err_0 == e,
        },
{
    let sizes = gen_huffman_table(counts);
    let list = match build_huffman_codes(&sizes, true) {
        Err(_) => {
            return Err(DecodeError::BadTable);
        },
        Ok(v) => v,
    };
    let mut codes: Vec<(u32, u32, u32)> = Vec::new();
    let mut j: usize = 0;
    while j < list.len()
        invariant
            j <= list.len(),
            sizes.len() <= 4080,
            values.len() == sizes.len(),
            list@ == code_list(sizes@, true, sizes.len() as int),
            codes@ == Seq::new(
                j as nat,
                |k: int| (list@[k].0, list@[k].1, values@[list@[k].2 as int] as u32),
            ),
        decreases list.len() - j,
    {
        proof {
            lemma_code_list_symbols(sizes@, true, sizes.len() as int, j as int);
        }
        let entry = list[j];
        let value: u8 = values[entry.2 as usize];
        codes.push((entry.0, entry.1, value as u32));
        proof {
            assert(codes@ =~= Seq::new(
                (j + 1) as nat,
                |k: int| (list@[k].0, list@[k].1, values@[list@[k].2 as int] as u32),
            ));
        }
        j = j + 1;
    }
    proof {
        assert(codes@ =~= table_codes(counts@, values@));
        lemma_canonical_insertable(sizes@, list@.len() as int);
        lemma_valued_insertable(list@, values@, list@.len() as int);
    }
    match build_huffman_tree(&codes) {
        Err(_) => Err(DecodeError::BadTable),
        Ok(tree) => Ok(tree),
    }
}

/// Gives the tables `td` and `ta` to each component with the identifier `cs`.
pub fn assign_tables(components: &mut Vec<Component>, cs: u8, td: usize, ta: usize)
    ensures
        final(components)@ == select_tables(old(components)@, cs, td, ta),
{
    let ghost before = components@;
    let mut i: usize = 0;
    while i < components.len()
        invariant
            i <= components.len(),
            components.len() == before.len(),
            components@ == Seq::new(
                before.len(),
                |k: int|
                    if k < i && before[k].identifier == cs {
                        Component { dc_table: td, ac_table: ta, ..before[k] }
                    } else {
                        before[k]
                    },
            ),
        decreases components.len() - i,
    {
        let c = components[i];
        if c.identifier == cs {
            components.set(
                i,
                Component {
                    identifier: c.identifier,
                    sampling_hor: c.sampling_hor,
                    sampling_ver: c.sampling_ver,
                    quant_table: c.quant_table,
                    dc_table: td,
                    ac_table: ta,
                },
            );
        }
        proof {
            assert(components@ =~= Seq::new(
                before.len(),
                |k: int|
                    if k < i + 1 && before[k].identifier == cs {
                        Component { dc_table: td, ac_table: ta, ..before[k] }
                    } else {
                        before[k]
                    },
            ));
        }
        i = i + 1;
    }
    proof {
        assert(components@ =~= select_tables(before, cs, td, ta));
    }
}

/// Reads `val` bits and returns the coefficient value that they stand for.
pub fn extend_receive(buffer: &mut BitBuffer, val: u32) -> (r: i16)
    requires
        old(buffer).wf(),
        old(buffer).msb_first(),
        val <= 15,
    ensures
        final(buffer).wf(),
        final(buffer).data() == old(buffer).data(),
        final(buffer).msb_first(),
        final(buffer).bit_pos() == old(buffer).bit_pos_after(val as nat),
        r == extend(
            bits_value_msb(old(buffer).bits(), old(buffer).bit_pos(), val as nat) as int,
            val as nat,
        ),
{
    proof {
        lemma_bits_value_msb_bound(buffer.bits(), buffer.bit_pos(), val as nat);
        lemma2_to64();
        if val < 15 {
            lemma_pow2_strictly_increases(val as nat, 15);
        }
        if val >= 1 {
            lemma_pow2_unfold(val as nat);
            lemma_u32_shl_is_mul(1u32, (val - 1) as u32);
            lemma_u32_pow2_no_overflow((val - 1) as nat);
        }
    }
    let v: u16 = buffer.get_n_bits(val);
    if val == 0 {
        return 0;
    }
    let half: u32 = 1u32 << (val - 1);
    if (v as u32) < half {
        let full: i32 = 2 * (half as i32);
        ((v as i32) - full + 1) as i16
    } else {
        v as i16
    }
}

/// A reader of JPEG streams, which keeps what the segments up to the first
/// scan say of the image.
pub struct Parser {
    dequant_table: Vec<Vec<u16>>,
    dc_hufftables: Vec<HuffmanTree>,
    ac_hufftables: Vec<HuffmanTree>,
    parsing_mode: ParsingMode,
    depth: u8,
    width: u16,
    height: u16,
    num_components: u8,
    components: Vec<Component>,
    scan: (u8, u8, u8, u8),
}

impl View for Parser {
    type V = JpegState;

    /// What the parser has read of the image.
    closed spec fn view(&self) -> JpegState {
        JpegState {
            quant: Seq::new(self.dequant_table@.len(), |i: int| self.dequant_table@[i]@),
            dc_tables: Seq::new(self.dc_hufftables@.len(), |i: int| self.dc_hufftables@[i]@),
            ac_tables: Seq::new(self.ac_hufftables@.len(), |i: int| self.ac_hufftables@[i]@),
            mode: self.parsing_mode,
            depth: self.depth,
            width: self.width,
            height: self.height,
            num_components: self.num_components,
            components: self.components@,
            scan: self.scan,
        }
    }
}

impl Parser {
    /// There are four tables of each kind, and every Huffman table is a tree
    /// in order.
    pub closed spec fn wf(&self) -> bool {
        &&& self.dequant_table@.len() == 4
        &&& self.dc_hufftables@.len() == 4
        &&& self.ac_hufftables@.len() == 4
        &&& forall|i: int| 0 <= i < 4 ==> (#[trigger] self.dc_hufftables@[i]).wf()
        &&& forall|i: int| 0 <= i < 4 ==> (#[trigger] self.ac_hufftables@[i]).wf()
    }

    /// A parser that has read nothing.
    pub fn new() -> (r: Parser)
        ensures
            r.wf(),
            r@ == initial_state(),
    {
        let mut dequant_table: Vec<Vec<u16>> = Vec::new();
        let mut dc_hufftables: Vec<HuffmanTree> = Vec::new();
        let mut ac_hufftables: Vec<HuffmanTree> = Vec::new();
        let mut i: usize = 0;
        while i < 4
            invariant
                i <= 4,
                dequant_table@.len() == i,
                dc_hufftables@.len() == i,
                ac_hufftables@.len() == i,
                forall|k: int| 0 <= k < i ==> (#[trigger] dequant_table@[k])@ == Seq::new(64, |j: int| 0u16),
                forall|k: int| 0 <= k < i ==> (#[trigger] dc_hufftables@[k]).wf() && dc_hufftables@[k]@ == Map::<Seq<bool>, u32>::empty(),
                forall|k: int| 0 <= k < i ==> (#[trigger] ac_hufftables@[k]).wf() && ac_hufftables@[k]@ == Map::<Seq<bool>, u32>::empty(),
            decreases 4 - i,
        {
            let mut table: Vec<u16> = Vec::new();
            let mut k: usize = 0;
            while k < 64
                invariant
                    k <= 64,
                    table@ == Seq::new(k as nat, |j: int| 0u16),
                decreases 64 - k,
            {
                table.push(0);
                proof {
                    assert(table@ =~= Seq::new((k + 1) as nat, |j: int| 0u16));
                }
                k = k + 1;
            }
            dequant_table.push(table);
            dc_hufftables.push(HuffmanTree::new());
            ac_hufftables.push(HuffmanTree::new());
            i = i + 1;
        }
        let r = Parser {
            dequant_table,
            dc_hufftables,
            ac_hufftables,
            parsing_mode: ParsingMode::Invalid,
            depth: 0,
            width: 0,
            height: 0,
            num_components: 0,
            components: Vec::new(),
            scan: (0, 0, 0, 0),
        };
        proof {
            assert(r@.quant =~= initial_state().quant);
            assert(r@.dc_tables =~= initial_state().dc_tables);
            assert(r@.ac_tables =~= initial_state().ac_tables);
        }
        r
    }

    /// The width of the image in pixels.
    pub fn width(&self) -> (r: u16)
        ensures
            r == self@.width,
    {
        self.width
    }

    /// The height of the image in pixels.
    pub fn height(&self) -> (r: u16)
        ensures
            r == self@.height,
    {
        self.height
    }

    /// The number of bits of a sample.
    pub fn depth(&self) -> (r: u8)
        ensures
            r == self@.depth,
    {
        self.depth
    }

    /// The number of components that the frame header names.
    pub fn num_components(&self) -> (r: u8)
        ensures
            r == self@.num_components,
    {
        self.num_components
    }

    /// The coding process of the frame.
    pub fn parsing_mode(&self) -> (r: ParsingMode)
        ensures
            r == self@.mode,
    {
        self.parsing_mode
    }

    /// The components of the frame.
    pub fn components(&self) -> (r: &Vec<Component>)
        ensures
            r@ == self@.components,
    {
        &self.components
    }

    /// Quantisation table `i`, row by row.
    pub fn quant_table(&self, i: usize) -> (r: &Vec<u16>)
        requires
            self.wf(),
            i < 4,
        ensures
            r@ == self@.quant[i as int],
    {
        &self.dequant_table[i]
    }

    /// Huffman table `i` for DC coefficients.
    pub fn dc_table(&self, i: usize) -> (r: &HuffmanTree)
        requires
            self.wf(),
            i < 4,
        ensures
            r.wf(),
            r@ == self@.dc_tables[i as int],
    {
        &self.dc_hufftables[i]
    }

    /// Huffman table `i` for AC coefficients.
    pub fn ac_table(&self, i: usize) -> (r: &HuffmanTree)
        requires
            self.wf(),
            i < 4,
        ensures
            r.wf(),
            r@ == self@.ac_tables[i as int],
    {
        &self.ac_hufftables[i]
    }

    /// Reads the quantisation tables of a segment.
    fn parse_dqt(&mut self, data: &[u8], start: usize, end: usize) -> (r: Result<(), DecodeError>)
        requires
            old(self).wf(),
            start <= end <= data.len(),
        ensures
            final(self).wf(),
            match dqt_tables(data@, start as int, end as int, old(self)@.quant) {
                Ok(quant) => r is Ok && final(self)@ == (JpegState { quant, ..old(self)@ }),
                Err(e) => r == Err::<(), _>(e),
            },
    {
        let mut at: usize = start;
        while at < end
            invariant
                self.wf(),
                start <= at <= end <= data.len(),
                self@ == (JpegState { quant: self@.quant, ..old(self)@ }),
                dqt_tables(data@, at as int, end as int, self@.quant) == dqt_tables(
                    data@,
                    start as int,
                    end as int,
                    old(self)@.quant,
                ),
            decreases end - at,
        {
            let v: u8 = data[at];
            let pq: u8 = v / 16;
            let tq: u8 = v % 16;
            if tq >= 4 || pq > 1 {
                return Err(DecodeError::BadTable);
            }
            let size: usize = if pq == 1 {
                128
            } else {
                64
            };
            if end - at < 1 + size {
                return Err(DecodeError::ChunkLength);
            }
            let table = read_quant_table(data, at + 1, pq == 1);
            let ghost before = self@.quant;
            self.dequant_table.set(tq as usize, table);
            proof {
                assert(self@.quant =~= before.update(tq as int, table@));
            }
            at = at + 1 + size;
        }
        Ok(())
    }

    /// Reads the Huffman tables of a segment.
    fn parse_dht(&mut self, data: &[u8], start: usize, end: usize) -> (r: Result<(), DecodeError>)
        requires
            old(self).wf(),
            start <= end <= data.len(),
        ensures
            final(self).wf(),
            match dht_tables(data@, start as int, end as int, old(self)@) {
                Ok(s) => r is Ok && final(self)@ == s,
                Err(e) => r == Err::<(), _>(e),
            },
    {
        let mut at: usize = start;
        while at < end
            invariant
                self.wf(),
                start <= at <= end <= data.len(),
                dht_tables(data@, at as int, end as int, self@) == dht_tables(
                    data@,
                    start as int,
                    end as int,
                    old(self)@,
                ),
            decreases end - at,
        {
            if end - at < 17 {
                return Err(DecodeError::ChunkLength);
            }
            let t: u8 = data[at];
            let tc: u8 = t / 16;
            let th: u8 = t % 16;
            let counts = copy_bytes(data, at + 1, at + 17);
            let sizes = gen_huffman_table(&counts);
            let total: usize = sizes.len();
            if end - at - 17 < total {
                return Err(DecodeError::ChunkLength);
            }
            if th >= 4 || tc > 1 {
                return Err(DecodeError::BadTable);
            }
            let values = copy_bytes(data, at + 17, at + 17 + total);
            let tree = match build_table(&counts, &values) {
                Err(e) => {
                    return Err(e);
                },
                Ok(tree) => tree,
            };
            let ghost before = self@;
            if tc == 0 {
                self.dc_hufftables.set(th as usize, tree);
                proof {
                    assert(self@.dc_tables =~= before.dc_tables.update(th as int, tree@));
                    assert(self@.ac_tables =~= before.ac_tables);
                    assert(self@.quant =~= before.quant);
                }
            } else {
                self.ac_hufftables.set(th as usize, tree);
                proof {
                    assert(self@.ac_tables =~= before.ac_tables.update(th as int, tree@));
                    assert(self@.dc_tables =~= before.dc_tables);
                    assert(self@.quant =~= before.quant);
                }
            }
            at = at + 17 + total;
        }
        Ok(())
    }

    /// Reads the frame header.
    fn parse_sof0(&mut self, data: &[u8], start: usize, end: usize) -> (r: Result<
        (),
        DecodeError,
    >)
        requires
            old(self).wf(),
            start <= end <= data.len(),
        ensures
            final(self).wf(),
            match apply_sof0(old(self)@, data@, start as int, end as int) {
                Ok(s) => r is Ok && final(self)@ == s,
                Err(e) => r == Err::<(), _>(e),
            },
    {
        if end - start < 6 {
            return Err(DecodeError::ChunkLength);
        }
        let nf: u8 = data[start + 5];
        if end - start != 6 + 3 * (nf as usize) {
            return Err(DecodeError::ChunkLength);
        }
        self.depth = data[start];
        self.height = (data[start + 1] as u16) * 256 + data[start + 2] as u16;
        self.width = (data[start + 3] as u16) * 256 + data[start + 4] as u16;
        self.num_components = nf;
        self.parsing_mode = ParsingMode::Baseline;
        let ghost before = self.components@;
        let mut j: usize = 0;
        while j < nf as usize
            invariant
                self.wf(),
                j <= nf,
                end - start == 6 + 3 * nf,
                start <= end <= data.len(),
                self.components@ == before + Seq::new(
                    j as nat,
                    |k: int| frame_component(data@, start as int, k),
                ),
                self@ == (JpegState {
                    depth: data@[start as int],
                    height: be16(data@, start + 1),
                    width: be16(data@, start + 3),
                    num_components: nf,
                    mode: ParsingMode::Baseline,
                    components: self.components@,
                    ..old(self)@
                }),
            decreases nf - j,
        {
            let ci: u8 = data[start + 6 + 3 * j];
            let h: u8 = data[start + 7 + 3 * j];
            let tqi: u8 = data[start + 8 + 3 * j];
            let c = Component::new(ci, h / 16, h % 16, tqi as usize);
            self.components.push(c);
            proof {
                assert(self.components@ =~= before + Seq::new(
                    (j + 1) as nat,
                    |k: int| frame_component(data@, start as int, k),
                ));
            }
            j = j + 1;
        }
        Ok(())
    }

    /// Reads the header of a scan.
    fn parse_sos(&mut self, data: &[u8], start: usize, end: usize) -> (r: Result<(), DecodeError>)
        requires
            old(self).wf(),
            start <= end <= data.len(),
        ensures
            final(self).wf(),
            match apply_sos(old(self)@, data@, start as int, end as int) {
                Ok(s) => r is Ok && final(self)@ == s,
                Err(e) => r == Err::<(), _>(e),
            },
    {
        if end - start < 1 {
            return Err(DecodeError::ChunkLength);
        }
        let ns: u8 = data[start];
        if end - start != 4 + 2 * (ns as usize) {
            return Err(DecodeError::ChunkLength);
        }
        match self.parsing_mode {
            ParsingMode::Baseline => {},
            ParsingMode::Invalid => {
                return Err(DecodeError::MissingFrame);
            },
            _ => {
                return Err(DecodeError::UnsupportedMarker);
            },
        }
        let mut j: usize = 0;
        while j < ns as usize
            invariant
                self.wf(),
                j <= ns,
                end - start == 4 + 2 * ns,
                start <= end <= data.len(),
                self.components@ == scan_components(
                    data@,
                    start as int,
                    j as int,
                    old(self).components@,
                ),
                self@ == (JpegState { components: self.components@, ..old(self)@ }),
            decreases ns - j,
        {
            let cs: u8 = data[start + 1 + 2 * j];
            let t: u8 = data[start + 2 + 2 * j];
            assign_tables(&mut self.components, cs, (t / 16) as usize, (t % 16) as usize);
            j = j + 1;
        }
        let n: usize = ns as usize;
        let a: u8 = data[start + 2 * n + 3];
        self.scan = (data[start + 2 * n + 1], data[start + 2 * n + 2], a / 16, a % 16);
        Ok(())
    }

    /// Reads the segment at `pos`. Returns the position behind it, and
    /// whether the segment was the header of a scan.
    pub fn parse_chunk(&mut self, data: &[u8], pos: usize) -> (r: Result<(usize, bool), DecodeError>)
        requires
            old(self).wf(),
            pos <= data.len(),
        ensures
            final(self).wf(),
            match segment_step(data@, pos as int, old(self)@) {
                Ok((s, next, done)) => r == Ok::<_, DecodeError>((next as usize, done)) && pos
                    < next <= data.len() && final(self)@ == s,
                Err(e) => r == Err::<(usize, bool), _>(e),
            },
    {
        proof {
            reveal(segment_step);
        }
        let kind = match get_chunk_type(data, pos) {
            Err(e) => {
                return Err(e);
            },
            Ok(kind) => kind,
        };
        let length = match peek_u16(data, pos + 2) {
            Err(e) => {
                return Err(e);
            },
            Ok(v) => v,
        };
        if length < 2 {
            return Err(DecodeError::ChunkLength);
        }
        if data.len() - pos - 2 < length as usize {
            return Err(DecodeError::Truncated);
        }
        let start: usize = pos + 4;
        let end: usize = pos + 2 + length as usize;
        let done = match kind {
            Marker::DQT => self.parse_dqt(data, start, end),
            Marker::DHT => self.parse_dht(data, start, end),
            Marker::SOF0 => self.parse_sof0(data, start, end),
            Marker::SOS => self.parse_sos(data, start, end),
            Marker::Unknown => Err(DecodeError::UnsupportedMarker),
            _ => Ok(()),
        };
        match done {
            Err(e) => Err(e),
            Ok(()) => Ok((end, matches!(kind, Marker::SOS))),
        }
    }

    /// Reads the difference of the DC coefficient of a block of the given
    /// component from the entropy-coded data.
    pub fn parse_block(&self, buffer: &mut BitBuffer, component: &Component) -> (r: Result<
        i16,
        DecodeError,
    >)
        requires
            self.wf(),
            old(buffer).wf(),
            old(buffer).msb_first(),
        ensures
            final(buffer).wf(),
            final(buffer).data() == old(buffer).data(),
            component.dc_table >= 4 ==> r == Err::<i16, _>(DecodeError::BadTable),
            component.dc_table < 4 ==> match dc_difference(
                self@.dc_tables[component.dc_table as int],
                old(buffer).bits(),
                old(buffer).bit_pos(),
            ) {
                Ok((v, next)) => r is Ok && r->Ok_0 == v && final(buffer).bit_pos() == next,
                Err(e) => r == Err::<i16, _>(e),
            },
    {
        proof {
            buffer.lemma_bit_pos_range();
        }
        if component.dc_table >= 4 {
            return Err(DecodeError::BadTable);
        }
        let val = match self.dc_hufftables[component.dc_table].find(buffer) {
            None => {
                return Err(DecodeError::NoCode);
            },
            Some(v) => v,
        };
        if val > 15 {
            return Err(DecodeError::BadSymbol);
        }
        Ok(extend_receive(buffer, val))
    }

    /// Reads a JPEG stream up to the header of its first scan. On success the
    /// parser holds what the segments say of the image: its size, its
    /// components and its tables.
    pub fn parse(&mut self, data: Vec<u8>) -> (r: Result<(), DecodeError>)
        ensures
            match decode(data@) {
                Ok(s) => r is Ok && final(self).wf() && final(self)@ == s,
                Err(e) => r == Err::<(), _>(e),
            },
    {
        *self = Parser::new();
        let bytes = data.as_slice();
        match is_jpeg(bytes) {
            Err(e) => {
                return Err(e);
            },
            Ok(()) => {},
        }
        let mut pos: usize = 2;
        loop
            invariant
                self.wf(),
                bytes@ == data@,
                check_soi(data@) is Ok,
                pos <= bytes.len(),
                parse_segments(data@, pos as int, self@) == parse_segments(
                    data@,
                    2,
                    initial_state(),
                ),
            decreases bytes.len() - pos,
        {
            let (next, done) = match self.parse_chunk(bytes, pos) {
                Err(e) => {
                    return Err(e);
                },
                Ok(v) => v,
            };
            if done {
                return Ok(());
            }
            pos = next;
        }
    }
}

} // verus!
