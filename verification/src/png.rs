//! The PNG container: signature, chunks and their checksums, and the decoding
//! of the image that the chunks describe.

use crate::adam7::{
    deinterlace, deinterlace_spec, lemma_deinterlace_errors, lemma_deinterlace_len,
};
use crate::bytes::{be16, be32, peek_u32, peek_u8};
use crate::crc::{calc_crc, crc32, crc_byte, make_crc_table};
use crate::error::{DecodeError, ErrorKind};
use crate::filter::{
    layout_supported, lemma_reverse_filter_errors, lemma_reverse_filter_len, pixel_bytes,
    pixel_error, reverse_filter, reverse_filter_spec,
};
use crate::zlib;
use crate::zlib::{inflate, lemma_inflate_errors, stream_error};
use vstd::prelude::*;

verus! {

/// The eight bytes that every PNG stream starts with.
pub const SIGNATURE: [u8; 8] = [137, 80, 78, 71, 13, 10, 26, 10];

/// The kinds of chunk that the parser tells apart.
#[derive(Clone, Copy, Debug, PartialEq, Eq, Structural)]
pub enum ChunkType {
    IHDR,
    PLTE,
    IDAT,
    IEND,
    TEXT,
    PHYS,
    ZTXT,
    GAMA,
    SBIT,
    BKGD,
    CHRM,
    HIST,
    TIME,
    ITXT,
    TRNS,
    UNKNOWN,
}

/// How the samples of a pixel are to be read. `Invalid` stands for an image
/// whose header has not been seen.
#[derive(Clone, Copy, Debug, PartialEq, Eq, Structural)]
pub enum ColourType {
    Grayscale,
    TrueColour,
    Indexed,
    GrayscaleAlpha,
    TrueColourAlpha,
    Invalid,
}

/// What the chunks read so far have told about the image.
pub struct PngState {
    pub width: u32,
    pub height: u32,
    pub depth: u8,
    pub colour_type: ColourType,
    pub compression: u8,
    pub filter: u8,
    pub interlace: u8,
    pub plte: Seq<(u8, u8, u8, u8)>,
    pub transparency: (u16, u16, u16),
    pub has_transparency: bool,
    pub has_end: bool,
    pub encoded: Seq<u8>,
}

/// A decoded image: its size, the layout of its pixels and the pixels, row by
/// row.
pub struct Image {
    pub width: u32,
    pub height: u32,
    pub colour_type: ColourType,
    pub pixels: Seq<u8>,
}

/// The state before any chunk is read.
pub open spec fn initial_state() -> PngState {
    PngState {
        width: 0,
        height: 0,
        depth: 0,
        colour_type: ColourType::Invalid,
        compression: 0,
        filter: 0,
        interlace: 0,
        plte: Seq::empty(),
        transparency: (255, 255, 255),
        has_transparency: false,
        has_end: false,
        encoded: Seq::empty(),
    }
}

/// The kind of chunk that a type field names.
pub open spec fn chunk_kind(tag: u32) -> ChunkType {
    if tag == 0x49484452 {
        ChunkType::IHDR
    } else if tag == 0x504c5445 {
        ChunkType::PLTE
    } else if tag == 0x49444154 {
        ChunkType::IDAT
    } else if tag == 0x49454e44 {
        ChunkType::IEND
    } else if tag == 0x74455874 {
        ChunkType::TEXT
    } else if tag == 0x70485973 {
        ChunkType::PHYS
    } else if tag == 0x7a545874 {
        ChunkType::ZTXT
    } else if tag == 0x67414d41 {
        ChunkType::GAMA
    } else if tag == 0x73424954 {
        ChunkType::SBIT
    } else if tag == 0x624b4744 {
        ChunkType::BKGD
    } else if tag == 0x6348524d {
        ChunkType::CHRM
    } else if tag == 0x68495354 {
        ChunkType::HIST
    } else if tag == 0x74494d45 {
        ChunkType::TIME
    } else if tag == 0x69545874 {
        ChunkType::ITXT
    } else if tag == 0x74524e53 {
        ChunkType::TRNS
    } else {
        ChunkType::UNKNOWN
    }
}

/// The colour type that a code of the image header stands for.
pub open spec fn colour_of(code: u8) -> ColourType {
    if code == 0 {
        ColourType::Grayscale
    } else if code == 2 {
        ColourType::TrueColour
    } else if code == 3 {
        ColourType::Indexed
    } else if code == 4 {
        ColourType::GrayscaleAlpha
    } else if code == 6 {
        ColourType::TrueColourAlpha
    } else {
        ColourType::Invalid
    }
}

/// The number of bytes between a sample and the same sample of the pixel to
/// its left, which is the number of channels that the filters work on. An
/// indexed image has one: its palette is applied after the filters.
pub open spec fn bytes_needed(colour: ColourType) -> int {
    match colour {
        ColourType::Grayscale => 1,
        ColourType::TrueColour => 3,
        ColourType::Indexed => 1,
        ColourType::GrayscaleAlpha => 2,
        ColourType::TrueColourAlpha => 4,
        ColourType::Invalid => 0,
    }
}

/// The number of bytes that a pixel of the given layout takes in the decoded
/// data. An indexed image is decoded to red, green, blue and alpha.
pub open spec fn pixel_size(colour: ColourType) -> int {
    match colour {
        ColourType::Grayscale => 1,
        ColourType::GrayscaleAlpha => 2,
        ColourType::TrueColour => 3,
        ColourType::TrueColourAlpha => 4,
        ColourType::Indexed => 4,
        ColourType::Invalid => 0,
    }
}

/// A header has been read, and it names a layout that is decoded.
pub open spec fn header_valid(s: PngState) -> bool {
    s.colour_type != ColourType::Invalid ==> layout_supported(bytes_needed(s.colour_type), s.depth)
        && s.interlace <= 1
}

/// The check of the signature: the first byte that is missing or wrong
/// decides.
pub open spec fn check_signature(data: Seq<u8>, upto: int) -> Result<(), DecodeError>
    decreases upto,
{
    if upto <= 0 {
        Ok(())
    } else {
        match check_signature(data, upto - 1) {
            Err(e) => Err(e),
            Ok(()) => if data.len() < upto {
                Err(DecodeError::Truncated)
            } else if data[upto - 1] != SIGNATURE[upto - 1] {
                Err(DecodeError::NotPng)
            } else {
                Ok(())
            },
        }
    }
}

/// The bit depths that are decoded.
pub open spec fn depth_supported(depth: u8) -> bool {
    depth == 1 || depth == 2 || depth == 4 || depth == 8
}

/// The image header: width, height, bit depth, colour type, compression,
/// filter and interlace method, 13 bytes in all. It comes once. Its depth,
/// its colour type, the two together and its interlace method are looked at
/// in this order, and the first of them that is not decoded is the error.
pub open spec fn apply_ihdr(s: PngState, payload: Seq<u8>) -> Result<PngState, DecodeError> {
    if s.colour_type != ColourType::Invalid {
        Err(DecodeError::ChunkOrder)
    } else if payload.len() != 13 {
        Err(DecodeError::ChunkLength)
    } else if !depth_supported(payload[8]) {
        Err(DecodeError::UnsupportedDepth)
    } else if colour_of(payload[9]) == ColourType::Invalid {
        Err(DecodeError::UnsupportedColourType)
    } else if !layout_supported(bytes_needed(colour_of(payload[9])), payload[8]) {
        Err(DecodeError::UnsupportedDepth)
    } else if payload[12] > 1 {
        Err(DecodeError::UnsupportedInterlace)
    } else {
        Ok(
            PngState {
                width: be32(payload, 0),
                height: be32(payload, 4),
                depth: payload[8],
                colour_type: colour_of(payload[9]),
                compression: payload[10],
                filter: payload[11],
                interlace: payload[12],
                ..s
            },
        )
    }
}

/// The palette: red, green and blue of each entry; each entry is opaque until
/// a transparency chunk says otherwise.
pub open spec fn apply_plte(s: PngState, payload: Seq<u8>) -> Result<PngState, DecodeError> {
    if s.colour_type == ColourType::Invalid {
        Err(DecodeError::ChunkOrder)
    } else if payload.len() % 3 != 0 {
        Err(DecodeError::PaletteLength)
    } else {
        Ok(
            PngState {
                plte: Seq::new(
                    payload.len() / 3,
                    |i: int| (payload[3 * i], payload[3 * i + 1], payload[3 * i + 2], 255u8),
                ),
                ..s
            },
        )
    }
}

/// Image data: one more piece of the compressed stream.
pub open spec fn apply_idat(s: PngState, payload: Seq<u8>) -> Result<PngState, DecodeError> {
    if s.colour_type == ColourType::Invalid {
        Err(DecodeError::ChunkOrder)
    } else {
        Ok(PngState { encoded: s.encoded + payload, ..s })
    }
}

/// Transparency: one grey level or one colour that is to be transparent, of
/// 16 bits a sample, or the alpha values of the first palette entries.
pub open spec fn apply_trns(s: PngState, payload: Seq<u8>) -> Result<PngState, DecodeError> {
    match s.colour_type {
        ColourType::Invalid => Err(DecodeError::ChunkOrder),
        ColourType::Grayscale => if payload.len() != 2 {
            Err(DecodeError::ChunkLength)
        } else {
            Ok(
                PngState {
                    transparency: (be16(payload, 0), be16(payload, 0), be16(payload, 0)),
                    has_transparency: true,
                    ..s
                },
            )
        },
        ColourType::TrueColour => if payload.len() != 6 {
            Err(DecodeError::ChunkLength)
        } else {
            Ok(
                PngState {
                    transparency: (be16(payload, 0), be16(payload, 2), be16(payload, 4)),
                    has_transparency: true,
                    ..s
                },
            )
        },
        ColourType::Indexed => if s.plte.len() == 0 {
            Err(DecodeError::MissingPalette)
        } else if payload.len() > s.plte.len() {
            Err(DecodeError::ChunkLength)
        } else {
            Ok(
                PngState {
                    plte: Seq::new(
                        s.plte.len(),
                        |i: int|
                            if i < payload.len() {
                                (s.plte[i].0, s.plte[i].1, s.plte[i].2, payload[i])
                            } else {
                                s.plte[i]
                            },
                    ),
                    ..s
                },
            )
        },
        _ => Err(DecodeError::TransparencyNotAllowed),
    }
}

/// What a chunk of the given kind and payload makes of the state. The chunks
/// that carry text, time and colour management are passed over.
pub open spec fn apply_chunk(s: PngState, kind: ChunkType, payload: Seq<u8>) -> Result<
    PngState,
    DecodeError,
> {
    match kind {
        ChunkType::IHDR => apply_ihdr(s, payload),
        ChunkType::PLTE => apply_plte(s, payload),
        ChunkType::IDAT => apply_idat(s, payload),
        ChunkType::IEND => Ok(PngState { has_end: true, ..s }),
        ChunkType::TRNS => apply_trns(s, payload),
        _ => Ok(s),
    }
}

/// The chunk at `pos`: its length, its type, its payload and its checksum
/// over type and payload. Gives the state after the chunk and the position
/// of the next one.
#[verifier::opaque]
pub open spec fn chunk_step(data: Seq<u8>, pos: int, s: PngState) -> Result<
    (PngState, int),
    DecodeError,
> {
    if pos + 8 > data.len() {
        Err(DecodeError::Truncated)
    } else {
        let length = be32(data, pos) as int;
        if pos + 12 + length > data.len() {
            Err(DecodeError::ChunkLength)
        } else if crc32(data.subrange(pos + 4, pos + 8 + length)) != be32(
            data,
            pos + 8 + length,
        ) {
            Err(DecodeError::CrcMismatch)
        } else {
            match apply_chunk(
                s,
                chunk_kind(be32(data, pos + 4)),
                data.subrange(pos + 8, pos + 8 + length),
            ) {
                Err(e) => Err(e),
                Ok(t) => Ok((t, pos + 12 + length)),
            }
        }
    }
}

/// The chunks from `pos` on, up to and with the end chunk.
pub open spec fn parse_chunks(data: Seq<u8>, pos: int, s: PngState) -> Result<
    PngState,
    DecodeError,
>
    decreases data.len() - pos,
{
    if s.has_end {
        Ok(s)
    } else {
        match chunk_step(data, pos, s) {
            Err(e) => Err(e),
            Ok((t, next)) => {
                proof {
                    reveal(chunk_step);
                }
                parse_chunks(data, next, t)
            },
        }
    }
}

/// Each grey sample followed by its alpha: 0 where the sample is the
/// transparent level, and else 255.
pub open spec fn grey_with_alpha(pixels: Seq<u8>, key: u8, upto: nat) -> Seq<u8>
    decreases upto,
{
    if upto == 0 {
        Seq::empty()
    } else {
        grey_with_alpha(pixels, key, (upto - 1) as nat) + seq![
            pixels[upto - 1],
            if pixels[upto - 1] == key {
                0u8
            } else {
                255u8
            },
        ]
    }
}

/// Each colour followed by its alpha: 0 where the colour is the transparent
/// one, and else 255.
pub open spec fn colour_with_alpha(pixels: Seq<u8>, key: (u8, u8, u8), upto: nat) -> Seq<u8>
    decreases upto,
{
    if upto == 0 {
        Seq::empty()
    } else {
        let i = upto - 1;
        colour_with_alpha(pixels, key, i as nat) + seq![
            pixels[3 * i],
            pixels[3 * i + 1],
            pixels[3 * i + 2],
            if pixels[3 * i] == key.0 && pixels[3 * i + 1] == key.1 && pixels[3 * i + 2] == key.2 {
                0u8
            } else {
                255u8
            },
        ]
    }
}

/// The low byte of a 16-bit number.
pub open spec fn low_byte(v: u16) -> u8 {
    (v % 256) as u8
}

/// The image with its transparent grey level or colour turned into an alpha
/// channel, where the chunks named one.
pub open spec fn with_transparency(s: PngState, pixels: Seq<u8>) -> Image {
    if s.has_transparency && s.colour_type == ColourType::Grayscale {
        Image {
            width: s.width,
            height: s.height,
            colour_type: ColourType::GrayscaleAlpha,
            pixels: grey_with_alpha(pixels, low_byte(s.transparency.0), pixels.len()),
        }
    } else if s.has_transparency && s.colour_type == ColourType::TrueColour {
        Image {
            width: s.width,
            height: s.height,
            colour_type: ColourType::TrueColourAlpha,
            pixels: colour_with_alpha(
                pixels,
                (
                    low_byte(s.transparency.0),
                    low_byte(s.transparency.1),
                    low_byte(s.transparency.2),
                ),
                pixels.len() / 3,
            ),
        }
    } else {
        Image { width: s.width, height: s.height, colour_type: s.colour_type, pixels }
    }
}

/// The pixels that the decompressed data holds, for the image that the state
/// describes.
pub open spec fn reconstruct(s: PngState, raw: Seq<u8>) -> Result<Seq<u8>, DecodeError> {
    if s.colour_type == ColourType::Indexed && s.plte.len() == 0 {
        Err(DecodeError::MissingPalette)
    } else if s.interlace == 1 {
        deinterlace_spec(
            raw,
            s.plte,
            s.colour_type == ColourType::Indexed,
            s.width as int,
            s.height as int,
            bytes_needed(s.colour_type),
            s.depth,
        )
    } else {
        reverse_filter_spec(
            raw,
            s.plte,
            s.colour_type == ColourType::Indexed,
            s.width as int,
            s.height as int,
            bytes_needed(s.colour_type),
            s.depth,
            0,
        )
    }
}

/// The image that the state after the last chunk stands for.
pub open spec fn finish(s: PngState) -> Result<Image, DecodeError> {
    if s.colour_type == ColourType::Invalid {
        Err(DecodeError::ChunkOrder)
    } else {
        match inflate(s.encoded) {
            Err(e) => Err(e),
            Ok(raw) => match reconstruct(s, raw) {
                Err(e) => Err(e),
                Ok(pixels) => Ok(with_transparency(s, pixels)),
            },
        }
    }
}

/// The image that a PNG stream holds.
pub open spec fn decode(data: Seq<u8>) -> Result<Image, DecodeError> {
    match check_signature(data, 8) {
        Err(e) => Err(e),
        Ok(()) => match parse_chunks(data, 8, initial_state()) {
            Err(e) => Err(e),
            Ok(s) => finish(s),
        },
    }
}

/// Every chunk from `pos` on, up to the end chunk, lies within the data and
/// carries the checksum of its type and payload.
pub open spec fn chunks_intact(data: Seq<u8>, pos: int) -> bool
    decreases data.len() - pos,
{
    pos + 8 <= data.len() && {
        let length = be32(data, pos) as int;
        &&& pos + 12 + length <= data.len()
        &&& crc32(data.subrange(pos + 4, pos + 8 + length)) == be32(data, pos + 8 + length)
        &&& (chunk_kind(be32(data, pos + 4)) == ChunkType::IEND || chunks_intact(
            data,
            pos + 12 + length,
        ))
    }
}

/// Decoding the image after its chunks are read fails for the order of the
/// chunks, as decompression does or as undoing the filters does.
pub proof fn lemma_finish_errors(s: PngState)
    ensures
        finish(s) matches Err(e) ==> e == DecodeError::ChunkOrder || stream_error(e)
            || pixel_error(e),
{
    lemma_inflate_errors(s.encoded);
    if let Ok(raw) = inflate(s.encoded) {
        lemma_deinterlace_errors(
            raw,
            s.plte,
            s.colour_type == ColourType::Indexed,
            s.width as int,
            s.height as int,
            bytes_needed(s.colour_type),
            s.depth,
        );
        lemma_reverse_filter_errors(
            raw,
            s.plte,
            s.colour_type == ColourType::Indexed,
            s.width as int,
            s.height as int,
            bytes_needed(s.colour_type),
            s.depth,
            0,
        );
    }
}

/// The failures of what a chunk holds: its place among the chunks, the
/// length of its content, or a header that names what is not decoded.
pub open spec fn content_error(e: DecodeError) -> bool {
    e == DecodeError::ChunkOrder || e == DecodeError::ChunkLength || e
        == DecodeError::PaletteLength || e == DecodeError::UnsupportedDepth || e
        == DecodeError::UnsupportedColourType || e == DecodeError::UnsupportedInterlace || e
        == DecodeError::MissingPalette || e == DecodeError::TransparencyNotAllowed
}

/// A chunk is refused only for what it holds.
pub proof fn lemma_apply_chunk_errors(s: PngState, kind: ChunkType, payload: Seq<u8>)
    ensures
        apply_chunk(s, kind, payload) matches Err(e) ==> content_error(e),
{
}

/// Chunks that are intact fail only for what they hold: not for a checksum,
/// nor for running past the end of the data.
pub proof fn lemma_intact_chunks_errors(data: Seq<u8>, pos: int, s: PngState)
    requires
        0 <= pos,
        chunks_intact(data, pos),
    ensures
        parse_chunks(data, pos, s) matches Err(e) ==> content_error(e),
    decreases data.len() - pos,
{
    reveal(chunk_step);
    if !s.has_end {
        let length = be32(data, pos) as int;
        let kind = chunk_kind(be32(data, pos + 4));
        let payload = data.subrange(pos + 8, pos + 8 + length);
        lemma_apply_chunk_errors(s, kind, payload);
        match apply_chunk(s, kind, payload) {
            Err(e) => {
                assert(chunk_step(data, pos, s) == Err::<(PngState, int), _>(e));
            },
            Ok(t) => {
                assert(chunk_step(data, pos, s) == Ok::<_, DecodeError>((t, pos + 12 + length)));
                if kind == ChunkType::IEND {
                    assert(t.has_end);
                } else {
                    lemma_intact_chunks_errors(data, pos + 12 + length, t);
                }
            },
        }
    }
}

/// A stream that starts with the signature, and whose chunks are intact, is
/// never refused for its signature or for a checksum. Where it is refused for
/// a malformed header, the header is that of the compressed data; where it
/// is refused for a corrupted chunk, the fault is the length of what a chunk
/// holds, or it lies in the compressed data.
pub proof fn lemma_signature_accepted(data: Seq<u8>)
    requires
        data.len() >= 8,
        forall|i: int| 0 <= i < 8 ==> data[i] == SIGNATURE[i],
        chunks_intact(data, 8),
    ensures
        decode(data) != Err::<Image, _>(DecodeError::NotPng),
        decode(data) != Err::<Image, _>(DecodeError::CrcMismatch),
        decode(data) matches Err(e) ==> {
            let chunks = parse_chunks(data, 8, initial_state());
            &&& e.spec_kind() == ErrorKind::MalformedHeader ==> chunks is Ok && inflate(
                chunks->Ok_0.encoded,
            ) == Err::<Seq<u8>, _>(e)
            &&& e.spec_kind() == ErrorKind::CorruptedChunk ==> e == DecodeError::ChunkLength || e
                == DecodeError::PaletteLength || (chunks is Ok && inflate(chunks->Ok_0.encoded)
                == Err::<Seq<u8>, _>(e))
        },
{
    reveal_with_fuel(check_signature, 9);
    assert(check_signature(data, 8) == Ok::<(), DecodeError>(()));
    lemma_intact_chunks_errors(data, 8, initial_state());
    if let Ok(s) = parse_chunks(data, 8, initial_state()) {
        lemma_finish_errors(s);
        if let Ok(raw) = inflate(s.encoded) {
            lemma_deinterlace_errors(
                raw,
                s.plte,
                s.colour_type == ColourType::Indexed,
                s.width as int,
                s.height as int,
                bytes_needed(s.colour_type),
                s.depth,
            );
            lemma_reverse_filter_errors(
                raw,
                s.plte,
                s.colour_type == ColourType::Indexed,
                s.width as int,
                s.height as int,
                bytes_needed(s.colour_type),
                s.depth,
                0,
            );
        }
    }
}

/// Chunks keep a valid header valid.
pub proof fn lemma_apply_chunk_valid(s: PngState, kind: ChunkType, payload: Seq<u8>)
    requires
        header_valid(s),
    ensures
        apply_chunk(s, kind, payload) matches Ok(t) ==> header_valid(t),
{
}

/// Reading chunks keeps a valid header valid.
pub proof fn lemma_parse_chunks_valid(data: Seq<u8>, pos: int, s: PngState)
    requires
        header_valid(s),
    ensures
        parse_chunks(data, pos, s) matches Ok(t) ==> header_valid(t),
    decreases data.len() - pos,
{
    reveal(chunk_step);
    if !s.has_end {
        if let Ok((t, next)) = chunk_step(data, pos, s) {
            let length = be32(data, pos) as int;
            lemma_apply_chunk_valid(
                s,
                chunk_kind(be32(data, pos + 4)),
                data.subrange(pos + 8, pos + 8 + length),
            );
            lemma_parse_chunks_valid(data, next, t);
        }
    }
}

/// Grey levels with their alpha take two bytes each.
proof fn lemma_grey_with_alpha_len(pixels: Seq<u8>, key: u8, upto: nat)
    ensures
        grey_with_alpha(pixels, key, upto).len() == 2 * upto,
    decreases upto,
{
    if upto > 0 {
        lemma_grey_with_alpha_len(pixels, key, (upto - 1) as nat);
    }
}

/// Colours with their alpha take four bytes each.
proof fn lemma_colour_with_alpha_len(pixels: Seq<u8>, key: (u8, u8, u8), upto: nat)
    ensures
        colour_with_alpha(pixels, key, upto).len() == 4 * upto,
    decreases upto,
{
    if upto > 0 {
        lemma_colour_with_alpha_len(pixels, key, (upto - 1) as nat);
    }
}

/// An image that decodes has the size that its header names, and its pixels
/// are packed: as many bytes as its rows, columns and layout ask for.
pub proof fn lemma_finish_len(s: PngState)
    requires
        header_valid(s),
    ensures
        finish(s) matches Ok(image) ==> image.width == s.width && image.height == s.height
            && image.pixels.len() == image.height * (image.width * pixel_size(image.colour_type)),
{
    if let Ok(image) = finish(s) {
        let raw = inflate(s.encoded)->Ok_0;
        let pixels = reconstruct(s, raw)->Ok_0;
        let indexed = s.colour_type == ColourType::Indexed;
        let channels = bytes_needed(s.colour_type);
        let w = s.width as int;
        let h = s.height as int;
        lemma_deinterlace_len(raw, s.plte, indexed, w, h, channels, s.depth);
        lemma_reverse_filter_len(raw, s.plte, indexed, w, h, channels, s.depth, 0);
        assert(pixels.len() == h * (w * pixel_bytes(channels, indexed)));
        if s.has_transparency && s.colour_type == ColourType::Grayscale {
            lemma_grey_with_alpha_len(pixels, low_byte(s.transparency.0), pixels.len());
            assert(2 * (h * (w * 1)) == h * (w * 2)) by (nonlinear_arith);
        } else if s.has_transparency && s.colour_type == ColourType::TrueColour {
            let key = (
                low_byte(s.transparency.0),
                low_byte(s.transparency.1),
                low_byte(s.transparency.2),
            );
            lemma_colour_with_alpha_len(pixels, key, pixels.len() / 3);
            assert(h * (w * 3) == 3 * (h * w)) by (nonlinear_arith);
            assert(4 * (h * w) == h * (w * 4)) by (nonlinear_arith);
        }
    }
}

/// The pixels of a decoded image are packed: as many bytes as its rows,
/// columns and layout ask for.
pub proof fn lemma_decode_len(data: Seq<u8>)
    ensures
        decode(data) matches Ok(image) ==> image.pixels.len() == image.height * (image.width
            * pixel_size(image.colour_type)),
{
    if let Ok(s) = parse_chunks(data, 8, initial_state()) {
        lemma_parse_chunks_valid(data, 8, initial_state());
        lemma_finish_len(s);
    }
}

/// The kind of chunk that a type field names.
pub fn chunk_type_of(tag: u32) -> (r: ChunkType)
    ensures
        r == chunk_kind(tag),
{
    if tag == 0x49484452 {
        ChunkType::IHDR
    } else if tag == 0x504c5445 {
        ChunkType::PLTE
    } else if tag == 0x49444154 {
        ChunkType::IDAT
    } else if tag == 0x49454e44 {
        ChunkType::IEND
    } else if tag == 0x74455874 {
        ChunkType::TEXT
    } else if tag == 0x70485973 {
        ChunkType::PHYS
    } else if tag == 0x7a545874 {
        ChunkType::ZTXT
    } else if tag == 0x67414d41 {
        ChunkType::GAMA
    } else if tag == 0x73424954 {
        ChunkType::SBIT
    } else if tag == 0x624b4744 {
        ChunkType::BKGD
    } else if tag == 0x6348524d {
        ChunkType::CHRM
    } else if tag == 0x68495354 {
        ChunkType::HIST
    } else if tag == 0x74494d45 {
        ChunkType::TIME
    } else if tag == 0x69545874 {
        ChunkType::ITXT
    } else if tag == 0x74524e53 {
        ChunkType::TRNS
    } else {
        ChunkType::UNKNOWN
    }
}

/// Reads the head of the chunk at `pos` and checks the chunk against its
/// checksum. Returns the kind of the chunk and the length of its payload.
pub fn get_chunk_type(data: &[u8], table: &Vec<u32>, pos: usize) -> (r: Result<
    (ChunkType, u32),
    DecodeError,
>)
    requires
        table.len() == 256,
        forall|i: int| 0 <= i < 256 ==> #[trigger] table[i] == crc_byte(i as u32),
        pos <= data.len(),
    ensures
        match r {
            Ok((kind, length)) => {
                &&& pos + 12 + length <= data.len()
                &&& length == be32(data@, pos as int)
                &&& kind == chunk_kind(be32(data@, pos + 4))
                &&& crc32(data@.subrange(pos + 4, pos + 8 + length)) == be32(
                    data@,
                    pos + 8 + length,
                )
            },
            Err(e) => {
                &&& pos + 8 > data.len() ==> e == DecodeError::Truncated
                &&& pos + 8 <= data.len() && pos + 12 + be32(data@, pos as int) > data.len() ==> e
                    == DecodeError::ChunkLength
                &&& pos + 8 <= data.len() && pos + 12 + be32(data@, pos as int) <= data.len() ==> e
                    == DecodeError::CrcMismatch && crc32(
                    data@.subrange(pos + 4, pos + 8 + be32(data@, pos as int)),
                ) != be32(data@, pos + 8 + be32(data@, pos as int))
            },
        },
{
    if data.len() - pos < 8 {
        return Err(DecodeError::Truncated);
    }
    let length = match peek_u32(data, pos) {
        Err(e) => {
            return Err(e);
        },
        Ok(v) => v,
    };
    let remaining: u64 = (data.len() - pos) as u64;
    if remaining < 12 + (length as u64) {
        return Err(DecodeError::ChunkLength);
    }
    let crc1 = calc_crc(table, data, pos + 4, length as usize + 4);
    let crc2 = match peek_u32(data, pos + 8 + length as usize) {
        Err(e) => {
            return Err(e);
        },
        Ok(v) => v,
    };
    if crc1 != crc2 {
        return Err(DecodeError::CrcMismatch);
    }
    let tag = match peek_u32(data, pos + 4) {
        Err(e) => {
            return Err(e);
        },
        Ok(v) => v,
    };
    Ok((chunk_type_of(tag), length))
}

/// A decoder of PNG streams, which keeps what it has read of the image and,
/// after `parse`, the decoded pixels.
pub struct Parser {
    width: u32,
    height: u32,
    depth: u8,
    colour_type: ColourType,
    compression: u8,
    filter: u8,
    interlace: u8,
    plte: Vec<(u8, u8, u8, u8)>,
    transparency: (u16, u16, u16),
    has_transparency: bool,
    has_end: bool,
    // encoded zlib data
    encoded_data: Vec<u8>,
    // decoded zlib data
    decoded_data: Vec<u8>,
    // reconstructed image
    data: Vec<u8>,
}

impl View for Parser {
    type V = PngState;

    /// What the parser has read of the image.
    closed spec fn view(&self) -> PngState {
        PngState {
            width: self.width,
            height: self.height,
            depth: self.depth,
            colour_type: self.colour_type,
            compression: self.compression,
            filter: self.filter,
            interlace: self.interlace,
            plte: self.plte@,
            transparency: self.transparency,
            has_transparency: self.has_transparency,
            has_end: self.has_end,
            encoded: self.encoded_data@,
        }
    }
}

impl Parser {
    /// The pixels that the parser holds.
    pub closed spec fn pixels(&self) -> Seq<u8> {
        self.data@
    }

    /// The image that the parser holds.
    pub open spec fn image(&self) -> Image {
        Image {
            width: self@.width,
            height: self@.height,
            colour_type: self@.colour_type,
            pixels: self.pixels(),
        }
    }

    /// A parser that has read nothing.
    pub fn new() -> (r: Parser)
        ensures
            r@ == initial_state(),
            r.pixels() == Seq::<u8>::empty(),
    {
        Parser {
            width: 0,
            height: 0,
            depth: 0,
            colour_type: ColourType::Invalid,
            compression: 0,
            filter: 0,
            interlace: 0,
            plte: Vec::new(),
            transparency: (255, 255, 255),
            has_transparency: false,
            has_end: false,
            encoded_data: Vec::new(),
            decoded_data: Vec::new(),
            data: Vec::new(),
        }
    }

    /// The width of the image in pixels.
    pub fn width(&self) -> (r: u32)
        ensures
            r == self@.width,
    {
        self.width
    }

    /// The height of the image in pixels.
    pub fn height(&self) -> (r: u32)
        ensures
            r == self@.height,
    {
        self.height
    }

    /// The number of bits of a sample.
    pub fn depth(&self) -> (r: u8)
        ensures
            r == self@.depth,
    {
        self.depth
    }

    /// The layout of the pixels.
    pub fn colour_type(&self) -> (r: ColourType)
        ensures
            r == self@.colour_type,
    {
        self.colour_type
    }

    /// The interlace method: 0 for none, 1 for Adam7.
    pub fn interlace(&self) -> (r: u8)
        ensures
            r == self@.interlace,
    {
        self.interlace
    }

    /// The palette, each entry with its alpha.
    pub fn palette(&self) -> (r: &Vec<(u8, u8, u8, u8)>)
        ensures
            r@ == self@.plte,
    {
        &self.plte
    }

    /// The decoded pixels, row by row.
    pub fn data(&self) -> (r: &Vec<u8>)
        ensures
            r@ == self.pixels(),
    {
        &self.data
    }

    /// Checks that the stream starts with the PNG signature.
    pub fn parse_png_header(data: &[u8]) -> (r: Result<(), DecodeError>)
        ensures
            r == check_signature(data@, 8),
    {
        let mut i: usize = 0;
        while i < 8
            invariant
                i <= 8,
                check_signature(data@, i as int) == Ok::<(), DecodeError>(()),
            decreases 8 - i,
        {
            let b = match peek_u8(data, i) {
                Err(e) => {
                    proof {
                        lemma_signature_error(data@, i + 1, 8);
                    }
                    return Err(e);
                },
                Ok(b) => b,
            };
            if b != SIGNATURE[i] {
                proof {
                    lemma_signature_error(data@, i + 1, 8);
                }
                return Err(DecodeError::NotPng);
            }
            i = i + 1;
        }
        Ok(())
    }

    /// Reads the image header from the payload of its chunk.
    fn parse_ihdr(&mut self, data: &[u8], start: usize, length: u32) -> (r: Result<
        (),
        DecodeError,
    >)
        requires
            start + length <= data.len(),
        ensures
            match apply_ihdr(old(self)@, data@.subrange(start as int, start + length)) {
                Ok(s) => r is Ok && final(self)@ == s && final(self).pixels() == old(self).pixels(),
                Err(e) => r == Err::<(), _>(e),
            },
    {
        let ghost payload = data@.subrange(start as int, start + length);
        if !matches!(self.colour_type, ColourType::Invalid) {
            return Err(DecodeError::ChunkOrder);
        }
        if length != 13 {
            return Err(DecodeError::ChunkLength);
        }
        proof {
            assert(forall|k: int| 0 <= k < 13 ==> payload[k] == data[start + k]);
        }
        let depth = data[start + 8];
        if !(depth == 1 || depth == 2 || depth == 4 || depth == 8) {
            return Err(DecodeError::UnsupportedDepth);
        }
        let code = data[start + 9];
        let colour = if code == 0 {
            ColourType::Grayscale
        } else if code == 2 {
            ColourType::TrueColour
        } else if code == 3 {
            ColourType::Indexed
        } else if code == 4 {
            ColourType::GrayscaleAlpha
        } else if code == 6 {
            ColourType::TrueColourAlpha
        } else {
            return Err(DecodeError::UnsupportedColourType);
        };
        let single = matches!(colour, ColourType::Grayscale) || matches!(
            colour,
            ColourType::Indexed
        );
        if !(depth == 8 || (single && (depth == 1 || depth == 2 || depth == 4))) {
            return Err(DecodeError::UnsupportedDepth);
        }
        let interlace = data[start + 12];
        if interlace > 1 {
            return Err(DecodeError::UnsupportedInterlace);
        }
        let width = match peek_u32(data, start) {
            Err(e) => {
                return Err(e);
            },
            Ok(v) => v,
        };
        let height = match peek_u32(data, start + 4) {
            Err(e) => {
                return Err(e);
            },
            Ok(v) => v,
        };
        self.width = width;
        self.height = height;
        self.depth = depth;
        self.colour_type = colour;
        self.compression = data[start + 10];
        self.filter = data[start + 11];
        self.interlace = interlace;
        Ok(())
    }

    /// Appends the payload of an image data chunk to the compressed stream.
    fn parse_idat(&mut self, data: &[u8], start: usize, length: u32) -> (r: Result<
        (),
        DecodeError,
    >)
        requires
            start + length <= data.len(),
        ensures
            match apply_idat(old(self)@, data@.subrange(start as int, start + length)) {
                Ok(s) => r is Ok && final(self)@ == s && final(self).pixels() == old(self).pixels(),
                Err(e) => r == Err::<(), _>(e),
            },
    {
        if matches!(self.colour_type, ColourType::Invalid) {
            return Err(DecodeError::ChunkOrder);
        }
        let ghost before = self.encoded_data@;
        let ghost payload = data@.subrange(start as int, start + length);
        let mut i: usize = 0;
        while i < length as usize
            invariant
                start + length <= data.len(),
                i <= length,
                payload == data@.subrange(start as int, start + length),
                self.encoded_data@ == before + payload.take(i as int),
                self@ == (PngState { encoded: self.encoded_data@, ..old(self)@ }),
                self.pixels() == old(self).pixels(),
            decreases length - i,
        {
            self.encoded_data.push(data[start + i]);
            proof {
                assert(self.encoded_data@ =~= before + payload.take(i + 1));
            }
            i = i + 1;
        }
        proof {
            assert(payload.take(length as int) =~= payload);
        }
        Ok(())
    }

    /// Reads the palette from the payload of its chunk.
    fn parse_plte(&mut self, data: &[u8], start: usize, length: u32) -> (r: Result<
        (),
        DecodeError,
    >)
        requires
            start + length <= data.len(),
        ensures
            match apply_plte(old(self)@, data@.subrange(start as int, start + length)) {
                Ok(s) => r is Ok && final(self)@ == s && final(self).pixels() == old(self).pixels(),
                Err(e) => r == Err::<(), _>(e),
            },
    {
        if matches!(self.colour_type, ColourType::Invalid) {
            return Err(DecodeError::ChunkOrder);
        }
        if length % 3 != 0 {
            return Err(DecodeError::PaletteLength);
        }
        let ghost payload = data@.subrange(start as int, start + length);
        let count: usize = (length / 3) as usize;
        let mut plte: Vec<(u8, u8, u8, u8)> = Vec::new();
        let mut i: usize = 0;
        while i < count
            invariant
                start + length <= data.len(),
                count == length / 3,
                length % 3 == 0,
                i <= count,
                payload == data@.subrange(start as int, start + length),
                plte@ == Seq::new(
                    i as nat,
                    |k: int| (payload[3 * k], payload[3 * k + 1], payload[3 * k + 2], 255u8),
                ),
            decreases count - i,
        {
            let r = data[start + 3 * i];
            let g = data[start + 3 * i + 1];
            let b = data[start + 3 * i + 2];
            plte.push((r, g, b, 255));
            proof {
                assert(plte@ =~= Seq::new(
                    (i + 1) as nat,
                    |k: int| (payload[3 * k], payload[3 * k + 1], payload[3 * k + 2], 255u8),
                ));
            }
            i = i + 1;
        }
        self.plte = plte;
        Ok(())
    }

    /// Marks the end of the chunks.
    fn parse_iend(&mut self)
        ensures
            final(self)@ == (PngState { has_end: true, ..old(self)@ }),
            final(self).pixels() == old(self).pixels(),
    {
        self.has_end = true;
    }

    /// Reads the transparency chunk, whose meaning goes by the colour type.
    fn parse_trns(&mut self, data: &[u8], start: usize, length: u32) -> (r: Result<
        (),
        DecodeError,
    >)
        requires
            start + length <= data.len(),
        ensures
            match apply_trns(old(self)@, data@.subrange(start as int, start + length)) {
                Ok(s) => r is Ok && final(self)@ == s && final(self).pixels() == old(self).pixels(),
                Err(e) => r == Err::<(), _>(e),
            },
    {
        let ghost payload = data@.subrange(start as int, start + length);
        match self.colour_type {
            ColourType::Invalid => Err(DecodeError::ChunkOrder),
            ColourType::Grayscale => {
                if length != 2 {
                    return Err(DecodeError::ChunkLength);
                }
                proof {
                    assert(forall|k: int| 0 <= k < 2 ==> payload[k] == data[start + k]);
                }
                let rgb = (data[start] as u16) * 256 + data[start + 1] as u16;
                self.transparency = (rgb, rgb, rgb);
                self.has_transparency = true;
                Ok(())
            },
            ColourType::TrueColour => {
                if length != 6 {
                    return Err(DecodeError::ChunkLength);
                }
                proof {
                    assert(forall|k: int| 0 <= k < 6 ==> payload[k] == data[start + k]);
                }
                let r = (data[start] as u16) * 256 + data[start + 1] as u16;
                let g = (data[start + 2] as u16) * 256 + data[start + 3] as u16;
                let b = (data[start + 4] as u16) * 256 + data[start + 5] as u16;
                self.transparency = (r, g, b);
                self.has_transparency = true;
                Ok(())
            },
            ColourType::Indexed => {
                if self.plte.len() == 0 {
                    return Err(DecodeError::MissingPalette);
                }
                if length as usize > self.plte.len() {
                    return Err(DecodeError::ChunkLength);
                }
                let ghost before = self.plte@;
                let mut i: usize = 0;
                while i < length as usize
                    invariant
                        start + length <= data.len(),
                        length <= before.len(),
                        i <= length,
                        payload == data@.subrange(start as int, start + length),
                        self.plte@ == Seq::new(
                            before.len(),
                            |k: int|
                                if k < i {
                                    (before[k].0, before[k].1, before[k].2, payload[k])
                                } else {
                                    before[k]
                                },
                        ),
                        self@ == (PngState { plte: self.plte@, ..old(self)@ }),
                        self.pixels() == old(self).pixels(),
                    decreases length - i,
                {
                    let a = data[start + i];
                    let entry = self.plte[i];
                    self.plte.set(i, (entry.0, entry.1, entry.2, a));
                    proof {
                        assert(self.plte@ =~= Seq::new(
                            before.len(),
                            |k: int|
                                if k < i + 1 {
                                    (before[k].0, before[k].1, before[k].2, payload[k])
                                } else {
                                    before[k]
                                },
                        ));
                    }
                    i = i + 1;
                }
                proof {
                    assert(self.plte@ =~= Seq::new(
                        before.len(),
                        |k: int|
                            if k < payload.len() {
                                (before[k].0, before[k].1, before[k].2, payload[k])
                            } else {
                                before[k]
                            },
                    ));
                }
                Ok(())
            },
            _ => Err(DecodeError::TransparencyNotAllowed),
        }
    }

    /// Reads the chunk at `pos` and returns the position of the next one.
    pub fn parse_chunk(&mut self, data: &[u8], table: &Vec<u32>, pos: usize) -> (r: Result<
        usize,
        DecodeError,
    >)
        requires
            table.len() == 256,
            forall|i: int| 0 <= i < 256 ==> #[trigger] table[i] == crc_byte(i as u32),
            pos <= data.len(),
        ensures
            match chunk_step(data@, pos as int, old(self)@) {
                Ok((s, next)) => r == Ok::<_, DecodeError>(next as usize) && pos < next <= data.len()
                    && final(self)@ == s && final(self).pixels() == old(self).pixels(),
                Err(e) => r == Err::<usize, _>(e),
            },
            r is Ok && header_valid(old(self)@) ==> header_valid(final(self)@),
            r matches Ok(next) ==> pos < next <= data.len(),
    {
        proof {
            reveal(chunk_step);
            if header_valid(old(self)@) && pos + 12 + be32(data@, pos as int) <= data.len() {
                lemma_apply_chunk_valid(
                    old(self)@,
                    chunk_kind(be32(data@, pos + 4)),
                    data@.subrange(pos + 8, pos + 8 + be32(data@, pos as int)),
                );
            }
        }
        let (chunk_type, length) = match get_chunk_type(data, table, pos) {
            Err(e) => {
                return Err(e);
            },
            Ok(v) => v,
        };
        let start = pos + 8;
        let done = match chunk_type {
            ChunkType::IHDR => self.parse_ihdr(data, start, length),
            ChunkType::IDAT => self.parse_idat(data, start, length),
            ChunkType::PLTE => self.parse_plte(data, start, length),
            ChunkType::IEND => {
                self.parse_iend();
                Ok(())
            },
            ChunkType::TRNS => self.parse_trns(data, start, length),
            _ => Ok(()),
        };
        match done {
            Err(e) => Err(e),
            Ok(()) => Ok(pos + 12 + length as usize),
        }
    }

    /// Reads the chunks after the signature, up to and with the end chunk.
    fn read_chunks(&mut self, data: &[u8]) -> (r: Result<(), DecodeError>)
        requires
            old(self)@ == initial_state(),
            8 <= data.len(),
        ensures
            match parse_chunks(data@, 8, initial_state()) {
                Ok(s) => r is Ok && final(self)@ == s && header_valid(s) && final(self).pixels() == old(self).pixels(),
                Err(e) => r == Err::<(), _>(e),
            },
    {
        let table = make_crc_table();
        let mut pos: usize = 8;
        while !self.has_end
            invariant
                table.len() == 256,
                forall|i: int| 0 <= i < 256 ==> #[trigger] table[i] == crc_byte(i as u32),
                pos <= data.len(),
                header_valid(self@),
                self.pixels() == old(self).pixels(),
                parse_chunks(data@, pos as int, self@) == parse_chunks(data@, 8, initial_state()),
            decreases data.len() - pos,
        {
            pos = match self.parse_chunk(data, &table, pos) {
                Err(e) => {
                    return Err(e);
                },
                Ok(p) => p,
            };
        }
        Ok(())
    }

    /// The number of channels that the filters work on.
    fn channels(&self) -> (r: usize)
        ensures
            r == bytes_needed(self@.colour_type),
    {
        match self.colour_type {
            ColourType::Grayscale => 1,
            ColourType::TrueColour => 3,
            ColourType::Indexed => 1,
            ColourType::GrayscaleAlpha => 2,
            ColourType::TrueColourAlpha => 4,
            ColourType::Invalid => 0,
        }
    }

    /// Undoes the filters of the image of `width` by `height` pixels whose
    /// rows lie in the decompressed data from `offset` on, and unpacks its
    /// samples.
    pub fn reverse_filter(
        &self,
        width: u32,
        height: u32,
        channels: usize,
        depth: u8,
        offset: usize,
    ) -> (r: Result<Vec<u8>, DecodeError>)
        ensures
            match reverse_filter_spec(
                self.decoded(),
                self@.plte,
                self@.colour_type == ColourType::Indexed,
                width as int,
                height as int,
                channels as int,
                depth,
                offset as int,
            ) {
                Ok(pixels) => r is Ok && r->Ok_0@ == pixels,
                Err(e) => r == Err::<Vec<u8>, _>(e),
            },
    {
        reverse_filter(
            self.decoded_data.as_slice(),
            &self.plte,
            matches!(self.colour_type, ColourType::Indexed),
            width,
            height,
            channels,
            depth,
            offset,
        )
    }

    /// The decompressed data that the parser holds.
    pub closed spec fn decoded(&self) -> Seq<u8> {
        self.decoded_data@
    }

    /// Turns the transparent grey level or colour into an alpha channel.
    fn expand_transparency(&mut self)
        ensures
            final(self).image() == with_transparency(old(self)@, old(self).pixels()),
            final(self)@ == (PngState { colour_type: final(self)@.colour_type, ..old(self)@ }),
    {
        if self.has_transparency && matches!(self.colour_type, ColourType::Grayscale) {
            let key: u8 = (self.transparency.0 % 256) as u8;
            let mut new_data: Vec<u8> = Vec::new();
            let mut i: usize = 0;
            while i < self.data.len()
                invariant
                    i <= self.data.len(),
                    self.data@ == old(self).data@,
                    new_data@ == grey_with_alpha(self.data@, key, i as nat),
                decreases self.data.len() - i,
            {
                let v = self.data[i];
                new_data.push(v);
                if v == key {
                    new_data.push(0);
                } else {
                    new_data.push(255);
                }
                proof {
                    assert(new_data@ =~= grey_with_alpha(self.data@, key, (i + 1) as nat));
                }
                i = i + 1;
            }
            self.data = new_data;
            self.colour_type = ColourType::GrayscaleAlpha;
        } else if self.has_transparency && matches!(self.colour_type, ColourType::TrueColour) {
            let key: (u8, u8, u8) = (
                (self.transparency.0 % 256) as u8,
                (self.transparency.1 % 256) as u8,
                (self.transparency.2 % 256) as u8,
            );
            let count = self.data.len() / 3;
            let mut new_data: Vec<u8> = Vec::new();
            let mut i: usize = 0;
            while i < count
                invariant
                    i <= count,
                    count == self.data.len() / 3,
                    self.data@ == old(self).data@,
                    new_data@ == colour_with_alpha(self.data@, key, i as nat),
                decreases count - i,
            {
                let r = self.data[3 * i];
                let g = self.data[3 * i + 1];
                let b = self.data[3 * i + 2];
                new_data.push(r);
                new_data.push(g);
                new_data.push(b);
                if r == key.0 && g == key.1 && b == key.2 {
                    new_data.push(0);
                } else {
                    new_data.push(255);
                }
                proof {
                    assert(new_data@ =~= colour_with_alpha(self.data@, key, (i + 1) as nat));
                }
                i = i + 1;
            }
            self.data = new_data;
            self.colour_type = ColourType::TrueColourAlpha;
        }
    }

    /// Decodes a PNG stream. On success the parser holds the image: its size,
    /// its colour type after transparency is expanded, and its pixels; and
    /// beside it what the chunks said of depth, interlacing and palette.
    pub fn parse(&mut self, data: Vec<u8>) -> (r: Result<(), DecodeError>)
        ensures
            match decode(data@) {
                Ok(image) => r is Ok && final(self).image() == image && final(self)@ == (PngState {
                    colour_type: image.colour_type,
                    ..parse_chunks(data@, 8, initial_state())->Ok_0
                }) && image.pixels.len() == image.height * (image.width * pixel_size(
                    image.colour_type,
                )),
                Err(e) => r == Err::<(), _>(e),
            },
    {
        proof {
            lemma_decode_len(data@);
        }
        *self = Parser::new();
        let bytes = data.as_slice();
        match Parser::parse_png_header(bytes) {
            Err(e) => {
                return Err(e);
            },
            Ok(()) => {},
        }
        proof {
            reveal_with_fuel(check_signature, 9);
        }
        match self.read_chunks(bytes) {
            Err(e) => {
                return Err(e);
            },
            Ok(()) => {},
        }
        if matches!(self.colour_type, ColourType::Invalid) {
            return Err(DecodeError::ChunkOrder);
        }
        self.decoded_data = match zlib::parse(self.encoded_data.as_slice()) {
            Err(e) => {
                return Err(e);
            },
            Ok(v) => v,
        };
        let indexed = matches!(self.colour_type, ColourType::Indexed);
        if indexed && self.plte.len() == 0 {
            return Err(DecodeError::MissingPalette);
        }
        let channels = self.channels();
        let pixels = if self.interlace == 1 {
            deinterlace(
                self.decoded_data.as_slice(),
                &self.plte,
                indexed,
                self.width,
                self.height,
                channels,
                self.depth,
            )
        } else {
            self.reverse_filter(self.width, self.height, channels, self.depth, 0)
        };
        self.data = match pixels {
            Err(e) => {
                return Err(e);
            },
            Ok(v) => v,
        };
        self.expand_transparency();
        Ok(())
    }
}

/// An error in the first bytes of the signature is the error of the whole.
proof fn lemma_signature_error(data: Seq<u8>, upto: int, all: int)
    requires
        upto <= all,
        check_signature(data, upto) is Err,
    ensures
        check_signature(data, all) == check_signature(data, upto),
    decreases all,
{
    if upto < all {
        lemma_signature_error(data, upto, all - 1);
    }
}

} // verus!
