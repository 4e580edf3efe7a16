//! The reasons for which decoding fails.

use vstd::prelude::*;

verus! {

/// The five kinds of failure.
#[derive(Clone, Copy, Debug, PartialEq, Eq, Structural)]
pub enum ErrorKind {
    /// A signature or a stream header is not what the format prescribes.
    MalformedHeader,
    /// A chunk or a block contradicts itself.
    CorruptedChunk,
    /// The input asks for something that this decoder does not offer.
    UnsupportedFeature,
    /// The compressed or filtered data cannot be decoded.
    DecoderState,
    /// The input ends where more is needed.
    Truncation,
}

/// Why a decode failed.
#[derive(Clone, Copy, Debug, PartialEq, Eq, Structural)]
pub enum DecodeError {
    /// The input does not begin with the PNG signature.
    NotPng,
    /// The input does not begin with the JPEG start-of-image marker.
    NotJpeg,
    /// The two bytes of the zlib header are not a multiple of 31.
    HeaderChecksum,
    /// The zlib header names a compression method other than DEFLATE.
    NotDeflate,
    /// The zlib stream asks for a preset dictionary.
    PresetDictionary,
    /// The checksum of a chunk does not match its type and payload.
    CrcMismatch,
    /// The length of a chunk does not fit what the chunk holds.
    ChunkLength,
    /// The length of a palette is not a multiple of three.
    PaletteLength,
    /// A DEFLATE block of the reserved type.
    ReservedBlockType,
    /// The two length fields of a stored block do not complement each other.
    StoredLength,
    /// A table of a JPEG segment is malformed.
    BadTable,
    /// A bit depth, or a pairing of depth and colour type, outside what is decoded.
    UnsupportedDepth,
    /// A colour type that the format does not define.
    UnsupportedColourType,
    /// An interlace method other than 0 and 1.
    UnsupportedInterlace,
    /// A transparency chunk for a colour type that carries its own alpha.
    TransparencyNotAllowed,
    /// A marker that this reader does not handle.
    UnsupportedMarker,
    /// The bit stream continues with no code of the table in use.
    NoCode,
    /// A decoded symbol lies outside its alphabet, or repeats a length before
    /// there is one.
    BadSymbol,
    /// A distance symbol above 29.
    BadDistance,
    /// A back-reference to before the start of the output.
    DistanceTooFar,
    /// The code lengths of a block do not give a prefix code.
    BadCodeLengths,
    /// A scanline names a filter type above 4.
    BadFilter,
    /// A chunk that must follow the image header comes before it, or the
    /// header comes twice.
    ChunkOrder,
    /// An indexed image without a palette, or a pixel that points outside it.
    MissingPalette,
    /// A scan that comes before any frame header.
    MissingFrame,
    /// The input ends too early.
    Truncated,
}

impl DecodeError {
    /// The kind that a failure belongs to.
    pub open spec fn spec_kind(self) -> ErrorKind {
        match self {
            DecodeError::NotPng => ErrorKind::MalformedHeader,
            DecodeError::NotJpeg => ErrorKind::MalformedHeader,
            DecodeError::HeaderChecksum => ErrorKind::MalformedHeader,
            DecodeError::NotDeflate => ErrorKind::MalformedHeader,
            DecodeError::PresetDictionary => ErrorKind::MalformedHeader,
            DecodeError::CrcMismatch => ErrorKind::CorruptedChunk,
            DecodeError::ChunkLength => ErrorKind::CorruptedChunk,
            DecodeError::PaletteLength => ErrorKind::CorruptedChunk,
            DecodeError::ReservedBlockType => ErrorKind::CorruptedChunk,
            DecodeError::StoredLength => ErrorKind::CorruptedChunk,
            DecodeError::BadTable => ErrorKind::CorruptedChunk,
            DecodeError::UnsupportedDepth => ErrorKind::UnsupportedFeature,
            DecodeError::UnsupportedColourType => ErrorKind::UnsupportedFeature,
            DecodeError::UnsupportedInterlace => ErrorKind::UnsupportedFeature,
            DecodeError::TransparencyNotAllowed => ErrorKind::UnsupportedFeature,
            DecodeError::UnsupportedMarker => ErrorKind::UnsupportedFeature,
            DecodeError::NoCode => ErrorKind::DecoderState,
            DecodeError::BadSymbol => ErrorKind::DecoderState,
            DecodeError::BadDistance => ErrorKind::DecoderState,
            DecodeError::DistanceTooFar => ErrorKind::DecoderState,
            DecodeError::BadCodeLengths => ErrorKind::DecoderState,
            DecodeError::BadFilter => ErrorKind::DecoderState,
            DecodeError::ChunkOrder => ErrorKind::DecoderState,
            DecodeError::MissingPalette => ErrorKind::DecoderState,
            DecodeError::MissingFrame => ErrorKind::DecoderState,
            DecodeError::Truncated => ErrorKind::Truncation,
        }
    }

    /// The kind that a failure belongs to.
    #[verifier::when_used_as_spec(spec_kind)]
    pub fn kind(self) -> (r: ErrorKind)
        ensures
            r == self.spec_kind(),
    {
        match self {
            DecodeError::NotPng => ErrorKind::MalformedHeader,
            DecodeError::NotJpeg => ErrorKind::MalformedHeader,
            DecodeError::HeaderChecksum => ErrorKind::MalformedHeader,
            DecodeError::NotDeflate => ErrorKind::MalformedHeader,
            DecodeError::PresetDictionary => ErrorKind::MalformedHeader,
            DecodeError::CrcMismatch => ErrorKind::CorruptedChunk,
            DecodeError::ChunkLength => ErrorKind::CorruptedChunk,
            DecodeError::PaletteLength => ErrorKind::CorruptedChunk,
            DecodeError::ReservedBlockType => ErrorKind::CorruptedChunk,
            DecodeError::StoredLength => ErrorKind::CorruptedChunk,
            DecodeError::BadTable => ErrorKind::CorruptedChunk,
            DecodeError::UnsupportedDepth => ErrorKind::UnsupportedFeature,
            DecodeError::UnsupportedColourType => ErrorKind::UnsupportedFeature,
            DecodeError::UnsupportedInterlace => ErrorKind::UnsupportedFeature,
            DecodeError::TransparencyNotAllowed => ErrorKind::UnsupportedFeature,
            DecodeError::UnsupportedMarker => ErrorKind::UnsupportedFeature,
            DecodeError::NoCode => ErrorKind::DecoderState,
            DecodeError::BadSymbol => ErrorKind::DecoderState,
            DecodeError::BadDistance => ErrorKind::DecoderState,
            DecodeError::DistanceTooFar => ErrorKind::DecoderState,
            DecodeError::BadCodeLengths => ErrorKind::DecoderState,
            DecodeError::BadFilter => ErrorKind::DecoderState,
            DecodeError::ChunkOrder => ErrorKind::DecoderState,
            DecodeError::MissingPalette => ErrorKind::DecoderState,
            DecodeError::MissingFrame => ErrorKind::DecoderState,
            DecodeError::Truncated => ErrorKind::Truncation,
        }
    }

    /// The text of the reason, as a caller reports it.
    pub open spec fn message_text(self) -> Seq<char> {
        match self {
            DecodeError::NotPng => "Not a PNG file"@,
            DecodeError::NotJpeg => "Not a JPEG file"@,
            DecodeError::HeaderChecksum => "Error in bitstream header"@,
            DecodeError::NotDeflate => "Not a DEFLATE stream"@,
            DecodeError::PresetDictionary => "Preset dictionaries are not supported"@,
            DecodeError::CrcMismatch => "Corrupted data"@,
            DecodeError::ChunkLength => "Chunk length does not fit its content"@,
            DecodeError::PaletteLength => "Palette length is not a multiple of three"@,
            DecodeError::ReservedBlockType => "Invalid header in zlib stream"@,
            DecodeError::StoredLength => "Corrupted length of a stored block"@,
            DecodeError::BadTable => "Badly formed JPEG"@,
            DecodeError::UnsupportedDepth => "Unsupported bit depth"@,
            DecodeError::UnsupportedColourType => "Invalid colour type"@,
            DecodeError::UnsupportedInterlace => "Invalid interlace method"@,
            DecodeError::TransparencyNotAllowed => "Transparency is not valid for this colour type"@,
            DecodeError::UnsupportedMarker => "Not implemented"@,
            DecodeError::NoCode => "Failed to find a code"@,
            DecodeError::BadSymbol => "Corrupted bitstream"@,
            DecodeError::BadDistance => "Corrupted datastream"@,
            DecodeError::DistanceTooFar => "Back-reference before the start of the data"@,
            DecodeError::BadCodeLengths => "Code lengths do not form a prefix code"@,
            DecodeError::BadFilter => "Corrupted data: unknown filter type"@,
            DecodeError::ChunkOrder => "Chunk out of order"@,
            DecodeError::MissingPalette => "Missing PLTE chunk"@,
            DecodeError::MissingFrame => "Corrupted image"@,
            DecodeError::Truncated => "Not enough data"@,
        }
    }

    /// The text of the reason, as a caller reports it.
    pub fn message(self) -> (r: String)
        ensures
            r@ == self.message_text(),
    {
        let text: &str = match self {
            DecodeError::NotPng => "Not a PNG file",
            DecodeError::NotJpeg => "Not a JPEG file",
            DecodeError::HeaderChecksum => "Error in bitstream header",
            DecodeError::NotDeflate => "Not a DEFLATE stream",
            DecodeError::PresetDictionary => "Preset dictionaries are not supported",
            DecodeError::CrcMismatch => "Corrupted data",
            DecodeError::ChunkLength => "Chunk length does not fit its content",
            DecodeError::PaletteLength => "Palette length is not a multiple of three",
            DecodeError::ReservedBlockType => "Invalid header in zlib stream",
            DecodeError::StoredLength => "Corrupted length of a stored block",
            DecodeError::BadTable => "Badly formed JPEG",
            DecodeError::UnsupportedDepth => "Unsupported bit depth",
            DecodeError::UnsupportedColourType => "Invalid colour type",
            DecodeError::UnsupportedInterlace => "Invalid interlace method",
            DecodeError::TransparencyNotAllowed => "Transparency is not valid for this colour type",
            DecodeError::UnsupportedMarker => "Not implemented",
            DecodeError::NoCode => "Failed to find a code",
            DecodeError::BadSymbol => "Corrupted bitstream",
            DecodeError::BadDistance => "Corrupted datastream",
            DecodeError::DistanceTooFar => "Back-reference before the start of the data",
            DecodeError::BadCodeLengths => "Code lengths do not form a prefix code",
            DecodeError::BadFilter => "Corrupted data: unknown filter type",
            DecodeError::ChunkOrder => "Chunk out of order",
            DecodeError::MissingPalette => "Missing PLTE chunk",
            DecodeError::MissingFrame => "Corrupted image",
            DecodeError::Truncated => "Not enough data",
        };
        text.to_string()
    }
}

} // verus!
