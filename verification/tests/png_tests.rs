use image_decoder::crc::{calc_crc, make_crc_table};
use image_decoder::error::{DecodeError, ErrorKind};
use image_decoder::png::{ColourType, Parser};

const SIGNATURE: [u8; 8] = [137, 80, 78, 71, 13, 10, 26, 10];

/// The checksum of a chunk, bit by bit.
fn checksum(bytes: &[u8]) -> u32 {
    let mut c: u32 = 0xffff_ffff;
    for b in bytes {
        c ^= *b as u32;
        for _ in 0..8 {
            c = if c & 1 == 1 { 0xedb8_8320 ^ (c >> 1) } else { c >> 1 };
        }
    }
    c ^ 0xffff_ffff
}

fn chunk(kind: &[u8; 4], payload: &[u8]) -> Vec<u8> {
    let mut out = (payload.len() as u32).to_be_bytes().to_vec();
    let mut body = kind.to_vec();
    body.extend_from_slice(payload);
    out.extend_from_slice(&body);
    out.extend_from_slice(&checksum(&body).to_be_bytes());
    out
}

fn header(width: u32, height: u32, depth: u8, colour: u8, interlace: u8) -> Vec<u8> {
    let mut payload = width.to_be_bytes().to_vec();
    payload.extend_from_slice(&height.to_be_bytes());
    payload.extend_from_slice(&[depth, colour, 0, 0, interlace]);
    chunk(b"IHDR", &payload)
}

/// A zlib stream that holds `raw` in one stored block.
fn stored(raw: &[u8]) -> Vec<u8> {
    let n = raw.len() as u16;
    let mut out = vec![0x78, 0x01, 0x01];
    out.extend_from_slice(&n.to_le_bytes());
    out.extend_from_slice(&(!n).to_le_bytes());
    out.extend_from_slice(raw);
    out.extend_from_slice(&[0, 0, 0, 0]);
    out
}

fn image_data(raw: &[u8]) -> Vec<u8> {
    chunk(b"IDAT", &stored(raw))
}

fn file(chunks: &[Vec<u8>]) -> Vec<u8> {
    let mut out = SIGNATURE.to_vec();
    for c in chunks {
        out.extend_from_slice(c);
    }
    out
}

fn decode(data: Vec<u8>) -> Result<(u32, u32, ColourType, Vec<u8>), DecodeError> {
    let mut parser = Parser::new();
    parser.parse(data)?;
    Ok((parser.width(), parser.height(), parser.colour_type(), parser.data().clone()))
}

fn failure(data: Vec<u8>) -> DecodeError {
    decode(data).unwrap_err()
}

#[test]
fn new_parser_is_empty() {
    let parser = Parser::new();
    assert_eq!(parser.width(), 0);
    assert_eq!(parser.height(), 0);
    assert_eq!(parser.depth(), 0);
    assert_eq!(parser.colour_type(), ColourType::Invalid);
    assert!(parser.data().is_empty());
    assert!(parser.palette().is_empty());
}

#[test]
fn one_black_truecolour_pixel() {
    let data: Vec<u8> = vec![
        137, 80, 78, 71, 13, 10, 26, 10, 0, 0, 0, 13, 73, 72, 68, 82, 0, 0, 0, 1, 0, 0, 0, 1, 8, 2,
        0, 0, 0, 144, 119, 83, 222, 0, 0, 0, 12, 73, 68, 65, 84, 120, 156, 99, 96, 96, 96, 0, 0, 0,
        4, 0, 1, 246, 23, 56, 85, 0, 0, 0, 0, 73, 69, 78, 68, 174, 66, 96, 130,
    ];
    assert_eq!(decode(data), Ok((1, 1, ColourType::TrueColour, vec![0, 0, 0])));
}

#[test]
fn grayscale_of_depth_one() {
    let data: Vec<u8> = vec![
        137, 80, 78, 71, 13, 10, 26, 10, 0, 0, 0, 13, 73, 72, 68, 82, 0, 0, 0, 2, 0, 0, 0, 2, 1, 0,
        0, 0, 0, 90, 205, 48, 137, 0, 0, 0, 12, 73, 68, 65, 84, 120, 156, 99, 104, 96, 112, 0, 0,
        1, 196, 0, 193, 152, 102, 53, 22, 0, 0, 0, 0, 73, 69, 78, 68, 174, 66, 96, 130,
    ];
    assert_eq!(decode(data), Ok((2, 2, ColourType::Grayscale, vec![255, 0, 0, 255])));
}

#[test]
fn indexed_with_transparency() {
    let data: Vec<u8> = vec![
        137, 80, 78, 71, 13, 10, 26, 10, 0, 0, 0, 13, 73, 72, 68, 82, 0, 0, 0, 2, 0, 0, 0, 1, 8, 3,
        0, 0, 0, 195, 252, 143, 184, 0, 0, 0, 6, 80, 76, 84, 69, 255, 0, 0, 0, 255, 0, 210, 135,
        239, 113, 0, 0, 0, 2, 116, 82, 78, 83, 128, 255, 96, 18, 186, 254, 0, 0, 0, 11, 73, 68, 65,
        84, 120, 156, 99, 96, 96, 4, 0, 0, 4, 0, 2, 191, 122, 63, 74, 0, 0, 0, 0, 73, 69, 78, 68,
        174, 66, 96, 130,
    ];
    assert_eq!(
        decode(data),
        Ok((2, 1, ColourType::Indexed, vec![255, 0, 0, 128, 0, 255, 0, 255]))
    );
}

#[test]
fn sub_filter_row() {
    let data: Vec<u8> = vec![
        137, 80, 78, 71, 13, 10, 26, 10, 0, 0, 0, 13, 73, 72, 68, 82, 0, 0, 0, 3, 0, 0, 0, 1, 8, 2,
        0, 0, 0, 148, 130, 131, 227, 0, 0, 0, 16, 73, 68, 65, 84, 120, 156, 99, 228, 18, 145, 99,
        100, 98, 6, 34, 0, 2, 6, 0, 74, 55, 218, 231, 83, 0, 0, 0, 0, 73, 69, 78, 68, 174, 66, 96,
        130,
    ];
    assert_eq!(
        decode(data),
        Ok((3, 1, ColourType::TrueColour, vec![10, 20, 30, 11, 22, 33, 12, 24, 36]))
    );
}

#[test]
fn flipped_bit_in_header_is_rejected() {
    // the image of one black pixel with one bit of its width flipped
    let data: Vec<u8> = vec![
        137, 80, 78, 71, 13, 10, 26, 10, 0, 0, 0, 13, 73, 72, 68, 82, 0, 0, 0, 0, 0, 0, 0, 1, 8, 2,
        0, 0, 0, 144, 119, 83, 222, 0, 0, 0, 12, 73, 68, 65, 84, 120, 156, 99, 96, 96, 96, 0, 0, 0,
        4, 0, 1, 246, 23, 56, 85, 0, 0, 0, 0, 73, 69, 78, 68, 174, 66, 96, 130,
    ];
    let mut parser = Parser::new();
    let r = parser.parse(data);
    assert_eq!(r, Err(DecodeError::CrcMismatch));
    assert_eq!(r.unwrap_err().kind(), ErrorKind::CorruptedChunk);
    assert_eq!(parser.width(), 0);
    assert_eq!(parser.height(), 0);
}

#[test]
fn every_flipped_payload_bit_is_rejected() {
    let good = file(&[header(1, 1, 8, 2, 0), image_data(&[0, 1, 2, 3]), chunk(b"IEND", &[])]);
    assert_eq!(decode(good.clone()), Ok((1, 1, ColourType::TrueColour, vec![1, 2, 3])));
    for byte in 16..29 {
        for bit in 0..8 {
            let mut bad = good.clone();
            bad[byte] ^= 1 << bit;
            assert_eq!(failure(bad), DecodeError::CrcMismatch);
        }
    }
}

#[test]
fn intact_chunks_pass_signature_and_checksum() {
    // whatever the chunks hold, a failure is neither of the signature nor of
    // a checksum
    let files = vec![
        file(&[header(1, 1, 16, 2, 0), chunk(b"IEND", &[])]),
        file(&[header(1, 1, 8, 2, 0), chunk(b"IDAT", &[1, 2, 3]), chunk(b"IEND", &[])]),
        file(&[header(2, 2, 8, 0, 0), image_data(&[0, 1, 2, 9, 1, 2]), chunk(b"IEND", &[])]),
        file(&[chunk(b"IEND", &[])]),
    ];
    for f in files {
        let e = failure(f);
        assert_ne!(e, DecodeError::NotPng);
        assert_ne!(e, DecodeError::CrcMismatch);
    }
}

#[test]
fn checksum_of_known_strings() {
    let table = make_crc_table();
    assert_eq!(table.len(), 256);
    assert_eq!(table[0], 0);
    assert_eq!(table[1], 0x7707_3096);
    assert_eq!(table[255], 0x2d02_ef8d);
    assert_eq!(calc_crc(&table, b"IEND", 0, 4), 0xae42_6082);
    assert_eq!(calc_crc(&table, b"123456789", 0, 9), 0xcbf4_3926);
    assert_eq!(calc_crc(&table, b"xx123456789yy", 2, 9), 0xcbf4_3926);
    assert_eq!(calc_crc(&table, b"abc", 1, 0), 0);
    assert_eq!(calc_crc(&table, b"a chunk body", 0, 12), checksum(b"a chunk body"));
}

#[test]
fn signature_errors() {
    assert_eq!(failure(vec![]), DecodeError::Truncated);
    assert_eq!(failure(vec![137, 80, 78]), DecodeError::Truncated);
    assert_eq!(failure(vec![137, 80, 78, 72]), DecodeError::NotPng);
    assert_eq!(failure(vec![0xff, 0xd8, 0xff, 0xe0, 0, 16, 74, 70, 73, 70]), DecodeError::NotPng);
    let mut data = file(&[header(1, 1, 8, 2, 0)]);
    data[7] = 11;
    assert_eq!(failure(data), DecodeError::NotPng);
    assert_eq!(DecodeError::NotPng.kind(), ErrorKind::MalformedHeader);
    assert_eq!(Parser::parse_png_header(&SIGNATURE), Ok(()));
}

#[test]
fn chunk_framing_errors() {
    // nothing after the signature
    assert_eq!(failure(file(&[])), DecodeError::Truncated);
    // the data ends within the head of a chunk
    assert_eq!(failure(file(&[vec![0, 0, 0, 0, 73, 72]])), DecodeError::Truncated);
    // a chunk that is longer than the data
    let mut cut = file(&[header(1, 1, 8, 2, 0)]);
    cut.pop();
    assert_eq!(failure(cut), DecodeError::ChunkLength);
    assert_eq!(
        failure(file(&[vec![0xff, 0xff, 0xff, 0xff, 73, 72, 68, 82, 0, 0, 0, 0]])),
        DecodeError::ChunkLength
    );
    // no end chunk
    assert_eq!(
        failure(file(&[header(1, 1, 8, 2, 0), image_data(&[0, 1, 2, 3])])),
        DecodeError::Truncated
    );
    assert_eq!(DecodeError::ChunkLength.kind(), ErrorKind::CorruptedChunk);
}

#[test]
fn header_errors() {
    let end = chunk(b"IEND", &[]);
    assert_eq!(failure(file(&[chunk(b"IHDR", &[0; 12]), end.clone()])), DecodeError::ChunkLength);
    assert_eq!(failure(file(&[header(1, 1, 16, 2, 0), end.clone()])), DecodeError::UnsupportedDepth);
    assert_eq!(failure(file(&[header(1, 1, 16, 0, 0), end.clone()])), DecodeError::UnsupportedDepth);
    assert_eq!(failure(file(&[header(1, 1, 4, 2, 0), end.clone()])), DecodeError::UnsupportedDepth);
    assert_eq!(failure(file(&[header(1, 1, 3, 0, 0), end.clone()])), DecodeError::UnsupportedDepth);
    assert_eq!(failure(file(&[header(1, 1, 0, 0, 0), end.clone()])), DecodeError::UnsupportedDepth);
    // the depth is looked at before the colour type, the colour type before
    // the interlace method
    assert_eq!(failure(file(&[header(1, 1, 16, 1, 2), end.clone()])), DecodeError::UnsupportedDepth);
    assert_eq!(
        failure(file(&[header(1, 1, 8, 1, 2), end.clone()])),
        DecodeError::UnsupportedColourType
    );
    assert_eq!(failure(file(&[header(1, 1, 2, 6, 2), end.clone()])), DecodeError::UnsupportedDepth);
    for colour in [1u8, 5, 7, 8, 255] {
        assert_eq!(
            failure(file(&[header(1, 1, 8, colour, 0), end.clone()])),
            DecodeError::UnsupportedColourType
        );
    }
    assert_eq!(
        failure(file(&[header(1, 1, 8, 2, 2), end.clone()])),
        DecodeError::UnsupportedInterlace
    );
    assert_eq!(DecodeError::UnsupportedDepth.kind(), ErrorKind::UnsupportedFeature);
    assert_eq!(DecodeError::UnsupportedColourType.kind(), ErrorKind::UnsupportedFeature);
    assert_eq!(DecodeError::UnsupportedInterlace.kind(), ErrorKind::UnsupportedFeature);
}

#[test]
fn chunk_order_errors() {
    let end = chunk(b"IEND", &[]);
    // image data before the header
    assert_eq!(
        failure(file(&[image_data(&[0, 0, 0, 0]), header(1, 1, 8, 2, 0), end.clone()])),
        DecodeError::ChunkOrder
    );
    assert_eq!(
        failure(file(&[chunk(b"PLTE", &[1, 2, 3]), header(1, 1, 8, 3, 0), end.clone()])),
        DecodeError::ChunkOrder
    );
    assert_eq!(
        failure(file(&[chunk(b"tRNS", &[1, 2]), header(1, 1, 8, 0, 0), end.clone()])),
        DecodeError::ChunkOrder
    );
    // the header twice
    assert_eq!(
        failure(file(&[header(1, 1, 8, 2, 0), header(1, 1, 8, 2, 0), end.clone()])),
        DecodeError::ChunkOrder
    );
    // no header at all
    assert_eq!(failure(file(&[end.clone()])), DecodeError::ChunkOrder);
    assert_eq!(DecodeError::ChunkOrder.kind(), ErrorKind::DecoderState);
}

#[test]
fn palette_errors() {
    let end = chunk(b"IEND", &[]);
    let head = header(2, 1, 8, 3, 0);
    assert_eq!(
        failure(file(&[head.clone(), chunk(b"PLTE", &[1, 2, 3, 4]), end.clone()])),
        DecodeError::PaletteLength
    );
    assert_eq!(DecodeError::PaletteLength.kind(), ErrorKind::CorruptedChunk);
    // an indexed image without a palette
    assert_eq!(
        failure(file(&[head.clone(), image_data(&[0, 0, 0]), end.clone()])),
        DecodeError::MissingPalette
    );
    // a pixel that points behind the palette
    assert_eq!(
        failure(file(&[
            head.clone(),
            chunk(b"PLTE", &[1, 2, 3, 4, 5, 6]),
            image_data(&[0, 1, 2]),
            end.clone()
        ])),
        DecodeError::MissingPalette
    );
    // transparency before the palette
    assert_eq!(
        failure(file(&[head.clone(), chunk(b"tRNS", &[1]), end.clone()])),
        DecodeError::MissingPalette
    );
    // more alpha values than palette entries
    assert_eq!(
        failure(file(&[
            head.clone(),
            chunk(b"PLTE", &[1, 2, 3]),
            chunk(b"tRNS", &[1, 2]),
            end.clone()
        ])),
        DecodeError::ChunkLength
    );
    assert_eq!(DecodeError::MissingPalette.kind(), ErrorKind::DecoderState);
}

#[test]
fn palette_without_transparency_is_opaque() {
    let data = file(&[
        header(3, 1, 8, 3, 0),
        chunk(b"PLTE", &[1, 2, 3, 4, 5, 6]),
        image_data(&[0, 1, 0, 1]),
        chunk(b"IEND", &[]),
    ]);
    assert_eq!(
        decode(data),
        Ok((3, 1, ColourType::Indexed, vec![4, 5, 6, 255, 1, 2, 3, 255, 4, 5, 6, 255]))
    );
}

#[test]
fn indexed_of_depth_two() {
    let data = file(&[
        header(3, 1, 2, 3, 0),
        chunk(b"PLTE", &[10, 11, 12, 20, 21, 22, 30, 31, 32, 40, 41, 42]),
        chunk(b"tRNS", &[0, 9]),
        image_data(&[0, 0b11_00_01_10]),
        chunk(b"IEND", &[]),
    ]);
    assert_eq!(
        decode(data),
        Ok((3, 1, ColourType::Indexed, vec![40, 41, 42, 255, 10, 11, 12, 0, 20, 21, 22, 9]))
    );
}

#[test]
fn transparency_errors() {
    let end = chunk(b"IEND", &[]);
    for colour in [4u8, 6] {
        assert_eq!(
            failure(file(&[header(1, 1, 8, colour, 0), chunk(b"tRNS", &[0, 0]), end.clone()])),
            DecodeError::TransparencyNotAllowed
        );
    }
    assert_eq!(
        failure(file(&[header(1, 1, 8, 0, 0), chunk(b"tRNS", &[0, 0, 0]), end.clone()])),
        DecodeError::ChunkLength
    );
    assert_eq!(
        failure(file(&[header(1, 1, 8, 2, 0), chunk(b"tRNS", &[0, 0]), end.clone()])),
        DecodeError::ChunkLength
    );
    assert_eq!(DecodeError::TransparencyNotAllowed.kind(), ErrorKind::UnsupportedFeature);
}

#[test]
fn grayscale_transparency_becomes_alpha() {
    let data: Vec<u8> = vec![
        137, 80, 78, 71, 13, 10, 26, 10, 0, 0, 0, 13, 73, 72, 68, 82, 0, 0, 0, 3, 0, 0, 0, 1, 8, 0,
        0, 0, 0, 62, 139, 75, 104, 0, 0, 0, 2, 116, 82, 78, 83, 0, 5, 6, 249, 57, 183, 0, 0, 0, 12,
        73, 68, 65, 84, 120, 156, 99, 96, 101, 103, 5, 0, 0, 38, 0, 18, 148, 234, 74, 92, 0, 0, 0,
        0, 73, 69, 78, 68, 174, 66, 96, 130,
    ];
    assert_eq!(
        decode(data),
        Ok((3, 1, ColourType::GrayscaleAlpha, vec![5, 0, 7, 255, 5, 0]))
    );
}

#[test]
fn truecolour_transparency_becomes_alpha() {
    let data: Vec<u8> = vec![
        137, 80, 78, 71, 13, 10, 26, 10, 0, 0, 0, 13, 73, 72, 68, 82, 0, 0, 0, 2, 0, 0, 0, 1, 8, 2,
        0, 0, 0, 123, 64, 232, 221, 0, 0, 0, 6, 116, 82, 78, 83, 0, 1, 0, 2, 0, 3, 201, 75, 171,
        245, 0, 0, 0, 15, 73, 68, 65, 84, 120, 156, 99, 96, 100, 98, 230, 228, 228, 4, 0, 0, 89, 0,
        34, 2, 190, 205, 124, 0, 0, 0, 0, 73, 69, 78, 68, 174, 66, 96, 130,
    ];
    assert_eq!(
        decode(data),
        Ok((2, 1, ColourType::TrueColourAlpha, vec![1, 2, 3, 0, 9, 9, 9, 255]))
    );
    // all three samples have to match
    let near = file(&[
        header(2, 1, 8, 2, 0),
        chunk(b"tRNS", &[0, 1, 0, 2, 0, 3]),
        image_data(&[0, 1, 2, 4, 1, 2, 3]),
        chunk(b"IEND", &[]),
    ]);
    assert_eq!(
        decode(near),
        Ok((2, 1, ColourType::TrueColourAlpha, vec![1, 2, 4, 255, 1, 2, 3, 0]))
    );
}

#[test]
fn grayscale_of_depth_two_and_four() {
    let two: Vec<u8> = vec![
        137, 80, 78, 71, 13, 10, 26, 10, 0, 0, 0, 13, 73, 72, 68, 82, 0, 0, 0, 5, 0, 0, 0, 1, 2, 0,
        0, 0, 0, 121, 37, 35, 142, 0, 0, 0, 11, 73, 68, 65, 84, 120, 156, 99, 144, 62, 0, 0, 0,
        249, 0, 220, 116, 29, 228, 172, 0, 0, 0, 0, 73, 69, 78, 68, 174, 66, 96, 130,
    ];
    assert_eq!(decode(two), Ok((5, 1, ColourType::Grayscale, vec![0, 85, 170, 255, 255])));
    let four: Vec<u8> = vec![
        137, 80, 78, 71, 13, 10, 26, 10, 0, 0, 0, 13, 73, 72, 68, 82, 0, 0, 0, 3, 0, 0, 0, 1, 4, 0,
        0, 0, 0, 251, 123, 166, 105, 0, 0, 0, 11, 73, 68, 65, 84, 120, 156, 99, 224, 111, 0, 0, 0,
        161, 0, 144, 64, 42, 229, 140, 0, 0, 0, 0, 73, 69, 78, 68, 174, 66, 96, 130,
    ];
    assert_eq!(decode(four), Ok((3, 1, ColourType::Grayscale, vec![0, 255, 136])));
}

#[test]
fn images_with_alpha_channel() {
    let grey: Vec<u8> = vec![
        137, 80, 78, 71, 13, 10, 26, 10, 0, 0, 0, 13, 73, 72, 68, 82, 0, 0, 0, 2, 0, 0, 0, 1, 8, 4,
        0, 0, 0, 94, 43, 183, 1, 0, 0, 0, 13, 73, 68, 65, 84, 120, 156, 99, 96, 100, 98, 102, 1, 0,
        0, 25, 0, 11, 231, 90, 70, 164, 0, 0, 0, 0, 73, 69, 78, 68, 174, 66, 96, 130,
    ];
    assert_eq!(decode(grey), Ok((2, 1, ColourType::GrayscaleAlpha, vec![1, 2, 3, 4])));
    // the second row is filtered with Up
    let colour: Vec<u8> = vec![
        137, 80, 78, 71, 13, 10, 26, 10, 0, 0, 0, 13, 73, 72, 68, 82, 0, 0, 0, 1, 0, 0, 0, 2, 8, 6,
        0, 0, 0, 153, 129, 182, 39, 0, 0, 0, 16, 73, 68, 65, 84, 120, 156, 99, 96, 100, 98, 102,
        97, 98, 4, 2, 0, 0, 100, 0, 17, 173, 49, 72, 6, 0, 0, 0, 0, 73, 69, 78, 68, 174, 66, 96,
        130,
    ];
    assert_eq!(
        decode(colour),
        Ok((1, 2, ColourType::TrueColourAlpha, vec![1, 2, 3, 4, 2, 3, 4, 5]))
    );
}

#[test]
fn image_data_in_pieces_between_other_chunks() {
    // gAMA, tEXt, two pieces of image data, and a chunk of an unknown type
    let data: Vec<u8> = vec![
        137, 80, 78, 71, 13, 10, 26, 10, 0, 0, 0, 13, 73, 72, 68, 82, 0, 0, 0, 1, 0, 0, 0, 1, 8, 2,
        0, 0, 0, 144, 119, 83, 222, 0, 0, 0, 4, 103, 65, 77, 65, 0, 0, 177, 143, 11, 252, 97, 5, 0,
        0, 0, 3, 116, 69, 88, 116, 107, 0, 118, 203, 4, 243, 144, 0, 0, 0, 5, 73, 68, 65, 84, 120,
        156, 99, 224, 228, 193, 48, 12, 47, 0, 0, 0, 7, 73, 68, 65, 84, 96, 7, 0, 0, 54, 0, 25,
        155, 104, 150, 155, 0, 0, 0, 2, 122, 122, 122, 122, 63, 63, 27, 69, 221, 21, 0, 0, 0, 0,
        73, 69, 78, 68, 174, 66, 96, 130,
    ];
    assert_eq!(decode(data), Ok((1, 1, ColourType::TrueColour, vec![9, 8, 7])));
}

#[test]
fn ancillary_chunks_are_passed_over() {
    let mut chunks = vec![header(1, 1, 8, 0, 0)];
    for kind in [
        b"tEXt", b"pHYs", b"zTXt", b"gAMA", b"sBIT", b"bKGD", b"cHRM", b"hIST", b"tIME", b"iTXt",
    ] {
        chunks.push(chunk(kind, &[1, 2, 3]));
    }
    chunks.push(image_data(&[0, 77]));
    chunks.push(chunk(b"IEND", &[]));
    assert_eq!(decode(file(&chunks)), Ok((1, 1, ColourType::Grayscale, vec![77])));
}

#[test]
fn data_after_the_end_chunk_is_not_read() {
    let mut data = file(&[header(1, 1, 8, 0, 0), image_data(&[0, 3]), chunk(b"IEND", &[])]);
    data.extend_from_slice(&[1, 2, 3]);
    assert_eq!(decode(data), Ok((1, 1, ColourType::Grayscale, vec![3])));
}

#[test]
fn pixel_data_errors() {
    let end = chunk(b"IEND", &[]);
    // a filter type above 4
    assert_eq!(
        failure(file(&[header(1, 1, 8, 0, 0), image_data(&[5, 0]), end.clone()])),
        DecodeError::BadFilter
    );
    // one row where two are needed
    assert_eq!(
        failure(file(&[header(1, 2, 8, 0, 0), image_data(&[0, 0]), end.clone()])),
        DecodeError::Truncated
    );
    // no image data at all
    assert_eq!(failure(file(&[header(1, 1, 8, 0, 0), end.clone()])), DecodeError::Truncated);
    // image data that is no zlib stream
    assert_eq!(
        failure(file(&[header(1, 1, 8, 0, 0), chunk(b"IDAT", &[1, 2, 3]), end.clone()])),
        DecodeError::HeaderChecksum
    );
    assert_eq!(DecodeError::BadFilter.kind(), ErrorKind::DecoderState);
}

#[test]
fn empty_image() {
    let data = file(&[header(0, 0, 8, 2, 0), image_data(&[]), chunk(b"IEND", &[])]);
    assert_eq!(decode(data), Ok((0, 0, ColourType::TrueColour, vec![])));
}

#[test]
fn interlaced_grayscale() {
    let data: Vec<u8> = vec![
        137, 80, 78, 71, 13, 10, 26, 10, 0, 0, 0, 13, 73, 72, 68, 82, 0, 0, 0, 5, 0, 0, 0, 5, 8, 0,
        0, 0, 1, 223, 3, 73, 175, 0, 0, 0, 44, 73, 68, 65, 84, 120, 156, 99, 96, 96, 96, 97, 208,
        208, 97, 96, 98, 208, 98, 16, 17, 147, 96, 96, 100, 102, 16, 21, 103, 208, 212, 102, 224,
        226, 230, 225, 229, 99, 144, 147, 87, 80, 84, 2, 0, 32, 133, 2, 39, 72, 104, 99, 71, 0, 0,
        0, 0, 73, 69, 78, 68, 174, 66, 96, 130,
    ];
    let expected: Vec<u8> = vec![
        0, 1, 2, 3, 4, 10, 11, 12, 13, 14, 20, 21, 22, 23, 24, 30, 31, 32, 33, 34, 40, 41, 42, 43,
        44,
    ];
    let mut parser = Parser::new();
    assert_eq!(parser.parse(data), Ok(()));
    assert_eq!(parser.interlace(), 1);
    assert_eq!(parser.data(), &expected);
}

#[test]
fn interlaced_bits() {
    let data: Vec<u8> = vec![
        137, 80, 78, 71, 13, 10, 26, 10, 0, 0, 0, 13, 73, 72, 68, 82, 0, 0, 0, 9, 0, 0, 0, 3, 1, 0,
        0, 0, 1, 30, 118, 40, 77, 0, 0, 0, 16, 73, 68, 65, 84, 120, 156, 99, 96, 128, 130, 15, 64,
        248, 191, 1, 0, 11, 237, 3, 96, 86, 131, 30, 198, 0, 0, 0, 0, 73, 69, 78, 68, 174, 66, 96,
        130,
    ];
    let expected: Vec<u8> = vec![
        0, 255, 0, 255, 0, 255, 0, 255, 0, 255, 255, 255, 255, 255, 255, 255, 255, 255, 0, 255, 0,
        255, 0, 255, 0, 255, 0,
    ];
    assert_eq!(decode(data), Ok((9, 3, ColourType::Grayscale, expected)));
}

#[test]
fn parser_can_be_used_again() {
    let mut parser = Parser::new();
    let first = file(&[header(1, 1, 8, 0, 0), image_data(&[0, 3]), chunk(b"IEND", &[])]);
    let second = file(&[header(2, 1, 8, 0, 0), image_data(&[0, 4, 5]), chunk(b"IEND", &[])]);
    assert_eq!(parser.parse(first), Ok(()));
    assert_eq!(parser.data(), &vec![3]);
    assert_eq!(parser.parse(second), Ok(()));
    assert_eq!(parser.width(), 2);
    assert_eq!(parser.data(), &vec![4, 5]);
}

/// The pixels of the test image of 16 by 16 pixels.
fn gradient() -> Vec<u8> {
    let mut out = Vec::new();
    for y in 0..16u32 {
        for x in 0..16u32 {
            out.push((x * 15) as u8);
            out.push((y * 15) as u8);
            out.push(((x ^ y) * 8) as u8);
        }
    }
    out
}

#[test]
fn image_with_all_filters_in_two_pieces() {
    // rows filtered with the five types in turn, compressed into a dynamic
    // block, and cut into two pieces of image data
    let data: Vec<u8> = vec![
        137, 80, 78, 71, 13, 10, 26, 10, 0, 0, 0, 13, 73, 72, 68, 82, 0, 0, 0, 16, 0, 0, 0, 16, 8,
        2, 0, 0, 0, 144, 145, 104, 54, 0, 0, 0, 40, 73, 68, 65, 84, 120, 218, 141, 145, 161, 110,
        132, 96, 16, 132, 231, 122, 21, 235, 126, 36, 138, 32, 42, 48, 36, 200, 95, 32, 16, 21, 36,
        107, 144, 4, 133, 4, 135, 228, 13, 174, 79, 176, 111, 192, 118, 195, 96, 59, 0, 0, 1, 24,
        73, 68, 65, 84, 27, 32, 234, 49, 39, 27, 212, 201, 174, 67, 158, 68, 246, 10, 233, 229,
        122, 189, 182, 151, 76, 38, 147, 73, 86, 124, 59, 0, 96, 64, 30, 156, 16, 110, 12, 159, 17,
        20, 136, 106, 216, 22, 201, 14, 169, 32, 235, 144, 247, 40, 7, 84, 35, 26, 69, 187, 129,
        33, 131, 217, 192, 189, 211, 31, 78, 7, 48, 46, 204, 4, 51, 223, 147, 183, 240, 28, 162,
        153, 8, 139, 251, 255, 230, 199, 207, 107, 56, 0, 45, 218, 127, 133, 85, 55, 123, 14, 12,
        251, 30, 219, 144, 163, 152, 137, 25, 5, 187, 53, 59, 45, 87, 59, 46, 133, 219, 142, 155,
        158, 211, 129, 147, 145, 115, 229, 108, 131, 34, 58, 125, 201, 96, 250, 225, 213, 205, 126,
        133, 158, 239, 247, 45, 158, 159, 136, 78, 220, 238, 66, 22, 16, 69, 68, 150, 40, 33, 122,
        33, 122, 35, 58, 16, 189, 19, 77, 68, 199, 149, 123, 133, 158, 23, 190, 43, 255, 173, 151,
        204, 72, 238, 73, 18, 74, 26, 75, 195, 210, 22, 82, 214, 82, 181, 226, 236, 196, 21, 65,
        39, 212, 75, 52, 136, 29, 197, 87, 9, 54, 232, 242, 101, 197, 85, 246, 34, 191, 222, 236,
        207, 75, 7, 48, 22, 102, 15, 115, 248, 190, 238, 117, 191, 69, 109, 23, 154, 117, 239, 227,
        191, 249, 188, 244, 116, 177, 238, 223, 89, 91, 163, 141, 167, 85, 168, 101, 172, 57, 107,
        86, 104, 90, 107, 210, 170, 221, 105, 36, 26, 116, 234, 247, 234, 14, 234, 140, 74, 170,
        248, 0, 21, 216, 174, 52, 75, 70, 22, 235, 0, 0, 0, 0, 73, 69, 78, 68, 174, 66, 96, 130,
    ];
    assert_eq!(decode(data), Ok((16, 16, ColourType::TrueColour, gradient())));
}

#[test]
fn interlaced_image_with_all_filters() {
    let data: Vec<u8> = vec![
        137, 80, 78, 71, 13, 10, 26, 10, 0, 0, 0, 13, 73, 72, 68, 82, 0, 0, 0, 16, 0, 0, 0, 16, 8,
        2, 0, 0, 1, 231, 150, 88, 160, 0, 0, 1, 75, 73, 68, 65, 84, 120, 218, 141, 80, 49, 110,
        194, 64, 16, 28, 56, 23, 215, 173, 11, 10, 170, 149, 139, 40, 114, 131, 68, 233, 98, 11,
        151, 72, 52, 148, 136, 138, 18, 119, 164, 187, 31, 236, 15, 168, 211, 240, 3, 30, 16, 137,
        15, 32, 148, 7, 128, 148, 34, 165, 139, 20, 148, 57, 223, 41, 96, 1, 73, 144, 70, 163, 185,
        181, 111, 230, 102, 19, 0, 14, 165, 129, 43, 69, 222, 18, 65, 214, 156, 216, 77, 154, 19,
        36, 19, 28, 4, 115, 207, 6, 171, 9, 75, 202, 178, 243, 72, 24, 169, 255, 53, 194, 144, 228,
        204, 7, 230, 210, 115, 215, 223, 129, 204, 33, 175, 144, 67, 135, 55, 203, 96, 208, 32, 1,
        167, 140, 154, 49, 188, 98, 131, 113, 78, 108, 137, 63, 3, 70, 103, 29, 189, 162, 93, 116,
        108, 76, 27, 95, 236, 151, 225, 250, 53, 18, 130, 245, 79, 187, 133, 177, 220, 35, 170,
        137, 178, 43, 238, 250, 87, 129, 135, 224, 29, 184, 110, 235, 14, 205, 138, 150, 245, 37,
        15, 228, 70, 3, 55, 29, 187, 69, 229, 156, 58, 187, 118, 253, 173, 203, 143, 174, 104, 10,
        194, 127, 71, 22, 248, 162, 141, 173, 36, 164, 237, 136, 240, 147, 220, 232, 24, 94, 223,
        114, 2, 178, 132, 19, 161, 255, 32, 27, 60, 247, 44, 37, 150, 190, 2, 158, 254, 213, 49,
        58, 214, 141, 141, 227, 2, 234, 223, 230, 29, 84, 69, 136, 187, 133, 187, 59, 7, 116, 68,
        90, 178, 78, 7, 58, 17, 93, 140, 117, 62, 83, 87, 233, 210, 169, 85, 197, 74, 251, 107, 77,
        55, 154, 111, 53, 219, 107, 113, 212, 97, 220, 223, 41, 172, 205, 115, 222, 210, 247, 231,
        6, 47, 18, 10, 249, 90, 190, 253, 187, 165, 143, 86, 215, 59, 243, 115, 233, 118, 209, 191,
        244, 55, 11, 153, 186, 205, 61, 124, 161, 11, 0, 0, 0, 0, 73, 69, 78, 68, 174, 66, 96, 130,
    ];
    assert_eq!(decode(data), Ok((16, 16, ColourType::TrueColour, gradient())));
}
