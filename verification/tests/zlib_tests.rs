use image_decoder::bits::BitBuffer;
use image_decoder::canonical::{build_huffman_codes, build_huffman_tree};
use image_decoder::error::{DecodeError, ErrorKind};
use image_decoder::huffman::HuffmanTree;
use image_decoder::zlib;

#[test]
fn test_huffman_tree() {
    let mut tree = HuffmanTree::new();
    tree.insert(6, 8, 100);
    tree.insert(5, 8, 3);
    tree.insert(16, 8, 5);
    let data: Vec<u8> = vec![6, 5, 16];
    let mut buffer = BitBuffer::new(&data);

    assert_eq!(tree.find(&mut buffer), Some(100));
    assert_eq!(tree.find(&mut buffer), Some(3));
    assert_eq!(tree.find(&mut buffer), Some(5));
}

#[test]
fn test_huffman() {
    /* Note, values defined by the DEFLATE spec */
    let bit_lengths = vec![3, 3, 3, 3, 3, 2, 4, 4];
    let mut hf_codes = build_huffman_codes(&bit_lengths, false).unwrap();
    let target = vec![2, 3, 4, 5, 6, 0, 14, 15];

    hf_codes.sort_unstable_by(|a, b| a.2.cmp(&b.2));
    for i in 0..hf_codes.len() {
        assert_eq!(hf_codes[i].1, target[i]);
    }
}

#[test]
fn bitbuffer_even() {
    let b: Vec<u8> = vec![0b10101010, 0b11001100, 0b11101110];
    let mut buffer = BitBuffer::new(&b);

    assert_eq!(buffer.get_n_bits(2), 2);
    assert_eq!(buffer.get_n_bits(2), 2);
    assert_eq!(buffer.get_n_bits(2), 2);
    assert_eq!(buffer.get_n_bits(2), 2);
    assert_eq!(buffer.get_n_bits(4), 12);
    assert_eq!(buffer.get_n_bits(4), 12);
    assert_eq!(buffer.get_n_bits(6), 46);
    assert_eq!(buffer.get_n_bits(2), 3);
}

#[test]
fn bitbuffer_uneven() {
    let b: Vec<u8> = vec![0b10101010, 0b11101110];
    let mut buffer = BitBuffer::new(&b);

    assert_eq!(buffer.get_n_bits(4), 10);
    assert_eq!(buffer.get_n_bits(5), 10);
    assert_eq!(buffer.get_n_bits(7), 119);
}

#[test]
fn bitbuffer_reads_zeros_past_the_end() {
    let b: Vec<u8> = vec![0xff];
    let mut buffer = BitBuffer::new(&b);
    assert_eq!(buffer.get_n_bits(4), 15);
    assert!(!buffer.is_exhausted());
    assert_eq!(buffer.get_n_bits(8), 15);
    assert!(buffer.is_exhausted());
    assert_eq!(buffer.get_n_bits(16), 0);
}

#[test]
fn bitbuffer_msb_first_order() {
    let b: Vec<u8> = vec![0b1011_0001, 0b0100_0000];
    let mut buffer = BitBuffer::new_msb_first(&b);
    assert_eq!(buffer.get_n_bits(3), 0b101);
    assert_eq!(buffer.get_n_bits(5), 0b10001);
    assert_eq!(buffer.get_n_bits(2), 0b01);
}

#[test]
fn bitbuffer_reset_skips_to_byte_boundary() {
    let b: Vec<u8> = vec![0xff, 0x12, 0x34];
    let mut buffer = BitBuffer::new(&b);
    assert_eq!(buffer.get_n_bits(3), 7);
    buffer.reset();
    assert_eq!(buffer.get_n_bits(8), 0x12);
    buffer.reset();
    assert_eq!(buffer.get_n_bits(8), 0x34);
}

#[test]
fn bitbuffer_consumes_sum_of_widths() {
    let b: Vec<u8> = vec![0x5a, 0xc3, 0x99, 0x0f];
    let mut buffer = BitBuffer::new(&b);
    let widths = [3u32, 5, 7, 1, 9];
    let mut total = 0usize;
    let mut whole: u64 = 0x0f99c35a;
    for w in widths.iter() {
        let got = buffer.get_n_bits(*w) as u64;
        assert_eq!(got, whole & ((1u64 << *w) - 1));
        whole >>= *w;
        total += *w as usize;
    }
    assert_eq!(total, 25);
    assert!(buffer.has_bits(7));
    assert!(!buffer.has_bits(8));
}

#[test]
fn insert_refuses_clashing_codes() {
    let mut tree = HuffmanTree::new();
    assert!(tree.insert(0b0, 1, 1));
    assert!(!tree.insert(0b0, 1, 2));
    assert!(!tree.insert(0b10, 2, 3));
    assert!(tree.insert(0b01, 2, 4));
    assert!(!tree.insert(0b1, 1, 5));
    assert!(!tree.insert(0, 0, 6));
    assert!(!tree.insert(0, 17, 7));
    let data: Vec<u8> = vec![0b0000_0100];
    let mut buffer = BitBuffer::new(&data);
    assert_eq!(tree.find(&mut buffer), Some(1));
    assert_eq!(tree.find(&mut buffer), Some(1));
    assert_eq!(tree.find(&mut buffer), Some(4));
}

#[test]
fn find_without_match_consumes_nothing() {
    let mut tree = HuffmanTree::new();
    assert!(tree.insert(0b11, 2, 9));
    let data: Vec<u8> = vec![0b0000_1110];
    let mut buffer = BitBuffer::new(&data);
    assert_eq!(tree.find(&mut buffer), None);
    assert_eq!(buffer.get_n_bits(1), 0);
    assert_eq!(tree.find(&mut buffer), Some(9));
}

#[test]
fn canonical_codes_round_trip() {
    let bit_lengths = vec![3, 3, 3, 3, 3, 2, 4, 4];
    let codes = build_huffman_codes(&bit_lengths, true).unwrap();
    let tree = build_huffman_tree(&codes).unwrap();
    let plain = build_huffman_codes(&bit_lengths, false).unwrap();
    for (len, code, symbol) in plain {
        // the code, most significant bit first, at the start of a stream
        let mut byte: u8 = 0;
        for k in 0..len {
            let bit = (code >> (len - 1 - k)) & 1;
            byte |= (bit as u8) << k;
        }
        let data = vec![byte];
        let mut buffer = BitBuffer::new(&data);
        assert_eq!(tree.find(&mut buffer), Some(symbol));
        assert!(buffer.has_bits(8 - len));
        assert!(!buffer.has_bits(9 - len));
    }
}

#[test]
fn oversubscribed_lengths_are_refused() {
    assert_eq!(build_huffman_codes(&vec![1, 1, 1], true), Err(DecodeError::BadCodeLengths));
    assert_eq!(build_huffman_codes(&vec![17], true), Err(DecodeError::BadCodeLengths));
    assert!(build_huffman_codes(&vec![0, 0, 1], true).is_ok());
}

#[test]
fn clashing_code_list_is_refused() {
    let codes = vec![(1, 0, 7), (2, 0, 8)];
    assert!(build_huffman_tree(&codes).is_err());
    let codes = vec![(0, 0, 7)];
    assert!(build_huffman_tree(&codes).is_err());
}

#[test]
fn inflate_fixed_block() {
    let data: Vec<u8> = vec![120, 218, 203, 72, 205, 201, 201, 7, 0, 6, 44, 2, 21];
    assert_eq!(zlib::parse(&data), Ok(b"hello".to_vec()));
}

#[test]
fn inflate_stored_block() {
    let data: Vec<u8> = vec![120, 1, 1, 5, 0, 250, 255, 104, 101, 108, 108, 111, 6, 44, 2, 21];
    assert_eq!(zlib::parse(&data), Ok(b"hello".to_vec()));
}

#[test]
fn inflate_dynamic_block() {
    let data: Vec<u8> = vec![120, 218, 173, 143, 139, 13, 69, 33, 12, 66, 103, 45, 5, 202, 254, 19, 92, 124, 51, 60, 163, 137, 70, 62, 167, 11, 33, 201, 17, 153, 187, 137, 8, 79, 215, 241, 134, 9, 77, 70, 115, 88, 193, 71, 41, 213, 240, 110, 109, 4, 123, 206, 100, 116, 187, 28, 242, 236, 167, 221, 90, 99, 94, 124, 158, 10, 184, 11, 13, 240, 148, 20, 214, 61, 171, 109, 150, 19, 212, 253, 130, 161, 87, 88, 243, 108, 97, 210, 155, 111, 212, 88, 1, 210, 158, 118, 202, 179, 229, 50, 88, 1, 78, 25, 159, 102, 233, 253, 5, 148, 133, 152, 70, 47, 101, 185, 128, 170, 161, 211, 28, 202, 103, 28, 136, 126, 32, 106, 231, 76, 223, 15, 121, 145, 229, 226, 238, 225, 128, 111, 118, 57, 45, 7, 156, 151, 224, 66, 136, 109, 213, 11, 255, 215, 254, 0, 9, 64, 146, 110];
    let expected: Vec<u8> = vec![99, 98, 101, 98, 104, 104, 104, 103, 100, 98, 104, 97, 103, 103, 97, 104, 101, 100, 98, 102, 97, 97, 97, 97, 103, 100, 103, 97, 100, 104, 104, 100, 102, 100, 100, 104, 101, 97, 103, 98, 99, 101, 98, 102, 103, 100, 101, 101, 104, 103, 97, 104, 100, 103, 103, 99, 102, 102, 98, 104, 98, 99, 103, 102, 104, 97, 104, 97, 101, 103, 99, 99, 100, 97, 100, 100, 103, 102, 102, 104, 101, 97, 103, 99, 100, 103, 97, 104, 102, 100, 103, 104, 102, 103, 102, 97, 102, 104, 97, 100, 99, 99, 98, 101, 97, 98, 98, 97, 104, 97, 101, 100, 101, 98, 99, 102, 101, 98, 99, 99, 101, 99, 101, 101, 104, 102, 104, 104, 98, 97, 101, 103, 102, 103, 100, 101, 98, 101, 100, 103, 97, 100, 97, 103, 99, 97, 99, 104, 103, 100, 104, 100, 97, 103, 102, 103, 97, 101, 99, 100, 97, 101, 98, 98, 101, 101, 99, 103, 101, 99, 97, 97, 100, 104, 99, 97, 103, 100, 102, 98, 100, 103, 100, 104, 98, 103, 101, 104, 97, 102, 103, 101, 97, 99, 100, 102, 99, 102, 103, 100, 101, 98, 103, 102, 104, 100, 98, 97, 98, 99, 99, 99, 100, 101, 102, 101, 102, 102, 102, 98, 101, 100, 104, 99, 98, 102, 97, 103, 98, 103, 99, 99, 102, 98, 103, 98, 100, 98, 101, 102, 101, 98, 104, 101, 98, 97, 101, 97, 97, 98, 103, 98, 97, 100, 100, 103, 99, 98, 104, 99, 100, 99, 98, 103, 103, 101, 101, 104, 102, 98, 100, 102, 97, 97, 97, 101, 102, 104, 103, 102, 103, 98, 98, 102, 104, 98, 101, 100, 104, 102, 101, 99, 100, 101, 100, 100, 102, 98, 101, 98, 97, 98, 99, 97, 98, 99, 97, 98, 99, 97, 98, 99, 97, 98, 99, 97, 98, 99, 97, 98, 99, 97, 98, 99, 97, 98, 99, 97, 98, 99, 97, 98, 99, 97, 98, 99, 97, 98, 99, 97, 98, 99, 97, 98, 99, 97, 98, 99, 97, 98, 99, 97, 98, 99, 97, 98, 99, 97, 98, 99, 97, 98, 99, 97, 98, 99, 97, 98, 99, 97, 98, 99, 97, 98, 99];
    assert_eq!((data[2] >> 1) & 3, 2);
    assert_eq!(zlib::parse(&data), Ok(expected));
}

#[test]
fn zlib_header_errors() {
    assert_eq!(zlib::parse(&[120]), Err(DecodeError::Truncated));
    assert_eq!(zlib::parse(&[120, 219, 0]), Err(DecodeError::HeaderChecksum));
    // method 7, checksum right
    assert_eq!(zlib::parse(&[0x77, 9, 0]), Err(DecodeError::NotDeflate));
    // FDICT set, checksum right
    assert_eq!(zlib::parse(&[0x78, 0xbb, 0]), Err(DecodeError::PresetDictionary));
    assert_eq!(DecodeError::HeaderChecksum.kind(), ErrorKind::MalformedHeader);
    assert_eq!(DecodeError::NotDeflate.kind(), ErrorKind::MalformedHeader);
    assert_eq!(DecodeError::PresetDictionary.kind(), ErrorKind::MalformedHeader);
}

#[test]
fn deflate_block_errors() {
    // no block at all
    assert_eq!(zlib::parse(&[120, 218]), Err(DecodeError::Truncated));
    // reserved block type
    assert_eq!(zlib::parse(&[120, 218, 0b0000_0111]), Err(DecodeError::ReservedBlockType));
    assert_eq!(DecodeError::ReservedBlockType.kind(), ErrorKind::CorruptedChunk);
    // stored block whose lengths do not match
    assert_eq!(zlib::parse(&[120, 1, 1, 5, 0, 250, 254, 1, 2, 3, 4, 5]), Err(DecodeError::StoredLength));
    // stored block cut short
    assert_eq!(zlib::parse(&[120, 1, 1, 5, 0, 250, 255, 104, 101]), Err(DecodeError::Truncated));
    // fixed block that ends before its end-of-block symbol
    assert_eq!(zlib::parse(&[120, 218, 203, 72]), Err(DecodeError::Truncated));
    assert_eq!(DecodeError::Truncated.kind(), ErrorKind::Truncation);
}

#[test]
fn error_messages() {
    assert_eq!(DecodeError::NotPng.message(), "Not a PNG file".to_string());
    assert_eq!(DecodeError::CrcMismatch.message(), "Corrupted data".to_string());
    assert_eq!(DecodeError::Truncated.message(), "Not enough data".to_string());
    assert_eq!(DecodeError::NoCode.message(), "Failed to find a code".to_string());
}

#[test]
fn dynamic_block_with_back_reference() {
    // literals A, B, C, then a match of length 5 at distance 3
    let data: Vec<u8> = vec![
        120, 156, 29, 195, 1, 9, 0, 0, 0, 131, 176, 108, 106, 255, 78, 135, 195, 134, 221, 0, 9,
        74, 2, 16,
    ];
    assert_eq!((data[2] >> 1) & 3, 2);
    assert_eq!(zlib::parse(&data), Ok(b"ABCABCAB".to_vec()));
}

#[test]
fn literal_and_match_at_distance_one_repeat_the_literal() {
    // 'a', then a match of length 10 at distance 1
    let data: Vec<u8> = vec![120, 156, 75, 68, 0, 0];
    assert_eq!(zlib::parse(&data), Ok(vec![b'a'; 11]));
    let packed: Vec<u8> = vec![120, 156, 75, 76, 132, 1, 0, 20, 225, 3, 203];
    assert_eq!(zlib::parse(&packed), Ok(vec![b'a'; 10]));
}

#[test]
fn match_at_distance_two_alternates() {
    // 'a', 'b', then a match of length 5 at distance 2
    let data: Vec<u8> = vec![120, 156, 75, 76, 2, 67, 0];
    assert_eq!(zlib::parse(&data), Ok(b"abababa".to_vec()));
    let packed: Vec<u8> = vec![120, 156, 75, 76, 74, 132, 67, 0, 29, 190, 4, 147];
    assert_eq!(zlib::parse(&packed), Ok(b"abababababab".to_vec()));
}

#[test]
fn copy_match_runs_into_its_own_output() {
    let mut out: Vec<u8> = vec![1, 2, 3];
    zlib::copy_match(&mut out, 2, 5);
    assert_eq!(out, vec![1, 2, 3, 2, 3, 2, 3, 2]);
    zlib::copy_match(&mut out, 1, 0);
    assert_eq!(out.len(), 8);
}

#[test]
fn match_with_extra_bits() {
    // "abcdef", then length symbol 265 with extra bit 1 (12) and distance
    // symbol 4 with extra bit 1 (6)
    let data: Vec<u8> = vec![120, 156, 75, 76, 74, 78, 73, 77, 67, 38, 1];
    assert_eq!(zlib::parse(&data), Ok(b"abcdefabcdefabcdef".to_vec()));
}

#[test]
fn stored_block_followed_by_fixed_block() {
    let data: Vec<u8> = vec![120, 156, 0, 3, 0, 252, 255, 120, 121, 122, 83, 4, 0];
    assert_eq!(zlib::parse(&data), Ok(b"xyz!".to_vec()));
}

#[test]
fn bad_symbols_and_distances() {
    // distance symbol 30
    assert_eq!(zlib::parse(&[120, 156, 75, 4, 62, 0]), Err(DecodeError::BadDistance));
    // distance 2 after a single byte of output
    assert_eq!(zlib::parse(&[120, 156, 75, 4, 66, 0]), Err(DecodeError::DistanceTooFar));
    // literal/length symbol 286
    assert_eq!(zlib::parse(&[120, 156, 75, 28, 3, 0]), Err(DecodeError::BadSymbol));
    assert_eq!(DecodeError::BadDistance.kind(), ErrorKind::DecoderState);
    assert_eq!(DecodeError::DistanceTooFar.kind(), ErrorKind::DecoderState);
    assert_eq!(DecodeError::BadSymbol.kind(), ErrorKind::DecoderState);
    assert_eq!(DecodeError::NoCode.kind(), ErrorKind::DecoderState);
}

#[test]
fn distance_table_of_one_code() {
    // the only distance code is the bit 0
    let data: Vec<u8> = vec![
        120, 156, 29, 194, 1, 9, 0, 0, 0, 131, 176, 108, 106, 255, 78, 135, 195, 176, 27,
    ];
    assert_eq!(zlib::parse(&data), Ok(b"ABCABCAB".to_vec()));
    // the same block with the bit 1 where the distance is to come
    let data: Vec<u8> = vec![
        120, 156, 29, 194, 1, 9, 0, 0, 0, 131, 176, 108, 106, 255, 78, 135, 195, 176, 31,
    ];
    assert_eq!(zlib::parse(&data), Err(DecodeError::NoCode));
}

#[test]
fn literal_table_with_a_gap() {
    // codes 00 and 01 only; after the first literal the stream goes on with 11
    let data: Vec<u8> = vec![
        120, 156, 5, 192, 1, 4, 0, 0, 0, 128, 32, 0, 0, 0, 0, 0, 0, 0, 0, 3, 0, 0, 0, 0, 0, 0, 0,
        0, 0, 0, 0, 0, 0, 0, 0, 0, 0, 0, 0, 0, 0, 0, 0, 199,
    ];
    assert_eq!(zlib::parse(&data), Err(DecodeError::NoCode));
}

#[test]
fn code_lengths_that_ask_for_too_many_codes() {
    // three code-length codes of one bit
    assert_eq!(
        zlib::parse(&[120, 156, 5, 0, 146, 0, 0, 0, 0, 0]),
        Err(DecodeError::BadCodeLengths)
    );
    // three literals of one bit
    let data: Vec<u8> = vec![
        120, 156, 5, 192, 1, 4, 0, 0, 0, 0, 144, 3, 0, 0, 0, 0, 0, 0, 0, 0, 0, 0, 0, 0, 0, 0, 0, 0,
        0, 0, 0, 0, 0, 0, 0, 0, 0, 0, 0, 0, 0, 0, 0, 1,
    ];
    assert_eq!(zlib::parse(&data), Err(DecodeError::BadCodeLengths));
    assert_eq!(DecodeError::BadCodeLengths.kind(), ErrorKind::DecoderState);
}

#[test]
fn repeats_of_code_lengths_out_of_place() {
    // a repeat of the length before, with no length before
    assert_eq!(zlib::parse(&[120, 156, 5, 0, 2, 36, 0, 0, 0, 0]), Err(DecodeError::BadSymbol));
    // two runs of 138 zeros where 258 lengths are asked for
    assert_eq!(
        zlib::parse(&[120, 156, 5, 0, 128, 228, 255, 31, 0, 0, 0, 0]),
        Err(DecodeError::BadSymbol)
    );
}

#[test]
fn dynamic_block_that_ends_in_its_header() {
    assert_eq!(zlib::parse(&[120, 156, 5]), Err(DecodeError::NoCode));
}

#[test]
fn every_failure_has_a_kind_and_a_reason() {
    let all = [
        (DecodeError::NotPng, ErrorKind::MalformedHeader),
        (DecodeError::NotJpeg, ErrorKind::MalformedHeader),
        (DecodeError::HeaderChecksum, ErrorKind::MalformedHeader),
        (DecodeError::NotDeflate, ErrorKind::MalformedHeader),
        (DecodeError::PresetDictionary, ErrorKind::MalformedHeader),
        (DecodeError::CrcMismatch, ErrorKind::CorruptedChunk),
        (DecodeError::ChunkLength, ErrorKind::CorruptedChunk),
        (DecodeError::PaletteLength, ErrorKind::CorruptedChunk),
        (DecodeError::ReservedBlockType, ErrorKind::CorruptedChunk),
        (DecodeError::StoredLength, ErrorKind::CorruptedChunk),
        (DecodeError::BadTable, ErrorKind::CorruptedChunk),
        (DecodeError::UnsupportedDepth, ErrorKind::UnsupportedFeature),
        (DecodeError::UnsupportedColourType, ErrorKind::UnsupportedFeature),
        (DecodeError::UnsupportedInterlace, ErrorKind::UnsupportedFeature),
        (DecodeError::TransparencyNotAllowed, ErrorKind::UnsupportedFeature),
        (DecodeError::UnsupportedMarker, ErrorKind::UnsupportedFeature),
        (DecodeError::NoCode, ErrorKind::DecoderState),
        (DecodeError::BadSymbol, ErrorKind::DecoderState),
        (DecodeError::BadDistance, ErrorKind::DecoderState),
        (DecodeError::DistanceTooFar, ErrorKind::DecoderState),
        (DecodeError::BadCodeLengths, ErrorKind::DecoderState),
        (DecodeError::BadFilter, ErrorKind::DecoderState),
        (DecodeError::ChunkOrder, ErrorKind::DecoderState),
        (DecodeError::MissingPalette, ErrorKind::DecoderState),
        (DecodeError::MissingFrame, ErrorKind::DecoderState),
        (DecodeError::Truncated, ErrorKind::Truncation),
    ];
    for (e, kind) in all {
        assert_eq!(e.kind(), kind);
        assert!(!e.message().is_empty());
    }
    assert_eq!(DecodeError::HeaderChecksum.message(), "Error in bitstream header");
    assert_eq!(DecodeError::ReservedBlockType.message(), "Invalid header in zlib stream");
    assert_eq!(DecodeError::BadFilter.message(), "Corrupted data: unknown filter type");
    assert_eq!(DecodeError::MissingPalette.message(), "Missing PLTE chunk");
    assert_eq!(DecodeError::BadTable.message(), "Badly formed JPEG");
}
