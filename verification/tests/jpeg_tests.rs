use image_decoder::bits::BitBuffer;
use image_decoder::error::{DecodeError, ErrorKind};
use image_decoder::jpeg::{
    assign_tables, build_table, extend_receive, gen_huffman_table, get_chunk_type, is_jpeg,
    marker_of, read_quant_table, Component, Marker, Parser, ParsingMode, DEZIGZAG, ZIGZAG,
};

fn segment(marker: u8, payload: &[u8]) -> Vec<u8> {
    let mut out = vec![0xff, marker];
    out.extend_from_slice(&((payload.len() + 2) as u16).to_be_bytes());
    out.extend_from_slice(payload);
    out
}

fn stream(segments: &[Vec<u8>]) -> Vec<u8> {
    let mut out = vec![0xff, 0xd8];
    for s in segments {
        out.extend_from_slice(s);
    }
    out
}

/// The counts and values of the table that the standard proposes for the DC
/// coefficients of luminance.
fn dc_counts() -> Vec<u8> {
    vec![0, 1, 5, 1, 1, 1, 1, 1, 1, 0, 0, 0, 0, 0, 0, 0]
}

fn dc_values() -> Vec<u8> {
    (0..12).collect()
}

fn dht(class_and_place: u8, counts: &[u8], values: &[u8]) -> Vec<u8> {
    let mut payload = vec![class_and_place];
    payload.extend_from_slice(counts);
    payload.extend_from_slice(values);
    segment(0xc4, &payload)
}

fn frame() -> Vec<u8> {
    segment(0xc0, &[8, 0, 16, 0, 32, 3, 1, 0x22, 0, 2, 0x11, 1, 3, 0x11, 1])
}

fn scan() -> Vec<u8> {
    segment(0xda, &[3, 1, 0x00, 2, 0x11, 3, 0x12, 0, 63, 0x21])
}

fn failure(data: Vec<u8>) -> DecodeError {
    Parser::new().parse(data).unwrap_err()
}

#[test]
fn new_jpeg_parser_is_empty() {
    let parser = Parser::new();
    assert_eq!(parser.width(), 0);
    assert_eq!(parser.height(), 0);
    assert_eq!(parser.depth(), 0);
    assert_eq!(parser.num_components(), 0);
    assert_eq!(parser.parsing_mode(), ParsingMode::Invalid);
    assert!(parser.components().is_empty());
    for i in 0..4 {
        assert_eq!(parser.quant_table(i), &vec![0u16; 64]);
        let data = [0u8; 4];
        let mut reader = BitBuffer::new_msb_first(&data);
        assert_eq!(parser.dc_table(i).find(&mut reader), None);
        assert_eq!(parser.ac_table(i).find(&mut reader), None);
    }
}

#[test]
fn component_starts_without_tables() {
    let c = Component::new(7, 2, 1, 3);
    assert_eq!(
        c,
        Component {
            identifier: 7,
            sampling_hor: 2,
            sampling_ver: 1,
            quant_table: 3,
            dc_table: 0,
            ac_table: 0
        }
    );
}

#[test]
fn start_of_image() {
    assert_eq!(is_jpeg(&[0xff, 0xd8]), Ok(()));
    assert_eq!(is_jpeg(&[0xff, 0xd8, 1, 2]), Ok(()));
    assert_eq!(is_jpeg(&[]), Err(DecodeError::Truncated));
    assert_eq!(is_jpeg(&[0xff]), Err(DecodeError::Truncated));
    assert_eq!(is_jpeg(&[0xfe]), Err(DecodeError::NotJpeg));
    assert_eq!(is_jpeg(&[0xff, 0xd9]), Err(DecodeError::NotJpeg));
    assert_eq!(is_jpeg(&[137, 80, 78, 71]), Err(DecodeError::NotJpeg));
    assert_eq!(DecodeError::NotJpeg.kind(), ErrorKind::MalformedHeader);
}

#[test]
fn markers() {
    assert_eq!(marker_of(0xffc0), Marker::SOF0);
    assert_eq!(marker_of(0xffc4), Marker::DHT);
    assert_eq!(marker_of(0xffda), Marker::SOS);
    assert_eq!(marker_of(0xffdb), Marker::DQT);
    assert_eq!(marker_of(0xffe0), Marker::APP0);
    assert_eq!(marker_of(0xffe1), Marker::APP1);
    assert_eq!(marker_of(0xffe2), Marker::APP2);
    for m in 0xffe3..=0xffefu16 {
        assert_eq!(marker_of(m), Marker::AppOther);
    }
    for m in [0u16, 0xffc1, 0xffc2, 0xffd8, 0xffd9, 0xfff0, 0xffdf, 0xfffe, 0x00c0] {
        assert_eq!(marker_of(m), Marker::Unknown);
    }
    assert_eq!(get_chunk_type(&[0, 0xff, 0xdb], 1), Ok(Marker::DQT));
    assert_eq!(get_chunk_type(&[0, 0xff, 0xdb], 2), Err(DecodeError::Truncated));
    assert_eq!(get_chunk_type(&[0xff, 0xc2], 0), Err(DecodeError::UnsupportedMarker));
}

#[test]
fn zigzag_tables_undo_each_other() {
    for i in 0..64 {
        assert_eq!(ZIGZAG[DEZIGZAG[i]], i);
        assert_eq!(DEZIGZAG[ZIGZAG[i]], i);
    }
    // the sequence runs along the anti-diagonals
    assert_eq!(&DEZIGZAG[..10], &[0, 1, 8, 16, 9, 2, 3, 10, 17, 24]);
    assert_eq!(DEZIGZAG[63], 63);
}

#[test]
fn quantisation_values_go_to_their_entries() {
    let bytes: Vec<u8> = (100..164).collect();
    let table = read_quant_table(&bytes, 0, false);
    assert_eq!(table.len(), 64);
    for i in 0..64 {
        assert_eq!(table[DEZIGZAG[i]], 100 + i as u16);
    }
    assert_eq!(table[8], 102);
    let mut wide = vec![9u8];
    for i in 0..64u16 {
        wide.extend_from_slice(&(i * 1000).to_be_bytes());
    }
    let table = read_quant_table(&wide, 1, true);
    for i in 0..64 {
        assert_eq!(table[DEZIGZAG[i]], i as u16 * 1000);
    }
}

#[test]
fn code_sizes_follow_the_counts() {
    assert_eq!(
        gen_huffman_table(&dc_counts()),
        vec![2, 3, 3, 3, 3, 3, 4, 5, 6, 7, 8, 9]
    );
    assert_eq!(gen_huffman_table(&vec![0; 16]), Vec::<u32>::new());
    let mut counts = vec![0u8; 16];
    counts[15] = 255;
    counts[0] = 1;
    let sizes = gen_huffman_table(&counts);
    assert_eq!(sizes.len(), 256);
    assert_eq!(sizes[0], 1);
    assert_eq!(sizes[1], 16);
    assert_eq!(gen_huffman_table(&vec![255; 16]).len(), 4080);
}

#[test]
fn huffman_table_decodes_its_codes() {
    let tree = build_table(&dc_counts(), &dc_values()).unwrap();
    // 00, 010, 011, 100, 101, 110, 1110, 11110, 111110: the categories 0 to 8
    let data = [0b0001_0011, 0b1001_0111, 0b0111_0111, 0b1011_1110];
    let mut reader = BitBuffer::new_msb_first(&data);
    for expected in 0..9 {
        assert_eq!(tree.find(&mut reader), Some(expected));
    }
    // values stand for the symbols in their order
    let tree = build_table(&dc_counts(), &(100..112).collect()).unwrap();
    let data = [0b1111_1111, 0b0000_0000];
    let mut reader = BitBuffer::new_msb_first(&data);
    assert_eq!(tree.find(&mut reader), Some(111));
    assert_eq!(tree.find(&mut reader), Some(100));
}

#[test]
fn huffman_table_with_too_many_codes_is_refused() {
    let mut counts = vec![0u8; 16];
    counts[0] = 3;
    assert_eq!(build_table(&counts, &vec![1, 2, 3]).err(), Some(DecodeError::BadTable));
    counts[0] = 2;
    counts[1] = 1;
    assert_eq!(build_table(&counts, &vec![1, 2, 3]).err(), Some(DecodeError::BadTable));
    counts[1] = 0;
    assert!(build_table(&counts, &vec![1, 2]).is_ok());
    assert!(build_table(&vec![0; 16], &vec![]).is_ok());
    assert_eq!(DecodeError::BadTable.kind(), ErrorKind::CorruptedChunk);
}

#[test]
fn tables_are_given_to_components_by_identifier() {
    let mut components =
        vec![Component::new(1, 2, 2, 0), Component::new(2, 1, 1, 1), Component::new(1, 1, 1, 1)];
    assign_tables(&mut components, 1, 3, 2);
    assert_eq!((components[0].dc_table, components[0].ac_table), (3, 2));
    assert_eq!((components[1].dc_table, components[1].ac_table), (0, 0));
    assert_eq!((components[2].dc_table, components[2].ac_table), (3, 2));
    assert_eq!(components[0].sampling_hor, 2);
    assign_tables(&mut components, 9, 1, 1);
    assert_eq!((components[1].dc_table, components[1].ac_table), (0, 0));
}

#[test]
fn coefficient_values_are_extended() {
    // (bits, count, value)
    let cases: [(u8, u32, i16); 10] = [
        (0b0000_0000, 1, -1),
        (0b1000_0000, 1, 1),
        (0b0000_0000, 2, -3),
        (0b0100_0000, 2, -2),
        (0b1000_0000, 2, 2),
        (0b1100_0000, 2, 3),
        (0b0000_0000, 3, -7),
        (0b0110_0000, 3, -4),
        (0b1000_0000, 3, 4),
        (0b1111_1111, 8, 255),
    ];
    for (byte, count, value) in cases {
        let data = [byte, 0];
        let mut reader = BitBuffer::new_msb_first(&data);
        assert_eq!(extend_receive(&mut reader, count), value);
        assert_eq!(reader.get_n_bits(8 - count), (byte as u16) & ((1 << (8 - count)) - 1));
    }
    let data = [0, 0];
    let mut reader = BitBuffer::new_msb_first(&data);
    assert_eq!(extend_receive(&mut reader, 15), -32767);
    let data = [0xab, 0xcd];
    let mut reader = BitBuffer::new_msb_first(&data);
    assert_eq!(extend_receive(&mut reader, 0), 0);
    assert_eq!(reader.get_n_bits(16), 0xabcd);
}

#[test]
fn metadata_of_a_baseline_stream() {
    let mut quant = vec![0u8];
    quant.extend(1..=64u8);
    let mut wide = vec![0x12u8];
    for i in 0..64u16 {
        wide.extend_from_slice(&(300 + i).to_be_bytes());
    }
    quant.extend_from_slice(&wide);
    let mut data = stream(&[
        segment(0xe0, &[0x4a, 0x46, 0x49, 0x46, 0, 1, 1, 0, 0, 1, 0, 1, 0, 0]),
        segment(0xe1, &[1, 2, 3]),
        segment(0xee, &[]),
        segment(0xdb, &quant),
        dht(0x00, &dc_counts(), &dc_values()),
        dht(0x13, &dc_counts(), &(20..32).collect::<Vec<u8>>()),
        frame(),
        scan(),
    ]);
    // the entropy-coded data is not read
    data.extend_from_slice(&[0x12, 0x34, 0xff, 0xd9]);
    let mut parser = Parser::new();
    assert_eq!(parser.parse(data), Ok(()));
    assert_eq!(parser.width(), 32);
    assert_eq!(parser.height(), 16);
    assert_eq!(parser.depth(), 8);
    assert_eq!(parser.num_components(), 3);
    assert_eq!(parser.parsing_mode(), ParsingMode::Baseline);
    let components = parser.components();
    assert_eq!(components.len(), 3);
    assert_eq!(
        components[0],
        Component {
            identifier: 1,
            sampling_hor: 2,
            sampling_ver: 2,
            quant_table: 0,
            dc_table: 0,
            ac_table: 0
        }
    );
    assert_eq!(
        components[1],
        Component {
            identifier: 2,
            sampling_hor: 1,
            sampling_ver: 1,
            quant_table: 1,
            dc_table: 1,
            ac_table: 1
        }
    );
    assert_eq!(
        components[2],
        Component {
            identifier: 3,
            sampling_hor: 1,
            sampling_ver: 1,
            quant_table: 1,
            dc_table: 1,
            ac_table: 2
        }
    );
    for i in 0..64 {
        assert_eq!(parser.quant_table(0)[DEZIGZAG[i]], 1 + i as u16);
        assert_eq!(parser.quant_table(2)[DEZIGZAG[i]], 300 + i as u16);
        assert_eq!(parser.quant_table(1)[i], 0);
    }
    let bits = [0b0100_1100];
    let mut reader = BitBuffer::new_msb_first(&bits);
    assert_eq!(parser.dc_table(0).find(&mut reader), Some(1));
    assert_eq!(parser.dc_table(0).find(&mut reader), Some(2));
    let mut reader = BitBuffer::new_msb_first(&bits);
    assert_eq!(parser.ac_table(3).find(&mut reader), Some(21));
    let mut reader = BitBuffer::new_msb_first(&bits);
    assert_eq!(parser.ac_table(0).find(&mut reader), None);
    assert_eq!(parser.dc_table(1).find(&mut reader), None);
}

#[test]
fn difference_of_a_dc_coefficient() {
    let mut parser = Parser::new();
    let data = stream(&[dht(0x00, &dc_counts(), &dc_values()), frame(), scan()]);
    assert_eq!(parser.parse(data), Ok(()));
    let first = parser.components()[0];
    // category 2 (011), then the bits 01: -2; category 0 (00): 0;
    // category 3 (100), then 101: 5
    let bits = [0b0110_1001, 0b0010_1000];
    let mut reader = BitBuffer::new_msb_first(&bits);
    assert_eq!(parser.parse_block(&mut reader, &first), Ok(-2));
    assert_eq!(parser.parse_block(&mut reader, &first), Ok(0));
    assert_eq!(parser.parse_block(&mut reader, &first), Ok(5));
    // table 1 is empty
    let second = parser.components()[1];
    assert_eq!(second.dc_table, 1);
    let mut reader = BitBuffer::new_msb_first(&bits);
    assert_eq!(parser.parse_block(&mut reader, &second), Err(DecodeError::NoCode));
    let mut none = first;
    none.dc_table = 4;
    assert_eq!(parser.parse_block(&mut reader, &none), Err(DecodeError::BadTable));
}

#[test]
fn dc_symbol_above_fifteen_is_refused() {
    let mut counts = vec![0u8; 16];
    counts[0] = 1;
    let mut parser = Parser::new();
    let data = stream(&[dht(0x00, &counts, &[16]), frame(), scan()]);
    assert_eq!(parser.parse(data), Ok(()));
    let first = parser.components()[0];
    let bits = [0u8];
    let mut reader = BitBuffer::new_msb_first(&bits);
    assert_eq!(parser.parse_block(&mut reader, &first), Err(DecodeError::BadSymbol));
}

#[test]
fn stream_errors() {
    assert_eq!(failure(vec![]), DecodeError::Truncated);
    assert_eq!(failure(vec![0xff, 0xd7]), DecodeError::NotJpeg);
    assert_eq!(failure(vec![137, 80, 78, 71, 13, 10, 26, 10]), DecodeError::NotJpeg);
    // no segment
    assert_eq!(failure(stream(&[])), DecodeError::Truncated);
    // no scan
    assert_eq!(failure(stream(&[frame()])), DecodeError::Truncated);
    // a progressive frame
    assert_eq!(failure(stream(&[segment(0xc2, &[8, 0, 1, 0, 1, 0])])), DecodeError::UnsupportedMarker);
    assert_eq!(failure(stream(&[vec![0x00, 0xdb, 0, 2]])), DecodeError::UnsupportedMarker);
    assert_eq!(DecodeError::UnsupportedMarker.kind(), ErrorKind::UnsupportedFeature);
    // a marker without a length
    assert_eq!(failure(stream(&[vec![0xff, 0xe0, 0]])), DecodeError::Truncated);
    // a length that does not count itself
    assert_eq!(failure(stream(&[vec![0xff, 0xe0, 0, 1]])), DecodeError::ChunkLength);
    // a segment that is longer than the data
    assert_eq!(failure(stream(&[vec![0xff, 0xe0, 0, 3]])), DecodeError::Truncated);
    // a scan before any frame
    assert_eq!(failure(stream(&[scan()])), DecodeError::MissingFrame);
    assert_eq!(DecodeError::MissingFrame.kind(), ErrorKind::DecoderState);
}

#[test]
fn table_errors() {
    // a fifth quantisation table
    let mut payload = vec![4u8];
    payload.extend_from_slice(&[1; 64]);
    assert_eq!(failure(stream(&[segment(0xdb, &payload)])), DecodeError::BadTable);
    // values of a width that is not defined
    payload[0] = 0x20;
    assert_eq!(failure(stream(&[segment(0xdb, &payload)])), DecodeError::BadTable);
    // a table that is cut short
    payload[0] = 0;
    payload.pop();
    assert_eq!(failure(stream(&[segment(0xdb, &payload)])), DecodeError::ChunkLength);
    payload[0] = 0x10;
    payload.extend_from_slice(&[0; 64]);
    assert_eq!(failure(stream(&[segment(0xdb, &payload)])), DecodeError::ChunkLength);
    // Huffman tables
    assert_eq!(failure(stream(&[dht(0x04, &dc_counts(), &dc_values())])), DecodeError::BadTable);
    assert_eq!(failure(stream(&[dht(0x20, &dc_counts(), &dc_values())])), DecodeError::BadTable);
    assert_eq!(
        failure(stream(&[dht(0x00, &dc_counts(), &dc_values()[..11])])),
        DecodeError::ChunkLength
    );
    assert_eq!(failure(stream(&[segment(0xc4, &[0; 16])])), DecodeError::ChunkLength);
    let mut counts = vec![0u8; 16];
    counts[0] = 3;
    assert_eq!(failure(stream(&[dht(0x00, &counts, &[1, 2, 3])])), DecodeError::BadTable);
}

#[test]
fn frame_and_scan_errors() {
    assert_eq!(failure(stream(&[segment(0xc0, &[8, 0, 1, 0, 1])])), DecodeError::ChunkLength);
    assert_eq!(
        failure(stream(&[segment(0xc0, &[8, 0, 1, 0, 1, 2, 1, 0x11, 0])])),
        DecodeError::ChunkLength
    );
    assert_eq!(failure(stream(&[frame(), segment(0xda, &[])])), DecodeError::ChunkLength);
    assert_eq!(
        failure(stream(&[frame(), segment(0xda, &[1, 1, 0, 0, 63])])),
        DecodeError::ChunkLength
    );
    // a scan without components is a header all the same
    let mut parser = Parser::new();
    assert_eq!(parser.parse(stream(&[frame(), segment(0xda, &[0, 0, 63, 0])])), Ok(()));
    assert_eq!(parser.components().len(), 3);
    assert_eq!(parser.components()[1].dc_table, 0);
}

#[test]
fn several_tables_in_one_segment() {
    let mut payload = vec![0x00u8];
    payload.extend_from_slice(&dc_counts());
    payload.extend_from_slice(&dc_values());
    payload.push(0x11);
    let mut counts = vec![0u8; 16];
    counts[0] = 2;
    payload.extend_from_slice(&counts);
    payload.extend_from_slice(&[7, 9]);
    let mut parser = Parser::new();
    assert_eq!(parser.parse(stream(&[segment(0xc4, &payload), frame(), scan()])), Ok(()));
    let bits = [0b1000_0000];
    let mut reader = BitBuffer::new_msb_first(&bits);
    assert_eq!(parser.ac_table(1).find(&mut reader), Some(9));
    assert_eq!(parser.ac_table(1).find(&mut reader), Some(7));
    let mut reader = BitBuffer::new_msb_first(&bits);
    assert_eq!(parser.dc_table(0).find(&mut reader), Some(3));
}
