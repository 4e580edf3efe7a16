use image_decoder::adam7::{
    deinterlace, pass_dimensions, pass_index, COL_INCREMENT, ROW_INCREMENT, STARTING_COL,
    STARTING_ROW,
};
use image_decoder::bytes::{peek_u16, peek_u32, peek_u8, to_u16, to_u32};
use image_decoder::error::DecodeError;
use image_decoder::filter::{paeth_predictor, reverse_filter};
use image_decoder::netpbm::{push_decimal, write_img};
use image_decoder::png::ColourType;

/// The filter equations of the format, applied to an image of one byte a
/// sample.
fn apply_filters(image: &[u8], width: usize, channels: usize, kinds: &[u8]) -> Vec<u8> {
    let stride = width * channels;
    let at = |y: usize, x: usize| image[y * stride + x] as i32;
    let mut raw = Vec::new();
    for (y, kind) in kinds.iter().enumerate() {
        raw.push(*kind);
        for x in 0..stride {
            let a = if x >= channels { at(y, x - channels) } else { 0 };
            let b = if y > 0 { at(y - 1, x) } else { 0 };
            let c = if x >= channels && y > 0 { at(y - 1, x - channels) } else { 0 };
            let predicted = match kind {
                1 => a,
                2 => b,
                3 => (a + b) / 2,
                4 => {
                    let p = a + b - c;
                    let (pa, pb, pc) = ((p - a).abs(), (p - b).abs(), (p - c).abs());
                    if pa <= pb && pa <= pc {
                        a
                    } else if pb <= pc {
                        b
                    } else {
                        c
                    }
                }
                _ => 0,
            };
            raw.push((at(y, x) - predicted).rem_euclid(256) as u8);
        }
    }
    raw
}

#[test]
fn paeth_picks_one_of_its_arguments() {
    for a in (0..=255u8).step_by(5) {
        for b in (0..=255u8).step_by(7) {
            for c in (0..=255u8).step_by(11) {
                let p = paeth_predictor(a, b, c);
                assert!(p == a || p == b || p == c);
            }
        }
    }
    for v in 0..=255u8 {
        assert_eq!(paeth_predictor(v, v, v), v);
    }
}

#[test]
fn paeth_known_values() {
    assert_eq!(paeth_predictor(0, 0, 0), 0);
    assert_eq!(paeth_predictor(10, 20, 30), 10);
    assert_eq!(paeth_predictor(10, 20, 10), 20);
    assert_eq!(paeth_predictor(10, 20, 20), 10);
    assert_eq!(paeth_predictor(50, 60, 55), 55);
    assert_eq!(paeth_predictor(255, 0, 255), 0);
    assert_eq!(paeth_predictor(1, 3, 2), 2);
    assert_eq!(paeth_predictor(5, 9, 5), 9);
    // a tie goes to the left
    assert_eq!(paeth_predictor(100, 100, 0), 100);
    assert_eq!(paeth_predictor(7, 9, 9), 7);
}

#[test]
fn sub_filter_adds_the_pixel_to_the_left() {
    let raw = [1, 10, 20, 30, 1, 2, 3, 1, 2, 3];
    assert_eq!(
        reverse_filter(&raw, &vec![], false, 3, 1, 3, 8, 0),
        Ok(vec![10, 20, 30, 11, 22, 33, 12, 24, 36])
    );
}

#[test]
fn up_filter_adds_the_row_above() {
    let raw = [0, 1, 2, 3, 2, 10, 20, 255];
    assert_eq!(
        reverse_filter(&raw, &vec![], false, 3, 2, 1, 8, 0),
        Ok(vec![1, 2, 3, 11, 22, 2])
    );
    // in the first row there is nothing above
    assert_eq!(reverse_filter(&[2, 7, 8], &vec![], false, 2, 1, 1, 8, 0), Ok(vec![7, 8]));
}

#[test]
fn average_filter_adds_the_mean_of_left_and_above() {
    let raw = [0, 10, 21, 3, 1, 1];
    // 1 + (0 + 10) / 2 = 6, 1 + (6 + 21) / 2 = 14
    assert_eq!(reverse_filter(&raw, &vec![], false, 2, 2, 1, 8, 0), Ok(vec![10, 21, 6, 14]));
    // the sum of two bytes is not cut to a byte before it is halved
    assert_eq!(
        reverse_filter(&[0, 200, 250, 3, 0, 0], &vec![], false, 2, 2, 1, 8, 0),
        Ok(vec![200, 250, 100, 175])
    );
}

#[test]
fn paeth_filter_adds_the_closest_neighbour() {
    let raw = [0, 10, 20, 4, 1, 1];
    // left 0, above 10, corner 0: 10; then left 11, above 20, corner 10: 20
    assert_eq!(reverse_filter(&raw, &vec![], false, 2, 2, 1, 8, 0), Ok(vec![10, 20, 11, 21]));
}

#[test]
fn sums_wrap_at_a_byte() {
    assert_eq!(
        reverse_filter(&[1, 200, 100, 100], &vec![], false, 3, 1, 1, 8, 0),
        Ok(vec![200, 44, 144])
    );
}

#[test]
fn filters_of_all_types_are_undone() {
    let raw: Vec<u8> = vec![
        4, 165, 77, 202, 115, 216, 102, 163, 248, 61, 2, 110, 223, 20, 190, 254, 75, 115, 188, 177,
        3, 54, 92, 176, 65, 207, 36, 155, 203, 77, 1, 214, 73, 60, 199, 19, 248, 195, 98, 253,
    ];
    let image: Vec<u8> = vec![
        165, 77, 202, 24, 37, 48, 187, 29, 109, 19, 44, 222, 214, 35, 123, 46, 217, 30, 63, 114,
        31, 203, 25, 113, 23, 68, 148, 214, 73, 60, 157, 92, 52, 96, 190, 49,
    ];
    assert_eq!(reverse_filter(&raw, &vec![], false, 3, 4, 3, 8, 0), Ok(image));
}

#[test]
fn filtering_and_undoing_gives_the_image_back() {
    let mut seed: u32 = 12345;
    for channels in 1..=4usize {
        for width in [1usize, 2, 5] {
            for kinds in [[0u8, 1, 2, 3, 4], [4, 4, 3, 3, 1], [2, 2, 2, 0, 4], [3, 1, 4, 2, 0]] {
                let mut image = Vec::new();
                for _ in 0..(width * channels * kinds.len()) {
                    seed = seed.wrapping_mul(1_103_515_245).wrapping_add(12345);
                    image.push((seed >> 16) as u8);
                }
                let raw = apply_filters(&image, width, channels, &kinds);
                assert_eq!(
                    reverse_filter(&raw, &vec![], false, width as u32, 5, channels, 8, 0),
                    Ok(image)
                );
            }
        }
    }
}

#[test]
fn rows_are_read_from_the_offset() {
    let raw = [9, 9, 9, 0, 1, 2, 1, 1, 1];
    assert_eq!(reverse_filter(&raw, &vec![], false, 2, 2, 1, 8, 3), Ok(vec![1, 2, 1, 2]));
    assert_eq!(reverse_filter(&raw, &vec![], false, 2, 2, 1, 8, 4), Err(DecodeError::Truncated));
    assert_eq!(reverse_filter(&raw, &vec![], false, 2, 0, 1, 8, 9), Ok(vec![]));
    assert_eq!(reverse_filter(&raw, &vec![], false, 2, 0, 1, 8, 10), Err(DecodeError::Truncated));
}

#[test]
fn samples_below_a_byte_are_spread() {
    // depth 1: the unused bits at the end of a row are passed over
    assert_eq!(
        reverse_filter(&[0, 0b1010_0000, 0, 0b0110_0000], &vec![], false, 3, 2, 1, 1, 0),
        Ok(vec![255, 0, 255, 0, 255, 255])
    );
    assert_eq!(
        reverse_filter(&[0, 0b0001_1011], &vec![], false, 4, 1, 1, 2, 0),
        Ok(vec![0, 85, 170, 255])
    );
    assert_eq!(
        reverse_filter(&[0, 0x5a, 0xf0], &vec![], false, 3, 1, 1, 4, 0),
        Ok(vec![85, 170, 255])
    );
}

#[test]
fn palette_entries_replace_indices() {
    let plte = vec![(1, 2, 3, 255), (4, 5, 6, 7)];
    assert_eq!(
        reverse_filter(&[0, 0b0100_0000], &plte, true, 2, 1, 1, 1, 0),
        Ok(vec![1, 2, 3, 255, 4, 5, 6, 7])
    );
    assert_eq!(
        reverse_filter(&[0, 1, 2], &plte, true, 2, 1, 1, 8, 0),
        Err(DecodeError::MissingPalette)
    );
}

#[test]
fn layouts_that_are_not_decoded() {
    assert_eq!(
        reverse_filter(&[0, 0, 0], &vec![], false, 1, 1, 1, 16, 0),
        Err(DecodeError::UnsupportedDepth)
    );
    assert_eq!(
        reverse_filter(&[0, 0, 0], &vec![], false, 1, 1, 3, 4, 0),
        Err(DecodeError::UnsupportedDepth)
    );
    assert_eq!(
        reverse_filter(&[0, 0, 0], &vec![], false, 1, 1, 0, 8, 0),
        Err(DecodeError::UnsupportedDepth)
    );
    assert_eq!(
        reverse_filter(&[0, 0, 0, 0, 0, 0], &vec![], false, 1, 1, 5, 8, 0),
        Err(DecodeError::UnsupportedDepth)
    );
    assert_eq!(reverse_filter(&[7, 0], &vec![], false, 1, 1, 1, 8, 0), Err(DecodeError::BadFilter));
}

#[test]
fn every_pixel_lies_in_one_pass() {
    for y in 0..24u32 {
        for x in 0..24u32 {
            let mut found = 0;
            for pass in 0..7 {
                let dy = y as i64 - STARTING_ROW[pass] as i64;
                let dx = x as i64 - STARTING_COL[pass] as i64;
                if dy >= 0
                    && dx >= 0
                    && dy % ROW_INCREMENT[pass] as i64 == 0
                    && dx % COL_INCREMENT[pass] as i64 == 0
                {
                    found += 1;
                    assert_eq!(pass_index(x, y), pass);
                }
            }
            assert_eq!(found, 1);
        }
    }
}

#[test]
fn passes_of_the_first_block() {
    let expected: [[usize; 8]; 8] = [
        [0, 5, 3, 5, 1, 5, 3, 5],
        [6, 6, 6, 6, 6, 6, 6, 6],
        [4, 5, 4, 5, 4, 5, 4, 5],
        [6, 6, 6, 6, 6, 6, 6, 6],
        [2, 5, 3, 5, 2, 5, 3, 5],
        [6, 6, 6, 6, 6, 6, 6, 6],
        [4, 5, 4, 5, 4, 5, 4, 5],
        [6, 6, 6, 6, 6, 6, 6, 6],
    ];
    for y in 0..8 {
        for x in 0..8 {
            assert_eq!(pass_index(x as u32, y as u32), expected[y][x]);
        }
    }
}

#[test]
fn sizes_of_the_passes() {
    let sizes: Vec<(u32, u32)> = (0..7).map(|p| pass_dimensions(8, 8, p)).collect();
    assert_eq!(sizes, vec![(1, 1), (1, 1), (2, 1), (2, 2), (4, 2), (4, 4), (8, 4)]);
    let sizes: Vec<(u32, u32)> = (0..7).map(|p| pass_dimensions(5, 5, p)).collect();
    assert_eq!(sizes, vec![(1, 1), (1, 1), (2, 1), (1, 2), (3, 1), (2, 3), (5, 2)]);
    let sizes: Vec<(u32, u32)> = (0..7).map(|p| pass_dimensions(1, 1, p)).collect();
    assert_eq!(sizes, vec![(1, 1), (0, 1), (1, 0), (0, 1), (1, 0), (0, 1), (1, 0)]);
    let sizes: Vec<(u32, u32)> = (0..7).map(|p| pass_dimensions(0, 0, p)).collect();
    assert_eq!(sizes, vec![(0, 0); 7]);
    assert_eq!(pass_dimensions(u32::MAX, u32::MAX, 6), (u32::MAX, u32::MAX / 2));
    assert_eq!(pass_dimensions(u32::MAX, u32::MAX, 0), (0x2000_0000, 0x2000_0000));
    for width in 0..40u32 {
        let total: u64 = (0..7)
            .map(|p| {
                let (w, h) = pass_dimensions(width, 13, p);
                w as u64 * h as u64
            })
            .sum();
        assert_eq!(total, width as u64 * 13);
    }
}

#[test]
fn interlaced_image_is_put_together() {
    let raw: Vec<u8> = vec![
        0, 0, 0, 4, 0, 40, 44, 0, 2, 0, 42, 0, 20, 22, 24, 0, 1, 3, 0, 21, 23, 0, 41, 43, 0, 10,
        11, 12, 13, 14, 0, 30, 31, 32, 33, 34,
    ];
    let expected: Vec<u8> = vec![
        0, 1, 2, 3, 4, 10, 11, 12, 13, 14, 20, 21, 22, 23, 24, 30, 31, 32, 33, 34, 40, 41, 42, 43,
        44,
    ];
    assert_eq!(deinterlace(&raw, &vec![], false, 5, 5, 1, 8), Ok(expected));
    assert_eq!(
        deinterlace(&raw[..raw.len() - 1], &vec![], false, 5, 5, 1, 8),
        Err(DecodeError::Truncated)
    );
    let mut bad = raw.clone();
    bad[15] = 5;
    assert_eq!(deinterlace(&bad, &vec![], false, 5, 5, 1, 8), Err(DecodeError::BadFilter));
}

#[test]
fn interlaced_image_with_filters_and_palette() {
    // 2 by 2, indexed: pass 1 holds (0, 0), pass 6 holds (1, 0), pass 7 the
    // second row, here with the Sub filter
    let plte = vec![(0, 0, 0, 255), (1, 1, 1, 255), (2, 2, 2, 255), (3, 3, 3, 9)];
    let raw = [0, 3, 0, 2, 1, 1, 0];
    assert_eq!(
        deinterlace(&raw, &plte, true, 2, 2, 1, 8),
        Ok(vec![3, 3, 3, 9, 2, 2, 2, 255, 1, 1, 1, 255, 1, 1, 1, 255])
    );
    assert_eq!(
        deinterlace(&[0, 4, 0, 2, 1, 1, 0], &plte, true, 2, 2, 1, 8),
        Err(DecodeError::MissingPalette)
    );
}

#[test]
fn interlaced_image_of_one_pixel() {
    assert_eq!(deinterlace(&[0, 1, 2, 3], &vec![], false, 1, 1, 3, 8), Ok(vec![1, 2, 3]));
    assert_eq!(deinterlace(&[], &vec![], false, 0, 0, 3, 8), Ok(vec![]));
}

#[test]
fn numbers_are_read_most_significant_byte_first() {
    let data = [0x12, 0x34, 0x56, 0x78, 0x9a];
    assert_eq!(peek_u32(&data, 0), Ok(0x1234_5678));
    assert_eq!(peek_u32(&data, 1), Ok(0x3456_789a));
    assert_eq!(peek_u32(&data, 2), Err(DecodeError::Truncated));
    assert_eq!(peek_u32(&data, usize::MAX), Err(DecodeError::Truncated));
    assert_eq!(peek_u16(&data, 3), Ok(0x789a));
    assert_eq!(peek_u16(&data, 4), Err(DecodeError::Truncated));
    assert_eq!(peek_u8(&data, 4), Ok(0x9a));
    assert_eq!(peek_u8(&data, 5), Err(DecodeError::Truncated));
    assert_eq!(to_u32([73, 72, 68, 82]), 0x4948_4452);
    assert_eq!(to_u32([255, 255, 255, 255]), u32::MAX);
    assert_eq!(to_u16([0xff, 0xd8]), 0xffd8);
}

#[test]
fn decimal_digits() {
    for (n, text) in [(0usize, "0"), (7, "7"), (10, "10"), (255, "255"), (1000, "1000"), (90210, "90210")]
    {
        let mut out = vec![b'x'];
        push_decimal(&mut out, n);
        assert_eq!(out, format!("x{}", text).into_bytes());
    }
    let mut out = Vec::new();
    push_decimal(&mut out, usize::MAX);
    assert_eq!(out, format!("{}", usize::MAX).into_bytes());
}

/// The text of a pixmap with the given lines after its mark.
fn pixmap(rest: &str) -> Vec<u8> {
    let mut out = vec![80, 51, 32, 10];
    out.extend_from_slice(rest.as_bytes());
    out
}

#[test]
fn pixmap_text_of_each_layout() {
    assert_eq!(
        write_img(2, 1, ColourType::Grayscale, &vec![0, 200]),
        pixmap("2 1 \n255 \n0 0 0 255\n200 200 200 255\n")
    );
    assert_eq!(
        write_img(1, 2, ColourType::GrayscaleAlpha, &vec![9, 10, 11, 0]),
        pixmap("1 2 \n255 \n9 9 9 10\n11 11 11 0\n")
    );
    assert_eq!(
        write_img(1, 1, ColourType::TrueColour, &vec![1, 22, 255]),
        pixmap("1 1 \n255 \n1 22 255 255\n")
    );
    assert_eq!(
        write_img(1, 1, ColourType::TrueColourAlpha, &vec![1, 2, 3, 4]),
        pixmap("1 1 \n255 \n1 2 3 4\n")
    );
    assert_eq!(write_img(12, 0, ColourType::Indexed, &vec![]), pixmap("12 0 \n255 \n"));
    assert_eq!(
        write_img(1, 2, ColourType::Indexed, &vec![1, 2, 3, 4, 100, 101, 102, 103]),
        pixmap("1 2 \n255 \n1 2 3 4\n100 101 102 103\n")
    );
}

#[test]
fn interlaced_layouts_that_are_not_decoded() {
    assert_eq!(
        deinterlace(&[0, 0, 0], &vec![], false, 1, 1, 1, 16),
        Err(DecodeError::UnsupportedDepth)
    );
    assert_eq!(deinterlace(&[], &vec![], false, 0, 0, 2, 4), Err(DecodeError::UnsupportedDepth));
    assert_eq!(deinterlace(&[], &vec![], false, 0, 0, 0, 8), Err(DecodeError::UnsupportedDepth));
}
