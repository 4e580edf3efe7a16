//! Scanline filters of the PNG format and their reversal, and the unpacking
//! of samples into pixels.

use crate::error::DecodeError;
use vstd::prelude::*;

verus! {

/// The absolute value of an integer.
pub open spec fn abs(x: int) -> int {
    if x < 0 {
        -x
    } else {
        x
    }
}

/// The Paeth predictor: whichever of `a`, `b`, `c` lies closest to
/// `a + b - c`, ties going to `a`, then `b`, then `c`.
pub open spec fn paeth(a: int, b: int, c: int) -> int {
    let p = a + b - c;
    let pa = abs(p - a);
    let pb = abs(p - b);
    let pc = abs(p - c);
    if pa <= pb && pa <= pc {
        a
    } else if pb <= pc {
        b
    } else {
        c
    }
}

/// The Paeth predictor picks one of its three arguments, and where the three
/// are one value it is that value.
pub proof fn lemma_paeth_picks(a: int, b: int, c: int)
    ensures
        paeth(a, b, c) == a || paeth(a, b, c) == b || paeth(a, b, c) == c,
        a == b && b == c ==> paeth(a, b, c) == a,
{
}

/// Computes the Paeth predictor of three neighbouring bytes.
pub fn paeth_predictor(a: u8, b: u8, c: u8) -> (r: u8)
    ensures
        r == paeth(a as int, b as int, c as int),
{
    let p: i32 = a as i32 + b as i32 - c as i32;
    let pa: i32 = if p >= a as i32 {
        p - a as i32
    } else {
        a as i32 - p
    };
    let pb: i32 = if p >= b as i32 {
        p - b as i32
    } else {
        b as i32 - p
    };
    let pc: i32 = if p >= c as i32 {
        p - c as i32
    } else {
        c as i32 - p
    };
    if pa <= pb && pa <= pc {
        a
    } else if pb <= pc {
        b
    } else {
        c
    }
}

/// What a filter of the given type adds to a filtered byte, from the byte to
/// the left `a`, the byte above `b` and the byte above and to the left `c`.
pub open spec fn predictor(kind: u8, a: int, b: int, c: int) -> int {
    if kind == 1 {
        a
    } else if kind == 2 {
        b
    } else if kind == 3 {
        (a + b) / 2
    } else if kind == 4 {
        paeth(a, b, c)
    } else {
        0
    }
}

/// The number of bytes of a scanline of `width` pixels, without its filter
/// byte.
pub open spec fn row_bytes(width: int, channels: int, depth: int) -> int {
    (width * channels * depth + 7) / 8
}

/// The byte at position `x` of row `y` after the filters are undone. The rows
/// lie in `raw` from `offset` on, each as a filter byte and `stride` filtered
/// bytes; `bpp` is the distance in bytes to the pixel on the left. Neighbours
/// outside the image count as 0, and sums are taken modulo 256.
pub open spec fn recon(raw: Seq<u8>, offset: int, stride: int, bpp: int, y: int, x: int) -> u8
    decreases y, x,
    when bpp >= 1 && y >= 0 && x >= 0
{
    let start = offset + y * (stride + 1);
    let a = if x >= bpp {
        recon(raw, offset, stride, bpp, y, x - bpp) as int
    } else {
        0
    };
    let b = if y >= 1 {
        recon(raw, offset, stride, bpp, y - 1, x) as int
    } else {
        0
    };
    let c = if x >= bpp && y >= 1 {
        recon(raw, offset, stride, bpp, y - 1, x - bpp) as int
    } else {
        0
    };
    ((raw[start + 1 + x] + predictor(raw[start], a, b, c)) % 256) as u8
}

/// Row `y` after the filters are undone.
pub open spec fn recon_row(raw: Seq<u8>, offset: int, stride: int, bpp: int, y: int) -> Seq<u8> {
    Seq::new(stride as nat, |x: int| recon(raw, offset, stride, bpp, y, x))
}

/// Sample `i` of a row: the field of `depth` bits at bit `i * depth`, counted
/// from the most significant bit of the first byte.
pub open spec fn sample_at(row: Seq<u8>, depth: u8, i: int) -> u8 {
    if depth == 8 {
        row[i]
    } else {
        (row[(i * depth) / 8] >> ((8 - depth - (i * depth) % 8) as u8)) & (((1u8 << depth) - 1) as u8)
    }
}

/// The factor that spreads a sample of `depth` bits over the range of a byte.
pub open spec fn depth_scale(depth: u8) -> int {
    if depth == 1 {
        255
    } else if depth == 2 {
        85
    } else if depth == 4 {
        17
    } else {
        1
    }
}

/// The bytes that a sample becomes: red, green, blue and alpha of its palette
/// entry in an indexed image, and else the sample spread over the range of a
/// byte.
pub open spec fn expand_sample(
    sample: u8,
    depth: u8,
    indexed: bool,
    plte: Seq<(u8, u8, u8, u8)>,
) -> Seq<u8> {
    if indexed {
        seq![
            plte[sample as int].0,
            plte[sample as int].1,
            plte[sample as int].2,
            plte[sample as int].3,
        ]
    } else {
        seq![(sample * depth_scale(depth)) as u8]
    }
}

/// The first `count` samples of a row, expanded.
pub open spec fn expand_row(
    row: Seq<u8>,
    count: nat,
    depth: u8,
    indexed: bool,
    plte: Seq<(u8, u8, u8, u8)>,
) -> Seq<u8>
    decreases count,
{
    if count == 0 {
        Seq::empty()
    } else {
        expand_row(row, (count - 1) as nat, depth, indexed, plte) + expand_sample(
            sample_at(row, depth, count - 1),
            depth,
            indexed,
            plte,
        )
    }
}

/// In an indexed image each of the first `count` samples of the row points
/// into the palette.
pub open spec fn samples_in_palette(
    row: Seq<u8>,
    count: nat,
    depth: u8,
    indexed: bool,
    plte: Seq<(u8, u8, u8, u8)>,
) -> bool {
    indexed ==> forall|i: int| 0 <= i < count ==> (#[trigger] sample_at(row, depth, i)) < plte.len()
}

/// The layouts that are decoded: one to four channels of 8 bits, or a single
/// channel of 1, 2 or 4 bits.
pub open spec fn layout_supported(channels: int, depth: u8) -> bool {
    1 <= channels <= 4 && (depth == 8 || (channels == 1 && (depth == 1 || depth == 2 || depth
        == 4)))
}

/// The pixels of the first `rows` rows. The first row at fault decides the
/// error: a filter type above 4, or a sample that points outside the palette.
pub open spec fn image_rows(
    raw: Seq<u8>,
    plte: Seq<(u8, u8, u8, u8)>,
    indexed: bool,
    width: int,
    channels: int,
    depth: u8,
    offset: int,
    rows: nat,
) -> Result<Seq<u8>, DecodeError>
    decreases rows,
{
    if rows == 0 {
        Ok(Seq::empty())
    } else {
        let stride = row_bytes(width, channels, depth as int);
        let y = rows - 1;
        let row = recon_row(raw, offset, stride, channels, y);
        match image_rows(raw, plte, indexed, width, channels, depth, offset, y as nat) {
            Err(e) => Err(e),
            Ok(above) => if raw[offset + y * (stride + 1)] > 4 {
                Err(DecodeError::BadFilter)
            } else if !samples_in_palette(row, (width * channels) as nat, depth, indexed, plte) {
                Err(DecodeError::MissingPalette)
            } else {
                Ok(above + expand_row(row, (width * channels) as nat, depth, indexed, plte))
            },
        }
    }
}

/// The pixels of an image of `width` by `height` pixels whose filtered rows
/// lie in `raw` from `offset` on: the filters undone, the samples unpacked,
/// and in an indexed image each sample replaced by its palette entry.
pub open spec fn reverse_filter_spec(
    raw: Seq<u8>,
    plte: Seq<(u8, u8, u8, u8)>,
    indexed: bool,
    width: int,
    height: int,
    channels: int,
    depth: u8,
    offset: int,
) -> Result<Seq<u8>, DecodeError> {
    if !layout_supported(channels, depth) {
        Err(DecodeError::UnsupportedDepth)
    } else if offset + height * (row_bytes(width, channels, depth as int) + 1) > raw.len() {
        Err(DecodeError::Truncated)
    } else {
        image_rows(raw, plte, indexed, width, channels, depth, offset, height as nat)
    }
}

/// Appends to `out` the first `count` samples of `row`, expanded.
fn expand_into(
    row: &Vec<u8>,
    count: usize,
    depth: u8,
    indexed: bool,
    plte: &Vec<(u8, u8, u8, u8)>,
    out: &mut Vec<u8>,
) -> (ok: bool)
    requires
        depth == 1 || depth == 2 || depth == 4 || depth == 8,
        count * depth <= 8 * row.len(),
    ensures
        ok == samples_in_palette(row@, count as nat, depth, indexed, plte@),
        ok ==> final(out)@ == old(out)@ + expand_row(row@, count as nat, depth, indexed, plte@),
{
    let ghost start = out@;
    let mut current_byte: usize = 0;
    let mut num_bits: u8 = 0;
    let mut i: usize = 0;
    while i < count
        invariant
            depth == 1 || depth == 2 || depth == 4 || depth == 8,
            count * depth <= 8 * row.len(),
            i <= count,
            8 * current_byte + num_bits == i * depth,
            num_bits < 8,
            num_bits % depth == 0 || depth == 8,
            samples_in_palette(row@, i as nat, depth, indexed, plte@),
            out@ == start + expand_row(row@, i as nat, depth, indexed, plte@),
        decreases count - i,
    {
        proof {
            assert((i + 1) * depth == i * depth + depth) by (nonlinear_arith);
            assert((i + 1) * depth <= count * depth) by (nonlinear_arith)
                requires
                    i + 1 <= count,
            ;
        }
        let byte = row[current_byte];
        let sample: u8 = if depth == 8 {
            byte
        } else {
            let shift: u8 = 8 - depth - num_bits;
            proof {
                assert((1u8 << depth) >= 1) by (bit_vector)
                    requires
                        depth == 1 || depth == 2 || depth == 4,
                ;
            }
            let mask: u8 = ((1u8 << depth) - 1) as u8;
            proof {
                assert((depth == 1 ==> mask == 1) && (depth == 2 ==> mask == 3) && (depth == 4
                    ==> mask == 15)) by (bit_vector)
                    requires
                        mask == ((1u8 << depth) - 1) as u8,
                        depth == 1 || depth == 2 || depth == 4,
                ;
                assert(((byte >> shift) & mask) <= mask) by (bit_vector);
            }
            (byte >> shift) & mask
        };
        assert(sample == sample_at(row@, depth, i as int));
        if indexed {
            if sample as usize >= plte.len() {
                return false;
            }
            let entry = plte[sample as usize];
            out.push(entry.0);
            out.push(entry.1);
            out.push(entry.2);
            out.push(entry.3);
        } else {
            let scale: u8 = if depth == 1 {
                255
            } else if depth == 2 {
                85
            } else if depth == 4 {
                17
            } else {
                1
            };
            out.push(sample * scale);
        }
        proof {
            assert(out@ =~= start + expand_row(row@, (i + 1) as nat, depth, indexed, plte@));
        }
        if num_bits + depth >= 8 {
            current_byte = current_byte + 1;
            num_bits = 0;
        } else {
            num_bits = num_bits + depth;
        }
        i = i + 1;
    }
    true
}

/// Undoes the filter of row `y`, whose bytes start at `row_start` of
/// `decoded`, with `prev` as the row above.
fn reverse_row(
    decoded: &[u8],
    prev: &Vec<u8>,
    first_row: bool,
    row_start: usize,
    stride: usize,
    channels: usize,
    Ghost(offset): Ghost<int>,
    Ghost(y): Ghost<int>,
) -> (cur: Vec<u8>)
    requires
        1 <= channels <= 4,
        y >= 0,
        first_row == (y == 0),
        row_start == offset + y * (stride + 1),
        row_start + stride + 1 <= decoded.len(),
        decoded[row_start as int] <= 4,
        y > 0 ==> prev@ == recon_row(decoded@, offset, stride as int, channels as int, y - 1),
    ensures
        cur@ == recon_row(decoded@, offset, stride as int, channels as int, y),
{
    let kind = decoded[row_start];
    let mut cur: Vec<u8> = Vec::new();
    let mut x: usize = 0;
    while x < stride
        invariant
            1 <= channels <= 4,
            y >= 0,
            row_start == offset + y * (stride + 1),
            row_start + stride + 1 <= decoded.len(),
            kind == decoded[row_start as int],
            kind <= 4,
            first_row == (y == 0),
            y > 0 ==> prev@ == recon_row(decoded@, offset, stride as int, channels as int, y - 1),
            x <= stride,
            cur.len() == x,
            forall|k: int|
                0 <= k < x ==> #[trigger] cur[k] == recon(
                    decoded@,
                    offset,
                    stride as int,
                    channels as int,
                    y,
                    k,
                ),
        decreases stride - x,
    {
        let filt = decoded[row_start + 1 + x];
        let a: u8 = if x >= channels {
            cur[x - channels]
        } else {
            0
        };
        let b: u8 = if !first_row {
            prev[x]
        } else {
            0
        };
        let c: u8 = if x >= channels && !first_row {
            prev[x - channels]
        } else {
            0
        };
        let pred: u8 = if kind == 1 {
            a
        } else if kind == 2 {
            b
        } else if kind == 3 {
            ((a as u16 + b as u16) / 2) as u8
        } else if kind == 4 {
            paeth_predictor(a, b, c)
        } else {
            0
        };
        let value: u8 = ((filt as u16 + pred as u16) % 256) as u8;
        cur.push(value);
        x = x + 1;
    }
    proof {
        assert(cur@ =~= recon_row(decoded@, offset, stride as int, channels as int, y));
    }
    cur
}

/// Undoes the filters of an image of `width` by `height` pixels whose rows lie
/// in `decoded` from `offset` on, and unpacks its samples: in an indexed
/// image each becomes the four bytes of its palette entry, and else samples
/// of fewer than 8 bits are spread over the range of a byte.
pub fn reverse_filter(
    decoded: &[u8],
    plte: &Vec<(u8, u8, u8, u8)>,
    indexed: bool,
    width: u32,
    height: u32,
    channels: usize,
    depth: u8,
    offset: usize,
) -> (r: Result<Vec<u8>, DecodeError>)
    ensures
        match reverse_filter_spec(
            decoded@,
            plte@,
            indexed,
            width as int,
            height as int,
            channels as int,
            depth,
            offset as int,
        ) {
            Ok(pixels) => r is Ok && r->Ok_0@ == pixels,
            Err(e) => r == Err::<Vec<u8>, _>(e),
        },
{
    if !(1 <= channels && channels <= 4 && (depth == 8 || (channels == 1 && (depth == 1 || depth
        == 2 || depth == 4)))) {
        return Err(DecodeError::UnsupportedDepth);
    }
    let ghost raw = decoded@;
    let ghost stride_i = row_bytes(width as int, channels as int, depth as int);
    proof {
        assert(0 <= width * channels <= 0xffff_ffff * 4) by (nonlinear_arith)
            requires
                0 <= width <= 0xffff_ffff,
                1 <= channels <= 4,
        ;
        assert(0 <= (width * channels) * depth <= 0xffff_ffff * 4 * 8) by (nonlinear_arith)
            requires
                0 <= width * channels <= 0xffff_ffff * 4,
                1 <= depth <= 8,
        ;
    }
    let stride64: u64 = (width as u64 * channels as u64 * depth as u64 + 7) / 8;
    proof {
        assert(0 <= height * (stride64 + 1) <= 0xffff_ffff * 0x4_0000_0000) by (nonlinear_arith)
            requires
                0 <= height <= 0xffff_ffff,
                0 <= stride64 + 1 <= 0x4_0000_0000,
        ;
    }
    let total: u128 = offset as u128 + height as u128 * (stride64 as u128 + 1);
    if total > decoded.len() as u128 {
        return Err(DecodeError::Truncated);
    }
    let mut data: Vec<u8> = Vec::new();
    if height == 0 {
        return Ok(data);
    }
    proof {
        assert(height * (stride64 + 1) >= stride64 + 1) by (nonlinear_arith)
            requires
                height >= 1,
                stride64 >= 0,
        ;
    }
    let stride: usize = stride64 as usize;
    let count: usize = if depth == 8 {
        stride
    } else {
        width as usize
    };
    proof {
        assert(count == width * channels);
        assert(count * depth <= 8 * stride) by (nonlinear_arith)
            requires
                count == width * channels,
                stride == (width * channels * depth + 7) / 8,
        ;
    }
    let mut prev: Vec<u8> = Vec::new();
    let mut row_start: usize = offset;
    let mut y: u32 = 0;
    while y < height
        invariant
            layout_supported(channels as int, depth),
            raw == decoded@,
            stride == row_bytes(width as int, channels as int, depth as int),
            count == width * channels,
            count * depth <= 8 * stride,
            offset + height * (stride + 1) <= decoded.len(),
            y <= height,
            row_start == offset + y * (stride + 1),
            y > 0 ==> prev@ == recon_row(raw, offset as int, stride as int, channels as int, y - 1),
            image_rows(raw, plte@, indexed, width as int, channels as int, depth, offset as int, y as nat)
                == Ok::<_, DecodeError>(data@),
        decreases height - y,
    {
        proof {
            assert((y + 1) * (stride + 1) == y * (stride + 1) + stride + 1) by (nonlinear_arith);
            assert((y + 1) * (stride + 1) <= height * (stride + 1)) by (nonlinear_arith)
                requires
                    y + 1 <= height,
            ;
        }
        let kind = decoded[row_start];
        if kind > 4 {
            proof {
                lemma_image_rows_error(
                    raw,
                    plte@,
                    indexed,
                    width as int,
                    channels as int,
                    depth,
                    offset as int,
                    (y + 1) as nat,
                    height as nat,
                );
            }
            return Err(DecodeError::BadFilter);
        }
        let cur = reverse_row(
            decoded,
            &prev,
            y == 0,
            row_start,
            stride,
            channels,
            Ghost(offset as int),
            Ghost(y as int),
        );
        if !expand_into(&cur, count, depth, indexed, plte, &mut data) {
            proof {
                lemma_image_rows_error(
                    raw,
                    plte@,
                    indexed,
                    width as int,
                    channels as int,
                    depth,
                    offset as int,
                    (y + 1) as nat,
                    height as nat,
                );
            }
            return Err(DecodeError::MissingPalette);
        }
        prev = cur;
        row_start = row_start + stride + 1;
        y = y + 1;
    }
    Ok(data)
}

/// An error in the first rows is the error of the whole image.
proof fn lemma_image_rows_error(
    raw: Seq<u8>,
    plte: Seq<(u8, u8, u8, u8)>,
    indexed: bool,
    width: int,
    channels: int,
    depth: u8,
    offset: int,
    rows: nat,
    all: nat,
)
    requires
        rows <= all,
        image_rows(raw, plte, indexed, width, channels, depth, offset, rows) is Err,
    ensures
        image_rows(raw, plte, indexed, width, channels, depth, offset, all) == image_rows(
            raw,
            plte,
            indexed,
            width,
            channels,
            depth,
            offset,
            rows,
        ),
    decreases all,
{
    if rows < all {
        lemma_image_rows_error(
            raw,
            plte,
            indexed,
            width,
            channels,
            depth,
            offset,
            rows,
            (all - 1) as nat,
        );
    }
}

/// The byte that a filter of type `kind` puts in the place of byte `x` of row
/// `y` of an image of `stride` bytes a row: the byte less what the filter
/// predicts from its neighbours, modulo 256.
pub open spec fn filter_byte(image: Seq<u8>, stride: int, bpp: int, kind: u8, y: int, x: int) -> u8 {
    let a = if x >= bpp {
        image[y * stride + x - bpp] as int
    } else {
        0
    };
    let b = if y >= 1 {
        image[(y - 1) * stride + x] as int
    } else {
        0
    };
    let c = if x >= bpp && y >= 1 {
        image[(y - 1) * stride + x - bpp] as int
    } else {
        0
    };
    ((image[y * stride + x] - predictor(kind, a, b, c)) % 256) as u8
}

/// `raw` holds, from `offset` on, the rows of `image` filtered, row `y` with
/// the filter of type `kinds[y]` and with that type in front of it.
pub open spec fn holds_filtered(
    raw: Seq<u8>,
    offset: int,
    image: Seq<u8>,
    stride: int,
    bpp: int,
    kinds: Seq<u8>,
) -> bool {
    &&& image.len() == kinds.len() * stride
    &&& offset + kinds.len() * (stride + 1) <= raw.len()
    &&& forall|y: int|
        0 <= y < kinds.len() ==> #[trigger] kinds[y] == raw[offset + y * (stride + 1)]
    &&& forall|y: int, x: int|
        0 <= y < kinds.len() && 0 <= x < stride ==> #[trigger] filter_byte(
            image,
            stride,
            bpp,
            kinds[y],
            y,
            x,
        ) == raw[offset + y * (stride + 1) + 1 + x]
}

/// Adding back what was taken off modulo 256 gives the byte that was there.
proof fn lemma_add_back(orig: int, predicted: int)
    requires
        0 <= orig < 256,
    ensures
        ((orig - predicted) % 256 + predicted) % 256 == orig,
{
}

/// Undoing the filters gives back every byte of an image that was filtered.
pub proof fn lemma_recon_inverts_filter(
    raw: Seq<u8>,
    offset: int,
    image: Seq<u8>,
    stride: int,
    bpp: int,
    kinds: Seq<u8>,
    y: int,
    x: int,
)
    requires
        bpp >= 1,
        holds_filtered(raw, offset, image, stride, bpp, kinds),
        0 <= y < kinds.len(),
        0 <= x < stride,
    ensures
        recon(raw, offset, stride, bpp, y, x) == image[y * stride + x],
    decreases y, x,
{
    let above = (y - 1) * stride;
    assert(above == y * stride - stride) by (nonlinear_arith)
        requires
            above == (y - 1) * stride,
    ;
    let a = if x >= bpp {
        image[y * stride + x - bpp] as int
    } else {
        0
    };
    let b = if y >= 1 {
        image[above + x] as int
    } else {
        0
    };
    let c = if x >= bpp && y >= 1 {
        image[above + x - bpp] as int
    } else {
        0
    };
    if x >= bpp {
        lemma_recon_inverts_filter(raw, offset, image, stride, bpp, kinds, y, x - bpp);
        assert(recon(raw, offset, stride, bpp, y, x - bpp) == a);
    }
    if y >= 1 {
        lemma_recon_inverts_filter(raw, offset, image, stride, bpp, kinds, y - 1, x);
        assert(recon(raw, offset, stride, bpp, y - 1, x) == b);
        if x >= bpp {
            lemma_recon_inverts_filter(raw, offset, image, stride, bpp, kinds, y - 1, x - bpp);
            assert(recon(raw, offset, stride, bpp, y - 1, x - bpp) == c);
        }
    }
    let kind = kinds[y];
    let start = offset + y * (stride + 1);
    let predicted = predictor(kind, a, b, c);
    let orig = image[y * stride + x];
    let filtered = filter_byte(image, stride, bpp, kind, y, x);
    assert(filtered == raw[start + 1 + x]);
    assert(kind == raw[start]);
    assert(filtered == ((orig - predicted) % 256) as u8);
    lemma_add_back(orig as int, predicted);
    assert(recon(raw, offset, stride, bpp, y, x) == ((raw[start + 1 + x] + predicted) % 256) as u8);
}

/// Samples of 8 bits that are no palette indices expand to themselves.
pub proof fn lemma_expand_row_bytes(row: Seq<u8>, count: nat, plte: Seq<(u8, u8, u8, u8)>)
    requires
        count <= row.len(),
    ensures
        expand_row(row, count, 8, false, plte) == row.take(count as int),
    decreases count,
{
    if count > 0 {
        lemma_expand_row_bytes(row, (count - 1) as nat, plte);
        let sample = sample_at(row, 8, count - 1);
        assert(sample == row[count - 1]);
        assert(sample * depth_scale(8) == sample) by (nonlinear_arith)
            requires
                depth_scale(8) == 1,
        ;
        assert(expand_sample(sample, 8, false, plte) =~= seq![row[count - 1]]);
    }
    assert(expand_row(row, count, 8, false, plte) =~= row.take(count as int));
}

/// The first rows of an image that was filtered are decoded to the first
/// rows of the image.
proof fn lemma_rows_round_trip(
    raw: Seq<u8>,
    image: Seq<u8>,
    plte: Seq<(u8, u8, u8, u8)>,
    width: int,
    channels: int,
    kinds: Seq<u8>,
    rows: nat,
)
    requires
        0 <= width,
        1 <= channels <= 4,
        forall|y: int| 0 <= y < kinds.len() ==> #[trigger] kinds[y] <= 4,
        holds_filtered(raw, 0, image, width * channels, channels, kinds),
        rows <= kinds.len(),
    ensures
        image_rows(raw, plte, false, width, channels, 8, 0, rows) == Ok::<_, DecodeError>(
            image.take(rows * (width * channels)),
        ),
    decreases rows,
{
    let stride = width * channels;
    assert(0 <= stride) by (nonlinear_arith)
        requires
            0 <= width,
            1 <= channels,
            stride == width * channels,
    ;
    assert(row_bytes(width, channels, 8) == stride);
    if rows == 0 {
        assert(rows * stride == 0) by (nonlinear_arith)
            requires
                rows == 0,
        ;
        assert(image.take(0) =~= Seq::<u8>::empty());
    } else {
        let y = rows - 1;
        lemma_rows_round_trip(raw, image, plte, width, channels, kinds, y as nat);
        let row = recon_row(raw, 0, stride, channels, y);
        assert((y + 1) * stride == y * stride + stride) by (nonlinear_arith);
        assert(rows * stride <= kinds.len() * stride) by (nonlinear_arith)
            requires
                rows <= kinds.len(),
                0 <= stride,
        ;
        assert(0 <= y * stride) by (nonlinear_arith)
            requires
                0 <= y,
                0 <= stride,
        ;
        assert forall|x: int| 0 <= x < stride implies #[trigger] row[x] == image[y * stride + x] by {
            lemma_recon_inverts_filter(raw, 0, image, stride, channels, kinds, y, x);
        }
        assert(kinds[y] == raw[0 + y * (stride + 1)]);
        lemma_expand_row_bytes(row, stride as nat, plte);
        assert(row.take(stride) =~= row);
        assert(image.take(y * stride) + row =~= image.take(rows * stride));
    }
}

/// Filtering an image with the filter equations of the format, each row with
/// a filter of its own, and then undoing the filters gives back the image
/// byte for byte: for samples of 8 bits that are no palette indices.
pub proof fn lemma_filter_round_trip(
    raw: Seq<u8>,
    image: Seq<u8>,
    plte: Seq<(u8, u8, u8, u8)>,
    width: int,
    height: int,
    channels: int,
    kinds: Seq<u8>,
)
    requires
        0 <= width,
        1 <= channels <= 4,
        kinds.len() == height,
        forall|y: int| 0 <= y < kinds.len() ==> #[trigger] kinds[y] <= 4,
        holds_filtered(raw, 0, image, width * channels, channels, kinds),
    ensures
        reverse_filter_spec(raw, plte, false, width, height, channels, 8, 0) == Ok::<
            _,
            DecodeError,
        >(image),
{
    lemma_rows_round_trip(raw, image, plte, width, channels, kinds, height as nat);
    assert(row_bytes(width, channels, 8) == width * channels);
    assert(image.take(image.len() as int) =~= image);
}

/// The failures of undoing the filters: a layout that is not decoded, too
/// little data, a filter type that is not defined, and a pixel that points
/// outside the palette.
pub open spec fn pixel_error(e: DecodeError) -> bool {
    e == DecodeError::UnsupportedDepth || e == DecodeError::Truncated || e
        == DecodeError::BadFilter || e == DecodeError::MissingPalette
}

/// Decoding rows fails only for a filter type or for a palette index.
pub proof fn lemma_image_rows_errors(
    raw: Seq<u8>,
    plte: Seq<(u8, u8, u8, u8)>,
    indexed: bool,
    width: int,
    channels: int,
    depth: u8,
    offset: int,
    rows: nat,
)
    ensures
        image_rows(raw, plte, indexed, width, channels, depth, offset, rows) matches Err(e)
            ==> pixel_error(e),
    decreases rows,
{
    if rows > 0 {
        lemma_image_rows_errors(
            raw,
            plte,
            indexed,
            width,
            channels,
            depth,
            offset,
            (rows - 1) as nat,
        );
    }
}

/// Undoing the filters fails for what the data holds or for its early end,
/// and for nothing else.
pub proof fn lemma_reverse_filter_errors(
    raw: Seq<u8>,
    plte: Seq<(u8, u8, u8, u8)>,
    indexed: bool,
    width: int,
    height: int,
    channels: int,
    depth: u8,
    offset: int,
)
    ensures
        reverse_filter_spec(raw, plte, indexed, width, height, channels, depth, offset) matches Err(
            e,
        ) ==> pixel_error(e),
{
    lemma_image_rows_errors(raw, plte, indexed, width, channels, depth, offset, height as nat);
}

/// The number of bytes that one pixel takes in the decoded image.
pub open spec fn pixel_bytes(channels: int, indexed: bool) -> int {
    if indexed {
        4 * channels
    } else {
        channels
    }
}

/// The number of bytes that the samples of a row expand to.
pub proof fn lemma_expand_row_len(
    row: Seq<u8>,
    count: nat,
    depth: u8,
    indexed: bool,
    plte: Seq<(u8, u8, u8, u8)>,
)
    ensures
        expand_row(row, count, depth, indexed, plte).len() == count * (if indexed {
            4int
        } else {
            1
        }),
    decreases count,
{
    if count > 0 {
        lemma_expand_row_len(row, (count - 1) as nat, depth, indexed, plte);
    }
}

/// Rows that decode do so to as many bytes as their pixels take.
pub proof fn lemma_image_len(
    raw: Seq<u8>,
    plte: Seq<(u8, u8, u8, u8)>,
    indexed: bool,
    width: int,
    channels: int,
    depth: u8,
    offset: int,
    rows: nat,
)
    requires
        0 <= width,
        1 <= channels,
    ensures
        image_rows(raw, plte, indexed, width, channels, depth, offset, rows) matches Ok(pixels)
            ==> pixels.len() == rows * (width * pixel_bytes(channels, indexed)),
    decreases rows,
{
    let unit = width * pixel_bytes(channels, indexed);
    if rows > 0 {
        lemma_image_len(raw, plte, indexed, width, channels, depth, offset, (rows - 1) as nat);
        let stride = row_bytes(width, channels, depth as int);
        let row = recon_row(raw, offset, stride, channels, rows - 1);
        let count = width * channels;
        assert(count >= 0) by (nonlinear_arith)
            requires
                count == width * channels,
                0 <= width,
                1 <= channels,
        ;
        lemma_expand_row_len(row, count as nat, depth, indexed, plte);
        if indexed {
            assert(count * 4 == width * (4 * channels)) by (nonlinear_arith)
                requires
                    count == width * channels,
            ;
        } else {
            assert(count * 1 == width * channels) by (nonlinear_arith)
                requires
                    count == width * channels,
            ;
        }
        assert(rows * unit == (rows - 1) * unit + unit) by (nonlinear_arith);
        match image_rows(raw, plte, indexed, width, channels, depth, offset, rows) {
            Ok(pixels) => {
                let above = image_rows(
                    raw,
                    plte,
                    indexed,
                    width,
                    channels,
                    depth,
                    offset,
                    (rows - 1) as nat,
                )->Ok_0;
                assert(pixels == above + expand_row(
                    row,
                    count as nat,
                    depth,
                    indexed,
                    plte,
                ));
                assert(above.len() == (rows - 1) * unit);
                assert(pixels.len() == (rows - 1) * unit + unit);
            },
            Err(_) => {},
        }
    } else {
        assert(0 * unit == 0);
    }
}

/// An image that decodes does so to as many bytes as its pixels take.
pub proof fn lemma_reverse_filter_len(
    raw: Seq<u8>,
    plte: Seq<(u8, u8, u8, u8)>,
    indexed: bool,
    width: int,
    height: int,
    channels: int,
    depth: u8,
    offset: int,
)
    requires
        0 <= width,
        0 <= height,
    ensures
        reverse_filter_spec(raw, plte, indexed, width, height, channels, depth, offset) matches Ok(
            pixels,
        ) ==> pixels.len() == height * (width * pixel_bytes(channels, indexed)),
{
    if layout_supported(channels, depth) {
        lemma_image_len(raw, plte, indexed, width, channels, depth, offset, height as nat);
    }
}

} // verus!
