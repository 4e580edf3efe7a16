//! The seven passes of Adam7 interlacing, and the assembly of an image from
//! them.

use crate::error::DecodeError;
use crate::filter::{
    layout_supported, lemma_image_len, lemma_reverse_filter_errors, lemma_reverse_filter_len,
    pixel_bytes, pixel_error, reverse_filter, reverse_filter_spec, row_bytes,
};
use vstd::arithmetic::div_mod::{
    lemma_div_is_ordered, lemma_div_multiples_vanish, lemma_div_pos_is_pos,
    lemma_fundamental_div_mod, lemma_mod_bound, lemma_mod_mod, lemma_mod_multiples_basic,
};
use vstd::prelude::*;

verus! {

/// The first row of each pass.
pub const STARTING_ROW: [u32; 7] = [0, 0, 4, 0, 2, 0, 1];

/// The first column of each pass.
pub const STARTING_COL: [u32; 7] = [0, 4, 0, 2, 0, 1, 0];

/// The distance between two rows of each pass.
pub const ROW_INCREMENT: [u32; 7] = [8, 8, 8, 4, 4, 2, 2];

/// The distance between two columns of each pass.
pub const COL_INCREMENT: [u32; 7] = [8, 8, 4, 4, 2, 2, 1];

/// The number of columns of an image of `width` columns that fall to `pass`.
pub open spec fn pass_width(width: int, pass: int) -> int {
    (width - STARTING_COL[pass] + COL_INCREMENT[pass] - 1) / (COL_INCREMENT[pass] as int)
}

/// The number of rows of an image of `height` rows that fall to `pass`.
pub open spec fn pass_height(height: int, pass: int) -> int {
    (height - STARTING_ROW[pass] + ROW_INCREMENT[pass] - 1) / (ROW_INCREMENT[pass] as int)
}

/// The pixel in column `x` and row `y` belongs to `pass`.
pub open spec fn in_pass(pass: int, x: int, y: int) -> bool {
    &&& x >= STARTING_COL[pass]
    &&& (x - STARTING_COL[pass]) % (COL_INCREMENT[pass] as int) == 0
    &&& y >= STARTING_ROW[pass]
    &&& (y - STARTING_ROW[pass]) % (ROW_INCREMENT[pass] as int) == 0
}

/// The pass that the pixel in column `x` and row `y` belongs to.
pub open spec fn pass_of(x: int, y: int) -> int {
    if y % 8 == 0 && x % 8 == 0 {
        0
    } else if y % 8 == 0 && x % 8 == 4 {
        1
    } else if y % 8 == 4 && x % 4 == 0 {
        2
    } else if y % 4 == 0 && x % 4 == 2 {
        3
    } else if y % 4 == 2 && x % 2 == 0 {
        4
    } else if y % 2 == 0 {
        5
    } else {
        6
    }
}

/// The numbers of the seven passes, spelled out.
pub proof fn lemma_pass_constants()
    ensures
        STARTING_COL[0] == 0 && STARTING_ROW[0] == 0 && COL_INCREMENT[0] == 8 && ROW_INCREMENT[0]
            == 8,
        STARTING_COL[1] == 4 && STARTING_ROW[1] == 0 && COL_INCREMENT[1] == 8 && ROW_INCREMENT[1]
            == 8,
        STARTING_COL[2] == 0 && STARTING_ROW[2] == 4 && COL_INCREMENT[2] == 4 && ROW_INCREMENT[2]
            == 8,
        STARTING_COL[3] == 2 && STARTING_ROW[3] == 0 && COL_INCREMENT[3] == 4 && ROW_INCREMENT[3]
            == 4,
        STARTING_COL[4] == 0 && STARTING_ROW[4] == 2 && COL_INCREMENT[4] == 2 && ROW_INCREMENT[4]
            == 4,
        STARTING_COL[5] == 1 && STARTING_ROW[5] == 0 && COL_INCREMENT[5] == 2 && ROW_INCREMENT[5]
            == 2,
        STARTING_COL[6] == 0 && STARTING_ROW[6] == 1 && COL_INCREMENT[6] == 1 && ROW_INCREMENT[6]
            == 2,
{
}

/// The remainders of a number by 2, by 4 and by 8 go together.
proof fn lemma_remainders(x: int)
    requires
        0 <= x,
    ensures
        x % 4 == (x % 8) % 4,
        x % 2 == (x % 8) % 2,
        x % 2 == (x % 4) % 2,
        0 <= x % 8 < 8,
{
    lemma_mod_mod(x, 4, 2);
    lemma_mod_mod(x, 2, 4);
    lemma_mod_mod(x, 2, 2);
    assert(4 * 2 == 8 && 2 * 4 == 8 && 2 * 2 == 4);
}

/// What it means to belong to each of the seven passes, in remainders.
proof fn lemma_in_pass(x: int, y: int)
    requires
        0 <= x,
        0 <= y,
    ensures
        in_pass(0, x, y) <==> x % 8 == 0 && y % 8 == 0,
        in_pass(1, x, y) <==> x % 8 == 4 && y % 8 == 0,
        in_pass(2, x, y) <==> x % 4 == 0 && y % 8 == 4,
        in_pass(3, x, y) <==> x % 4 == 2 && y % 4 == 0,
        in_pass(4, x, y) <==> x % 2 == 0 && y % 4 == 2,
        in_pass(5, x, y) <==> x % 2 == 1 && y % 2 == 0,
        in_pass(6, x, y) <==> y % 2 == 1,
{
    lemma_pass_constants();
    assert(x >= 4 ==> ((x - 4) % 8 == 0 <==> x % 8 == 4));
    assert(x < 4 ==> x % 8 != 4);
    assert(y >= 4 ==> ((y - 4) % 8 == 0 <==> y % 8 == 4));
    assert(y < 4 ==> y % 8 != 4);
    assert(x >= 2 ==> ((x - 2) % 4 == 0 <==> x % 4 == 2));
    assert(x < 2 ==> x % 4 != 2);
    assert(y >= 2 ==> ((y - 2) % 4 == 0 <==> y % 4 == 2));
    assert(y < 2 ==> y % 4 != 2);
    assert(x >= 1 ==> ((x - 1) % 2 == 0 <==> x % 2 == 1));
    assert(x < 1 ==> x % 2 != 1);
    assert(y >= 1 ==> ((y - 1) % 2 == 0 <==> y % 2 == 1));
    assert(y < 1 ==> y % 2 != 1);
    assert(x % 1 == 0);
}

/// Every pixel belongs to exactly one of the seven passes.
pub proof fn lemma_one_pass(x: int, y: int)
    requires
        0 <= x,
        0 <= y,
    ensures
        0 <= pass_of(x, y) < 7,
        in_pass(pass_of(x, y), x, y),
        forall|p: int| 0 <= p < 7 && in_pass(p, x, y) ==> p == pass_of(x, y),
{
    lemma_in_pass(x, y);
    lemma_remainders(x);
    lemma_remainders(y);
    assert forall|p: int| 0 <= p < 7 && in_pass(p, x, y) implies p == pass_of(x, y) by {
        if p == 0 {
        } else if p == 1 {
        } else if p == 2 {
        } else if p == 3 {
        } else if p == 4 {
        } else if p == 5 {
        } else {
            assert(p == 6);
        }
    }
}

/// A pixel of the image has, within its pass, a column and a row inside the
/// pass's share of the image.
pub proof fn lemma_pass_position(width: int, height: int, x: int, y: int)
    requires
        0 <= x < width,
        0 <= y < height,
    ensures
        ({
            let p = pass_of(x, y);
            &&& 0 <= (x - STARTING_COL[p]) / (COL_INCREMENT[p] as int) < pass_width(width, p)
            &&& 0 <= (y - STARTING_ROW[p]) / (ROW_INCREMENT[p] as int) < pass_height(height, p)
        }),
{
    lemma_pass_constants();
    lemma_one_pass(x, y);
    let p = pass_of(x, y);
    lemma_share(width, x, STARTING_COL[p] as int, COL_INCREMENT[p] as int);
    lemma_share(height, y, STARTING_ROW[p] as int, ROW_INCREMENT[p] as int);
}

/// Of the positions `start`, `start + step`, ... the one at `x` has its
/// number below the count of those that lie below `size`.
proof fn lemma_share(size: int, x: int, start: int, step: int)
    requires
        0 <= start < step,
        start <= x < size,
        (x - start) % step == 0,
    ensures
        0 <= (x - start) / step < (size - start + step - 1) / step,
{
    let q = (x - start) / step;
    lemma_fundamental_div_mod(x - start, step);
    lemma_div_pos_is_pos(x - start, step);
    assert(x - start == step * q);
    // size - start + step - 1 >= step * q + step = step * (q + 1)
    assert(step * (q + 1) == step * q + step) by (nonlinear_arith);
    lemma_div_is_ordered(
        step * (q + 1),
        size - start + step - 1,
        step,
    );
    lemma_div_multiples_vanish(q + 1, step);
    assert(step * (q + 1) == (q + 1) * step) by (nonlinear_arith);
}

/// Position number `i` of those that lie below `size` does lie below it.
proof fn lemma_share_inside(size: int, i: int, start: int, step: int)
    requires
        0 <= start < step,
        0 <= i < (size - start + step - 1) / step,
    ensures
        start <= start + i * step < size,
        (start + i * step - start) % step == 0,
        (start + i * step - start) / step == i,
{
    let n = (size - start + step - 1) / step;
    lemma_fundamental_div_mod(size - start + step - 1, step);
    lemma_mod_bound(size - start + step - 1, step);
    // step * n <= size - start + step - 1
    assert(step * (i + 1) <= step * n) by (nonlinear_arith)
        requires
            i + 1 <= n,
            step > 0,
    ;
    assert(step * (i + 1) == i * step + step) by (nonlinear_arith);
    assert(i * step >= 0) by (nonlinear_arith)
        requires
            i >= 0,
            step > 0,
    ;
    lemma_mod_multiples_basic(i, step);
    lemma_div_multiples_vanish(i, step);
}

/// Column `i` and row `j` of a pass's share lie inside the image, at a pixel
/// of that pass.
pub proof fn lemma_pass_pixel_inside(width: int, height: int, pass: int, i: int, j: int)
    requires
        0 <= pass < 7,
        0 <= i < pass_width(width, pass),
        0 <= j < pass_height(height, pass),
    ensures
        ({
            let x = STARTING_COL[pass] + i * COL_INCREMENT[pass];
            let y = STARTING_ROW[pass] + j * ROW_INCREMENT[pass];
            &&& 0 <= x < width
            &&& 0 <= y < height
            &&& pass_of(x, y) == pass
            &&& (x - STARTING_COL[pass]) / (COL_INCREMENT[pass] as int) == i
            &&& (y - STARTING_ROW[pass]) / (ROW_INCREMENT[pass] as int) == j
        }),
{
    lemma_pass_constants();
    let x = STARTING_COL[pass] + i * COL_INCREMENT[pass];
    let y = STARTING_ROW[pass] + j * ROW_INCREMENT[pass];
    lemma_share_inside(width, i, STARTING_COL[pass] as int, COL_INCREMENT[pass] as int);
    lemma_share_inside(height, j, STARTING_ROW[pass] as int, ROW_INCREMENT[pass] as int);
    assert(in_pass(pass, x, y));
    lemma_one_pass(x, y);
}

/// The number of bytes that `pass` takes in the decompressed data: nothing
/// where the pass is empty.
pub open spec fn pass_size(width: int, height: int, channels: int, depth: u8, pass: int) -> int {
    let w = pass_width(width, pass);
    let h = pass_height(height, pass);
    if w == 0 || h == 0 {
        0
    } else {
        h * (row_bytes(w, channels, depth as int) + 1)
    }
}

/// Where the rows of `pass` start in the decompressed data.
pub open spec fn pass_offset(width: int, height: int, channels: int, depth: u8, pass: int) -> int
    decreases pass,
{
    if pass <= 0 {
        0
    } else {
        pass_offset(width, height, channels, depth, pass - 1) + pass_size(
            width,
            height,
            channels,
            depth,
            pass - 1,
        )
    }
}

/// The pixels of `pass`, as an image of its own.
pub open spec fn pass_pixels(
    raw: Seq<u8>,
    plte: Seq<(u8, u8, u8, u8)>,
    indexed: bool,
    width: int,
    height: int,
    channels: int,
    depth: u8,
    pass: int,
) -> Result<Seq<u8>, DecodeError> {
    let w = pass_width(width, pass);
    let h = pass_height(height, pass);
    if w == 0 || h == 0 {
        Ok(Seq::empty())
    } else {
        reverse_filter_spec(
            raw,
            plte,
            indexed,
            w,
            h,
            channels,
            depth,
            pass_offset(width, height, channels, depth, pass),
        )
    }
}

/// The pixels of the first `upto` passes. The first pass at fault decides the
/// error.
pub open spec fn sub_images(
    raw: Seq<u8>,
    plte: Seq<(u8, u8, u8, u8)>,
    indexed: bool,
    width: int,
    height: int,
    channels: int,
    depth: u8,
    upto: int,
) -> Result<Seq<Seq<u8>>, DecodeError>
    decreases upto,
{
    if upto <= 0 {
        Ok(Seq::empty())
    } else {
        match sub_images(raw, plte, indexed, width, height, channels, depth, upto - 1) {
            Err(e) => Err(e),
            Ok(subs) => match pass_pixels(
                raw,
                plte,
                indexed,
                width,
                height,
                channels,
                depth,
                upto - 1,
            ) {
                Err(e) => Err(e),
                Ok(p) => Ok(subs.push(p)),
            },
        }
    }
}

/// The bytes of the pixel in column `x` and row `y` of the image: those of the
/// pixel that its pass holds for it.
pub open spec fn placed_pixel(subs: Seq<Seq<u8>>, width: int, size: int, x: int, y: int) -> Seq<
    u8,
> {
    let p = pass_of(x, y);
    let i = (x - STARTING_COL[p]) / (COL_INCREMENT[p] as int);
    let j = (y - STARTING_ROW[p]) / (ROW_INCREMENT[p] as int);
    let at = j * pass_width(width, p) + i;
    subs[p].subrange(at * size, (at + 1) * size)
}

/// The first `upto` pixels of row `y` of the image.
pub open spec fn placed_row(subs: Seq<Seq<u8>>, width: int, size: int, y: int, upto: nat) -> Seq<
    u8,
>
    decreases upto,
{
    if upto == 0 {
        Seq::empty()
    } else {
        placed_row(subs, width, size, y, (upto - 1) as nat) + placed_pixel(
            subs,
            width,
            size,
            upto - 1,
            y,
        )
    }
}

/// The first `upto` rows of the image.
pub open spec fn placed_rows(subs: Seq<Seq<u8>>, width: int, size: int, upto: nat) -> Seq<u8>
    decreases upto,
{
    if upto == 0 {
        Seq::empty()
    } else {
        placed_rows(subs, width, size, (upto - 1) as nat) + placed_row(
            subs,
            width,
            size,
            upto - 1,
            width as nat,
        )
    }
}

/// The pixels of an interlaced image: each pass is decoded as an image of its
/// own, and each pixel of the whole is taken from the one pass that it belongs
/// to.
pub open spec fn deinterlace_spec(
    raw: Seq<u8>,
    plte: Seq<(u8, u8, u8, u8)>,
    indexed: bool,
    width: int,
    height: int,
    channels: int,
    depth: u8,
) -> Result<Seq<u8>, DecodeError> {
    if !layout_supported(channels, depth) {
        Err(DecodeError::UnsupportedDepth)
    } else {
        match sub_images(raw, plte, indexed, width, height, channels, depth, 7) {
            Err(e) => Err(e),
            Ok(subs) => Ok(placed_rows(subs, width, pixel_bytes(channels, indexed), height as nat)),
        }
    }
}

/// The pass that the pixel in column `x` and row `y` belongs to.
pub fn pass_index(x: u32, y: u32) -> (p: usize)
    ensures
        p == pass_of(x as int, y as int),
        p < 7,
{
    if y % 8 == 0 && x % 8 == 0 {
        0
    } else if y % 8 == 0 && x % 8 == 4 {
        1
    } else if y % 8 == 4 && x % 4 == 0 {
        2
    } else if y % 4 == 0 && x % 4 == 2 {
        3
    } else if y % 4 == 2 && x % 2 == 0 {
        4
    } else if y % 2 == 0 {
        5
    } else {
        6
    }
}

/// The width and the height of the share that `pass` has of an image.
pub fn pass_dimensions(width: u32, height: u32, pass: usize) -> (r: (u32, u32))
    requires
        pass < 7,
    ensures
        r.0 == pass_width(width as int, pass as int),
        r.1 == pass_height(height as int, pass as int),
        r.0 <= width,
        r.1 <= height,
{
    proof {
        lemma_pass_constants();
    }
    let sc: u64 = STARTING_COL[pass] as u64;
    let cs: u64 = COL_INCREMENT[pass] as u64;
    let sr: u64 = STARTING_ROW[pass] as u64;
    let rs: u64 = ROW_INCREMENT[pass] as u64;
    assert(sc < cs <= 8 && sr < rs <= 8) by {
        if pass == 0 {
        } else if pass == 1 {
        } else if pass == 2 {
        } else if pass == 3 {
        } else if pass == 4 {
        } else if pass == 5 {
        } else {
        }
    }
    let w: u64 = (width as u64 + cs - 1 - sc) / cs;
    let h: u64 = (height as u64 + rs - 1 - sr) / rs;
    assert(w <= width && h <= height) by {
        if pass == 0 {
        } else if pass == 1 {
        } else if pass == 2 {
        } else if pass == 3 {
        } else if pass == 4 {
        } else if pass == 5 {
        } else {
        }
    }
    (w as u32, h as u32)
}

/// Appends to `out` the pixel in column `x` and row `y` of the image, taken
/// from the pass that it belongs to.
fn place_pixel(subs: &Vec<Vec<u8>>, width: u32, height: u32, size: usize, x: u32, y: u32, out: &mut Vec<u8>)
    requires
        x < width,
        y < height,
        1 <= size <= 16,
        subs.len() == 7,
        forall|p: int|
            0 <= p < 7 ==> (#[trigger] subs[p]).len() == pass_height(height as int, p) * (
            pass_width(width as int, p) * size),
    ensures
        final(out)@ == old(out)@ + placed_pixel(
            Seq::new(7, |p: int| subs[p]@),
            width as int,
            size as int,
            x as int,
            y as int,
        ),
{
    let p = pass_index(x, y);
    let (w, h) = pass_dimensions(width, height, p);
    proof {
        lemma_pass_constants();
        lemma_one_pass(x as int, y as int);
    }
    let i = (x - STARTING_COL[p]) / COL_INCREMENT[p];
    let j = (y - STARTING_ROW[p]) / ROW_INCREMENT[p];
    let sub = &subs[p];
    proof {
        lemma_pass_position(width as int, height as int, x as int, y as int);
        assert(sub.len() == h * (w * size));
        assert((j * w + i + 1) * size <= h * (w * size)) by (nonlinear_arith)
            requires
                0 <= i < w,
                0 <= j < h,
                size >= 1,
        ;
        assert(0 <= (j * w + i) * size) by (nonlinear_arith)
            requires
                0 <= i,
                0 <= j,
                0 <= w,
                size >= 1,
        ;
        assert((j * w + i + 1) * size == (j * w + i) * size + size) by (nonlinear_arith);
        assert(0 <= j * w + i <= (j * w + i) * size) by (nonlinear_arith)
            requires
                0 <= i,
                0 <= j,
                0 <= w,
                size >= 1,
        ;
        assert(0 <= j * w <= j * w + i) by (nonlinear_arith)
            requires
                0 <= i,
                0 <= j,
                0 <= w,
        ;
    }
    let at: usize = j as usize * w as usize + i as usize;
    let from: usize = at * size;
    let ghost start = out@;
    let ghost pixel = sub@.subrange(from as int, from + size);
    let mut c: usize = 0;
    while c < size
        invariant
            c <= size,
            from + size <= sub.len(),
            pixel == sub@.subrange(from as int, from + size),
            out@ == start + pixel.take(c as int),
        decreases size - c,
    {
        out.push(sub[from + c]);
        proof {
            assert(out@ =~= start + pixel.take(c + 1));
        }
        c = c + 1;
    }
    proof {
        assert(pixel.take(size as int) =~= pixel);
        assert(Seq::new(7, |p: int| subs[p]@)[p as int] == sub@);
    }
}

/// Decodes an interlaced image from its decompressed data: the seven passes
/// one after the other, each as an image of its own, and then every pixel of
/// the whole from the pass that holds it.
pub fn deinterlace(
    decoded: &[u8],
    plte: &Vec<(u8, u8, u8, u8)>,
    indexed: bool,
    width: u32,
    height: u32,
    channels: usize,
    depth: u8,
) -> (r: Result<Vec<u8>, DecodeError>)
    ensures
        match deinterlace_spec(
            decoded@,
            plte@,
            indexed,
            width as int,
            height as int,
            channels as int,
            depth,
        ) {
            Ok(pixels) => r is Ok && r->Ok_0@ == pixels,
            Err(e) => r == Err::<Vec<u8>, _>(e),
        },
{
    if !(1 <= channels && channels <= 4 && (depth == 8 || (channels == 1 && (depth == 1 || depth
        == 2 || depth == 4)))) {
        return Err(DecodeError::UnsupportedDepth);
    }
    let ghost raw = decoded@;
    let size: usize = if indexed {
        4 * channels
    } else {
        channels
    };
    let mut subs: Vec<Vec<u8>> = Vec::new();
    let mut offset: usize = 0;
    let mut pass: usize = 0;
    proof {
        assert(Seq::new(0, |p: int| subs[p]@) =~= Seq::<Seq<u8>>::empty());
    }
    while pass < 7
        invariant
            layout_supported(channels as int, depth),
            raw == decoded@,
            size == pixel_bytes(channels as int, indexed),
            pass <= 7,
            subs.len() == pass,
            offset == pass_offset(width as int, height as int, channels as int, depth, pass as int),
            offset <= decoded.len(),
            sub_images(
                raw,
                plte@,
                indexed,
                width as int,
                height as int,
                channels as int,
                depth,
                pass as int,
            ) == Ok::<_, DecodeError>(Seq::new(pass as nat, |p: int| subs[p]@)),
            forall|p: int|
                0 <= p < pass ==> (#[trigger] subs[p]).len() == pass_height(height as int, p) * (
                pass_width(width as int, p) * size),
        decreases 7 - pass,
    {
        let (w, h) = pass_dimensions(width, height, pass);
        let ghost before = Seq::new(pass as nat, |p: int| subs[p]@);
        let mut pixels: Vec<u8> = Vec::new();
        if w != 0 && h != 0 {
            pixels = match reverse_filter(decoded, plte, indexed, w, h, channels, depth, offset) {
                Err(e) => {
                    proof {
                        lemma_sub_images_error(
                            raw,
                            plte@,
                            indexed,
                            width as int,
                            height as int,
                            channels as int,
                            depth,
                            pass + 1,
                            7,
                        );
                    }
                    return Err(e);
                },
                Ok(v) => v,
            };
            proof {
                lemma_image_len(
                    raw,
                    plte@,
                    indexed,
                    w as int,
                    channels as int,
                    depth,
                    offset as int,
                    h as nat,
                );
                assert(0 <= w * channels <= 0xffff_ffff * 4) by (nonlinear_arith)
                    requires
                        0 <= w <= 0xffff_ffff,
                        1 <= channels <= 4,
                ;
                assert(0 <= (w * channels) * depth <= 0xffff_ffff * 4 * 8) by (nonlinear_arith)
                    requires
                        0 <= w * channels <= 0xffff_ffff * 4,
                        1 <= depth <= 8,
                ;
            }
            let stride64: u64 = (w as u64 * channels as u64 * depth as u64 + 7) / 8;
            proof {
                assert(0 <= h * (stride64 + 1) <= 0xffff_ffff * 0x4_0000_0000) by (nonlinear_arith)
                    requires
                        0 <= h <= 0xffff_ffff,
                        0 <= stride64 + 1 <= 0x4_0000_0000,
                ;
            }
            let used: u128 = h as u128 * (stride64 as u128 + 1);
            offset = offset + used as usize;
        } else {
            proof {
                assert(0 == pass_height(height as int, pass as int) * (pass_width(
                    width as int,
                    pass as int,
                ) * size)) by (nonlinear_arith)
                    requires
                        pass_height(height as int, pass as int) == 0 || pass_width(
                            width as int,
                            pass as int,
                        ) == 0,
                ;
            }
        }
        subs.push(pixels);
        proof {
            assert(Seq::new((pass + 1) as nat, |p: int| subs[p]@) =~= before.push(pixels@));
        }
        pass = pass + 1;
    }
    let ghost views = Seq::new(7, |p: int| subs[p]@);
    let mut out: Vec<u8> = Vec::new();
    let mut y: u32 = 0;
    while y < height
        invariant
            1 <= size <= 16,
            subs.len() == 7,
            views == Seq::new(7, |p: int| subs[p]@),
            forall|p: int|
                0 <= p < 7 ==> (#[trigger] subs[p]).len() == pass_height(height as int, p) * (
                pass_width(width as int, p) * size),
            y <= height,
            out@ == placed_rows(views, width as int, size as int, y as nat),
        decreases height - y,
    {
        let ghost above = out@;
        let mut x: u32 = 0;
        while x < width
            invariant
                1 <= size <= 16,
                subs.len() == 7,
                views == Seq::new(7, |p: int| subs[p]@),
                forall|p: int|
                    0 <= p < 7 ==> (#[trigger] subs[p]).len() == pass_height(height as int, p)
                        * (pass_width(width as int, p) * size),
                y < height,
                x <= width,
                out@ == above + placed_row(views, width as int, size as int, y as int, x as nat),
            decreases width - x,
        {
            place_pixel(&subs, width, height, size, x, y, &mut out);
            proof {
                assert(out@ =~= above + placed_row(
                    views,
                    width as int,
                    size as int,
                    y as int,
                    (x + 1) as nat,
                ));
            }
            x = x + 1;
        }
        y = y + 1;
    }
    Ok(out)
}

/// An error in the first passes is the error of the whole image.
proof fn lemma_sub_images_error(
    raw: Seq<u8>,
    plte: Seq<(u8, u8, u8, u8)>,
    indexed: bool,
    width: int,
    height: int,
    channels: int,
    depth: u8,
    upto: int,
    all: int,
)
    requires
        upto <= all,
        sub_images(raw, plte, indexed, width, height, channels, depth, upto) is Err,
    ensures
        sub_images(raw, plte, indexed, width, height, channels, depth, all) == sub_images(
            raw,
            plte,
            indexed,
            width,
            height,
            channels,
            depth,
            upto,
        ),
    decreases all,
{
    if upto < all {
        lemma_sub_images_error(raw, plte, indexed, width, height, channels, depth, upto, all - 1);
    }
}

/// Decoding the passes fails only as undoing the filters does.
pub proof fn lemma_sub_images_errors(
    raw: Seq<u8>,
    plte: Seq<(u8, u8, u8, u8)>,
    indexed: bool,
    width: int,
    height: int,
    channels: int,
    depth: u8,
    upto: int,
)
    ensures
        sub_images(raw, plte, indexed, width, height, channels, depth, upto) matches Err(e)
            ==> pixel_error(e),
    decreases upto,
{
    if upto > 0 {
        lemma_sub_images_errors(raw, plte, indexed, width, height, channels, depth, upto - 1);
        lemma_reverse_filter_errors(
            raw,
            plte,
            indexed,
            pass_width(width, upto - 1),
            pass_height(height, upto - 1),
            channels,
            depth,
            pass_offset(width, height, channels, depth, upto - 1),
        );
    }
}

/// Decoding an interlaced image fails only as undoing the filters does.
pub proof fn lemma_deinterlace_errors(
    raw: Seq<u8>,
    plte: Seq<(u8, u8, u8, u8)>,
    indexed: bool,
    width: int,
    height: int,
    channels: int,
    depth: u8,
)
    ensures
        deinterlace_spec(raw, plte, indexed, width, height, channels, depth) matches Err(e)
            ==> pixel_error(e),
{
    lemma_sub_images_errors(raw, plte, indexed, width, height, channels, depth, 7);
}

/// The passes that decode do so to as many bytes as their pixels take.
pub proof fn lemma_sub_images_len(
    raw: Seq<u8>,
    plte: Seq<(u8, u8, u8, u8)>,
    indexed: bool,
    width: int,
    height: int,
    channels: int,
    depth: u8,
    upto: int,
)
    requires
        0 <= width,
        0 <= height,
        1 <= channels,
        0 <= upto <= 7,
    ensures
        sub_images(raw, plte, indexed, width, height, channels, depth, upto) matches Ok(subs)
            ==> subs.len() == upto && forall|p: int|
            0 <= p < upto ==> (#[trigger] subs[p]).len() == pass_height(height, p) * (pass_width(
                width,
                p,
            ) * pixel_bytes(channels, indexed)),
    decreases upto,
{
    if upto > 0 {
        let pass = upto - 1;
        lemma_sub_images_len(raw, plte, indexed, width, height, channels, depth, pass);
        lemma_pass_constants();
        let w = pass_width(width, pass);
        let h = pass_height(height, pass);
        let size = pixel_bytes(channels, indexed);
        if w == 0 || h == 0 {
            assert(h * (w * size) == 0) by (nonlinear_arith)
                requires
                    w == 0 || h == 0,
            ;
        } else {
            lemma_reverse_filter_len(
                raw,
                plte,
                indexed,
                w,
                h,
                channels,
                depth,
                pass_offset(width, height, channels, depth, pass),
            );
        }
    }
}

/// A pixel that is taken from its pass has the bytes of one pixel.
proof fn lemma_placed_pixel_len(
    subs: Seq<Seq<u8>>,
    width: int,
    height: int,
    size: int,
    x: int,
    y: int,
)
    requires
        0 <= x < width,
        0 <= y < height,
        1 <= size,
        subs.len() == 7,
        forall|p: int|
            0 <= p < 7 ==> (#[trigger] subs[p]).len() == pass_height(height, p) * (pass_width(
                width,
                p,
            ) * size),
    ensures
        placed_pixel(subs, width, size, x, y).len() == size,
{
    lemma_pass_constants();
    lemma_one_pass(x, y);
    lemma_pass_position(width, height, x, y);
    let p = pass_of(x, y);
    let i = (x - STARTING_COL[p]) / (COL_INCREMENT[p] as int);
    let j = (y - STARTING_ROW[p]) / (ROW_INCREMENT[p] as int);
    let w = pass_width(width, p);
    let h = pass_height(height, p);
    let at = j * w + i;
    assert(subs[p].len() == h * (w * size));
    assert((at + 1) * size <= h * (w * size)) by (nonlinear_arith)
        requires
            at == j * w + i,
            0 <= i < w,
            0 <= j < h,
            size >= 1,
    ;
    assert(0 <= at * size) by (nonlinear_arith)
        requires
            at == j * w + i,
            0 <= i,
            0 <= j,
            0 <= w,
            size >= 1,
    ;
    assert((at + 1) * size == at * size + size) by (nonlinear_arith);
}

/// The first pixels of a row take as many bytes as they are pixels.
proof fn lemma_placed_row_len(
    subs: Seq<Seq<u8>>,
    width: int,
    height: int,
    size: int,
    y: int,
    upto: nat,
)
    requires
        upto <= width,
        0 <= y < height,
        1 <= size,
        subs.len() == 7,
        forall|p: int|
            0 <= p < 7 ==> (#[trigger] subs[p]).len() == pass_height(height, p) * (pass_width(
                width,
                p,
            ) * size),
    ensures
        placed_row(subs, width, size, y, upto).len() == upto * size,
    decreases upto,
{
    if upto > 0 {
        lemma_placed_row_len(subs, width, height, size, y, (upto - 1) as nat);
        lemma_placed_pixel_len(subs, width, height, size, upto - 1, y);
        assert(upto * size == (upto - 1) * size + size) by (nonlinear_arith);
    } else {
        assert(upto * size == 0) by (nonlinear_arith)
            requires
                upto == 0,
        ;
    }
}

/// The first rows of an image take as many bytes as their pixels do.
proof fn lemma_placed_rows_len(
    subs: Seq<Seq<u8>>,
    width: int,
    height: int,
    size: int,
    upto: nat,
)
    requires
        0 <= width,
        upto <= height,
        1 <= size,
        subs.len() == 7,
        forall|p: int|
            0 <= p < 7 ==> (#[trigger] subs[p]).len() == pass_height(height, p) * (pass_width(
                width,
                p,
            ) * size),
    ensures
        placed_rows(subs, width, size, upto).len() == upto * (width * size),
    decreases upto,
{
    if upto > 0 {
        lemma_placed_rows_len(subs, width, height, size, (upto - 1) as nat);
        lemma_placed_row_len(subs, width, height, size, upto - 1, width as nat);
        assert(upto * (width * size) == (upto - 1) * (width * size) + width * size)
            by (nonlinear_arith);
    } else {
        assert(upto * (width * size) == 0) by (nonlinear_arith)
            requires
                upto == 0,
        ;
    }
}

/// An interlaced image that decodes does so to as many bytes as its pixels
/// take.
pub proof fn lemma_deinterlace_len(
    raw: Seq<u8>,
    plte: Seq<(u8, u8, u8, u8)>,
    indexed: bool,
    width: int,
    height: int,
    channels: int,
    depth: u8,
)
    requires
        0 <= width,
        0 <= height,
    ensures
        deinterlace_spec(raw, plte, indexed, width, height, channels, depth) matches Ok(pixels)
            ==> pixels.len() == height * (width * pixel_bytes(channels, indexed)),
{
    if layout_supported(channels, depth) {
        lemma_sub_images_len(raw, plte, indexed, width, height, channels, depth, 7);
        if let Ok(subs) = sub_images(raw, plte, indexed, width, height, channels, depth, 7) {
            lemma_placed_rows_len(
                subs,
                width,
                height,
                pixel_bytes(channels, indexed),
                height as nat,
            );
        }
    }
}

} // verus!
