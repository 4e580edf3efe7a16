//! A decoded image as the text of a plain pixmap, one pixel a line, each
//! with its alpha value.

use crate::png::{pixel_size, ColourType};
use vstd::prelude::*;

verus! {

/// The decimal digits of a number, as characters.
pub open spec fn digits(n: nat) -> Seq<u8>
    decreases n,
{
    if n < 10 {
        seq![(48 + n) as u8]
    } else {
        digits(n / 10).push((48 + n % 10) as u8)
    }
}

/// Red, green, blue and alpha of pixel `i`: a grey level stands for all three
/// colours, and a pixel without alpha is opaque.
pub open spec fn pixel_values(colour: ColourType, data: Seq<u8>, i: int) -> (u8, u8, u8, u8) {
    match colour {
        ColourType::Grayscale => (data[i], data[i], data[i], 255),
        ColourType::GrayscaleAlpha => (data[2 * i], data[2 * i], data[2 * i], data[2 * i + 1]),
        ColourType::TrueColour => (data[3 * i], data[3 * i + 1], data[3 * i + 2], 255),
        _ => (data[4 * i], data[4 * i + 1], data[4 * i + 2], data[4 * i + 3]),
    }
}

/// The line of a pixel: its four values with a space between them.
pub open spec fn pixel_line(p: (u8, u8, u8, u8)) -> Seq<u8> {
    digits(p.0 as nat) + seq![32u8] + digits(p.1 as nat) + seq![32u8] + digits(p.2 as nat) + seq![
        32u8,
    ] + digits(p.3 as nat) + seq![10u8]
}

/// The lines of the first `upto` pixels.
pub open spec fn pixel_lines(colour: ColourType, data: Seq<u8>, upto: nat) -> Seq<u8>
    decreases upto,
{
    if upto == 0 {
        Seq::empty()
    } else {
        pixel_lines(colour, data, (upto - 1) as nat) + pixel_line(
            pixel_values(colour, data, upto - 1),
        )
    }
}

/// The head of the text: the mark of a plain pixmap, width and height, and the
/// largest value of a sample.
pub open spec fn head_text(width: nat, height: nat) -> Seq<u8> {
    seq![80u8, 51, 32, 10] + digits(width) + seq![32u8] + digits(height) + seq![32u8, 10] + seq![
        50u8,
        53,
        53,
        32,
        10,
    ]
}

/// The text of an image.
pub open spec fn image_text(width: nat, height: nat, colour: ColourType, data: Seq<u8>) -> Seq<
    u8,
> {
    head_text(width, height) + pixel_lines(
        colour,
        data,
        (data.len() as int / pixel_size(colour)) as nat,
    )
}

/// Appends the decimal digits of `n`.
pub fn push_decimal(out: &mut Vec<u8>, n: usize)
    ensures
        final(out)@ == old(out)@ + digits(n as nat),
    decreases n,
{
    if n >= 10 {
        push_decimal(out, n / 10);
    }
    let digit: u8 = (n % 10) as u8;
    out.push(48 + digit);
    proof {
        assert(final(out)@ =~= old(out)@ + digits(n as nat));
    }
}

/// Appends the line of a pixel.
fn push_pixel(out: &mut Vec<u8>, r: u8, g: u8, b: u8, a: u8)
    ensures
        final(out)@ == old(out)@ + pixel_line((r, g, b, a)),
{
    push_decimal(out, r as usize);
    out.push(32);
    push_decimal(out, g as usize);
    out.push(32);
    push_decimal(out, b as usize);
    out.push(32);
    push_decimal(out, a as usize);
    out.push(10);
    proof {
        assert(final(out)@ =~= old(out)@ + pixel_line((r, g, b, a)));
    }
}

/// The text of a decoded image as a plain pixmap.
pub fn write_img(w: usize, h: usize, colour: ColourType, data: &Vec<u8>) -> (r: Vec<u8>)
    requires
        colour != ColourType::Invalid,
        (data.len() as int) % pixel_size(colour) == 0,
    ensures
        r@ == image_text(w as nat, h as nat, colour, data@),
{
    let size: usize = match colour {
        ColourType::Grayscale => 1,
        ColourType::GrayscaleAlpha => 2,
        ColourType::TrueColour => 3,
        _ => 4,
    };
    let mut out: Vec<u8> = Vec::new();
    out.push(80);
    out.push(51);
    out.push(32);
    out.push(10);
    push_decimal(&mut out, w);
    out.push(32);
    push_decimal(&mut out, h);
    out.push(32);
    out.push(10);
    out.push(50);
    out.push(53);
    out.push(53);
    out.push(32);
    out.push(10);
    proof {
        assert(out@ =~= head_text(w as nat, h as nat));
    }
    let count: usize = data.len() / size;
    let mut i: usize = 0;
    while i < count
        invariant
            i <= count,
            size == pixel_size(colour),
            1 <= size <= 4,
            count == data.len() / size,
            data.len() % size == 0,
            out@ == head_text(w as nat, h as nat) + pixel_lines(colour, data@, i as nat),
        decreases count - i,
    {
        proof {
            assert(size * (i + 1) <= data.len()) by (nonlinear_arith)
                requires
                    i < count,
                    count == data.len() / size,
                    1 <= size,
            ;
        }
        let ghost before = out@;
        match colour {
            ColourType::Grayscale => {
                let v: u8 = data[i];
                push_pixel(&mut out, v, v, v, 255);
            },
            ColourType::GrayscaleAlpha => {
                let v: u8 = data[2 * i];
                push_pixel(&mut out, v, v, v, data[2 * i + 1]);
            },
            ColourType::TrueColour => {
                push_pixel(&mut out, data[3 * i], data[3 * i + 1], data[3 * i + 2], 255);
            },
            _ => {
                push_pixel(
                    &mut out,
                    data[4 * i],
                    data[4 * i + 1],
                    data[4 * i + 2],
                    data[4 * i + 3],
                );
            },
        }
        proof {
            assert(out@ == before + pixel_line(pixel_values(colour, data@, i as int)));
            assert(out@ =~= head_text(w as nat, h as nat) + pixel_lines(
                colour,
                data@,
                (i + 1) as nat,
            ));
        }
        i = i + 1;
    }
    out
}

} // verus!
