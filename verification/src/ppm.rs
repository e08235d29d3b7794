//! The text form of an image: plain PPM.

use vstd::prelude::*;
use crate::image::{shaded_by, Image, Pixel};

verus! {

/// The character `0`; the other digits follow it.
pub const DIGIT_ZERO: u8 = 48;

/// The minus sign.
pub const MINUS: u8 = 45;

/// The space between two numbers.
pub const SPACE: u8 = 32;

/// The character that ends a line.
pub const LINE_END: u8 = 10;

/// The letter that every tag of the format family starts with.
pub const LETTER_P: u8 = 80;

/// The digit that marks pixel maps in plain text, the character `3`.
pub const PLAIN_PIXMAP: u8 = 51;

/// The intensity that stands for full brightness.
pub const MAX_INTENSITY: i32 = 255;

/// The digits of `n` in base ten as characters, most significant first.
pub open spec fn digits(n: nat) -> Seq<u8>
    decreases n,
{
    if n < 10 {
        seq![(DIGIT_ZERO + n) as u8]
    } else {
        digits(n / 10).push((DIGIT_ZERO + n % 10) as u8)
    }
}

/// `n` in base ten as characters, with a minus sign if it is negative.
pub open spec fn decimal(n: int) -> Seq<u8> {
    if n < 0 {
        seq![MINUS] + digits((-n) as nat)
    } else {
        digits(n as nat)
    }
}

/// The three lines that open an image of `nx` by `ny` pixels: the tag of
/// plain PPM, the width and the height, and the greatest intensity, 255.
pub open spec fn header(nx: int, ny: int) -> Seq<u8> {
    seq![LETTER_P, PLAIN_PIXMAP, LINE_END] + decimal(nx) + seq![SPACE] + decimal(ny) + seq![LINE_END]
        + decimal(MAX_INTENSITY as int) + seq![LINE_END]
}

/// The line of one pixel: red, green and blue with a space between them.
pub open spec fn pixel_line(p: Pixel) -> Seq<u8> {
    decimal(p.r as int) + seq![SPACE] + decimal(p.g as int) + seq![SPACE] + decimal(p.b as int)
        + seq![LINE_END]
}

/// The lines of the pixels, one after the other.
pub open spec fn pixel_lines(pixels: Seq<Pixel>) -> Seq<u8>
    decreases pixels.len(),
{
    if pixels.len() == 0 {
        Seq::empty()
    } else {
        pixel_lines(pixels.drop_last()) + pixel_line(pixels.last())
    }
}

/// The whole text of an image of `nx` by `ny` with the given pixels.
pub open spec fn ppm(nx: int, ny: int, pixels: Seq<Pixel>) -> Seq<u8> {
    header(nx, ny) + pixel_lines(pixels)
}

/// The number of line ends in a text.
pub open spec fn line_ends(text: Seq<u8>) -> nat
    decreases text.len(),
{
    if text.len() == 0 {
        0
    } else {
        line_ends(text.drop_last()) + if text.last() == LINE_END {
            1nat
        } else {
            0nat
        }
    }
}

/// Appends the digits of `n`.
fn push_digits(out: &mut Vec<u8>, n: u32)
    ensures
        final(out)@ == old(out)@ + digits(n as nat),
    decreases n,
{
    if n >= 10 {
        push_digits(out, n / 10);
    }
    let d: u8 = DIGIT_ZERO + (n % 10) as u8;
    out.push(d);
    assert(out@ =~= old(out)@ + digits(n as nat));
}

/// Appends `n` in base ten.
fn push_decimal(out: &mut Vec<u8>, n: i32)
    ensures
        final(out)@ == old(out)@ + decimal(n as int),
{
    if n < 0 {
        out.push(MINUS);
        let m: u32 = (-(n as i64)) as u32;
        push_digits(out, m);
        assert(out@ =~= old(out)@ + decimal(n as int));
    } else {
        push_digits(out, n as u32);
    }
}

/// The opening lines of an image of `nx` by `ny` pixels.
pub fn write_header(nx: i32, ny: i32) -> (out: Vec<u8>)
    ensures
        out@ == header(nx as int, ny as int),
{
    let mut out: Vec<u8> = Vec::new();
    out.push(LETTER_P);
    out.push(PLAIN_PIXMAP);
    out.push(LINE_END);
    push_decimal(&mut out, nx);
    out.push(SPACE);
    push_decimal(&mut out, ny);
    out.push(LINE_END);
    push_decimal(&mut out, MAX_INTENSITY);
    out.push(LINE_END);
    assert(out@ =~= header(nx as int, ny as int));
    out
}

/// Appends the line of one pixel.
pub fn write_pixel(out: &mut Vec<u8>, p: Pixel)
    ensures
        final(out)@ == old(out)@ + pixel_line(p),
{
    push_decimal(out, p.r);
    out.push(SPACE);
    push_decimal(out, p.g);
    out.push(SPACE);
    push_decimal(out, p.b);
    out.push(LINE_END);
    assert(out@ =~= old(out)@ + pixel_line(p));
}

/// The text of an image: the opening lines, then one line for each pixel in
/// the order of production.
pub fn write_image(img: &Image) -> (out: Vec<u8>)
    ensures
        out@ == ppm(img.width(), img.height(), img@),
{
    let mut out = write_header(img.nx(), img.ny());
    let n = img.len();
    let mut k: usize = 0;
    while k < n
        invariant
            n == img@.len(),
            k <= n,
            out@ == header(img.width(), img.height()) + pixel_lines(img@.take(k as int)),
        decreases n - k,
    {
        write_pixel(&mut out, img.at(k));
        proof {
            let next = img@.take(k + 1);
            assert(next.drop_last() =~= img@.take(k as int));
            assert(out@ =~= header(img.width(), img.height()) + pixel_lines(next));
        }
        k += 1;
    }
    assert(img@.take(k as int) =~= img@);
    out
}

/// The line ends of two texts joined are those of the one and of the other.
proof fn lemma_line_ends_of_joined(a: Seq<u8>, b: Seq<u8>)
    ensures
        line_ends(a + b) == line_ends(a) + line_ends(b),
    decreases b.len(),
{
    if b.len() == 0 {
        assert(a + b =~= a);
    } else {
        lemma_line_ends_of_joined(a, b.drop_last());
        assert((a + b).drop_last() =~= a + b.drop_last());
    }
}

/// A number in base ten holds no line end.
proof fn lemma_no_line_end_in_digits(n: nat)
    ensures
        line_ends(digits(n)) == 0,
    decreases n,
{
    if n < 10 {
        assert(digits(n).drop_last() =~= Seq::<u8>::empty());
        assert(line_ends(digits(n).drop_last()) == 0);
    } else {
        lemma_no_line_end_in_digits(n / 10);
        assert(digits(n).drop_last() =~= digits(n / 10));
    }
}

/// A number in base ten, with or without a sign, holds no line end.
proof fn lemma_no_line_end_in_decimal(n: int)
    ensures
        line_ends(decimal(n)) == 0,
{
    if n < 0 {
        lemma_no_line_end_in_digits((-n) as nat);
        lemma_line_ends_of_joined(seq![MINUS], digits((-n) as nat));
        lemma_line_ends_of_short(seq![MINUS]);
    } else {
        lemma_no_line_end_in_digits(n as nat);
    }
}

/// The line ends of a text of at most five characters, counted one by one.
proof fn lemma_line_ends_of_short(t: Seq<u8>)
    requires
        t.len() <= 5,
    ensures
        line_ends(t) == (if t.len() > 0 && t[0] == LINE_END { 1nat } else { 0nat })
            + (if t.len() > 1 && t[1] == LINE_END { 1nat } else { 0nat })
            + (if t.len() > 2 && t[2] == LINE_END { 1nat } else { 0nat })
            + (if t.len() > 3 && t[3] == LINE_END { 1nat } else { 0nat })
            + (if t.len() > 4 && t[4] == LINE_END { 1nat } else { 0nat }),
    decreases t.len(),
{
    if t.len() > 0 {
        lemma_line_ends_of_short(t.drop_last());
    }
}

/// The opening of an image is three lines long.
pub proof fn lemma_header_has_three_lines(nx: int, ny: int)
    ensures
        line_ends(header(nx, ny)) == 3,
{
    let a = seq![LETTER_P, PLAIN_PIXMAP, LINE_END];
    let b = seq![SPACE];
    let c = seq![LINE_END];
    lemma_line_ends_of_short(a);
    lemma_line_ends_of_short(b);
    lemma_line_ends_of_short(c);
    lemma_no_line_end_in_decimal(nx);
    lemma_no_line_end_in_decimal(ny);
    lemma_line_ends_of_joined(a, decimal(nx));
    lemma_line_ends_of_joined(a + decimal(nx), b);
    lemma_line_ends_of_joined(a + decimal(nx) + b, decimal(ny));
    lemma_line_ends_of_joined(a + decimal(nx) + b + decimal(ny), c);
    let d = decimal(MAX_INTENSITY as int);
    lemma_no_line_end_in_decimal(MAX_INTENSITY as int);
    lemma_line_ends_of_joined(a + decimal(nx) + b + decimal(ny) + c, d);
    lemma_line_ends_of_joined(a + decimal(nx) + b + decimal(ny) + c + d, c);
}

/// Every pixel takes one line.
pub proof fn lemma_pixel_takes_one_line(p: Pixel)
    ensures
        line_ends(pixel_line(p)) == 1,
        pixel_line(p).last() == LINE_END,
{
    let s = seq![SPACE];
    let e = seq![LINE_END];
    let r = decimal(p.r as int);
    let g = decimal(p.g as int);
    let b = decimal(p.b as int);
    lemma_line_ends_of_short(s);
    lemma_line_ends_of_short(e);
    lemma_no_line_end_in_decimal(p.r as int);
    lemma_no_line_end_in_decimal(p.g as int);
    lemma_no_line_end_in_decimal(p.b as int);
    lemma_line_ends_of_joined(r, s);
    lemma_line_ends_of_joined(r + s, g);
    lemma_line_ends_of_joined(r + s + g, s);
    lemma_line_ends_of_joined(r + s + g + s, b);
    lemma_line_ends_of_joined(r + s + g + s + b, e);
}

/// The text of an image is as many lines long as the image has pixels,
/// and three more for the opening.
pub proof fn lemma_one_line_for_each_pixel(nx: int, ny: int, pixels: Seq<Pixel>)
    ensures
        line_ends(pixel_lines(pixels)) == pixels.len(),
        line_ends(ppm(nx, ny, pixels)) == 3 + pixels.len(),
    decreases pixels.len(),
{
    if pixels.len() > 0 {
        lemma_one_line_for_each_pixel(nx, ny, pixels.drop_last());
        lemma_pixel_takes_one_line(pixels.last());
        lemma_line_ends_of_joined(pixel_lines(pixels.drop_last()), pixel_line(pixels.last()));
    }
    lemma_header_has_three_lines(nx, ny);
    lemma_line_ends_of_joined(header(nx, ny), pixel_lines(pixels));
}

/// Rendering the same picture twice gives the same bytes: when `shade`
/// allows but one colour for each pixel, two images of the same width and
/// height that it has coloured are equal pixel by pixel, and so are their
/// texts byte by byte.
pub proof fn lemma_render_twice_same_text<F: Fn(i32, i32) -> Pixel>(
    nx: int,
    ny: int,
    shade: F,
    once: Seq<Pixel>,
    again: Seq<Pixel>,
)
    requires
        forall|i: i32, j: i32, p: Pixel, q: Pixel|
            call_ensures(shade, (i, j), p) && call_ensures(shade, (i, j), q) ==> p == q,
        shaded_by(once, nx, ny, shade),
        shaded_by(again, nx, ny, shade),
    ensures
        once == again,
        ppm(nx, ny, once) == ppm(nx, ny, again),
{
    assert(once =~= again);
}

} // verus!
