//! Serialization of a pixel buffer to the plain-text PPM (P3) format:
//!
//! ```text
//! P3
//! <width> <height>
//! 255
//! <r> <g> <b>      (one line per pixel, row-major)
//! ```
//!
//! [`ppm_file`] gives the exact byte sequence of such a file, and
//! [`PPMWriter::write`] is proved to produce it.

use vstd::prelude::*;

use crate::color::Color;
use crate::decimal::dec_rep;
use crate::decimal::int_rep;
use crate::decimal::is_digit;
use crate::decimal::lemma_dec_rep_digits;
use crate::decimal::lemma_int_rep_bytes;
use crate::decimal::lemma_parse_int_encoding;
use crate::decimal::lemma_parse_nat_encoding;
use crate::decimal::parse_int;
use crate::decimal::parse_nat;
use crate::decimal::push_decimal_i32;
use crate::decimal::push_decimal_u32;
use crate::writer::WriteError;
use crate::writer::Writer;

verus! {

/// The line a single pixel occupies in the file: the three channels as
/// decimal integers, separated by single spaces, ended by a newline.
pub open spec fn pixel_line(c: Color) -> Seq<u8> {
    int_rep(c.r as int) + seq![32u8] + int_rep(c.g as int) + seq![32u8] + int_rep(c.b as int)
        + seq![10u8]
}

/// The concatenation of the pixel lines of `data`, in buffer order.
pub open spec fn pixel_lines(data: Seq<Color>) -> Seq<u8>
    decreases data.len(),
{
    if data.len() == 0 {
        Seq::empty()
    } else {
        pixel_line(data[0]) + pixel_lines(data.skip(1))
    }
}

/// The three header lines: the magic token "P3", the dimensions
/// separated by a single space, and the maximum channel value 255.
pub open spec fn ppm_header(width: nat, height: nat) -> Seq<u8> {
    seq![80u8, 51u8, 10u8] + dec_rep(width) + seq![32u8] + dec_rep(height) + seq![10u8]
        + seq![50u8, 53u8, 53u8, 10u8]
}

/// The full file: header followed by one line per pixel.
pub open spec fn ppm_file(width: nat, height: nat, data: Seq<Color>) -> Seq<u8> {
    ppm_header(width, height) + pixel_lines(data)
}

/// Writes pixel buffers sized for a fixed width and height, destined for
/// a fixed file name.
pub struct PPMWriter {
    image_name: String,
    height: u32,
    width: u32,
}

impl PPMWriter {
    /// The file name this writer's output is destined for.
    pub closed spec fn spec_name(&self) -> Seq<char> {
        self.image_name@
    }

    /// The image width in pixels.
    pub closed spec fn spec_width(&self) -> u32 {
        self.width
    }

    /// The image height in pixels.
    pub closed spec fn spec_height(&self) -> u32 {
        self.height
    }

    /// Returns a writer for `width` by `height` images, destined for the
    /// file named `image_name`.
    pub fn new(image_name: String, width: u32, height: u32) -> (w: PPMWriter)
        requires
            width >= 1,
            height >= 1,
        ensures
            w.spec_name() == image_name@,
            w.spec_width() == width,
            w.spec_height() == height,
    {
        PPMWriter { image_name, height, width }
    }

    /// The file name this writer's output is destined for.
    pub fn image_name(&self) -> (r: &String)
        ensures
            r@ == self.spec_name(),
    {
        &self.image_name
    }

    /// The image width in pixels.
    pub fn width(&self) -> (r: u32)
        ensures
            r == self.spec_width(),
    {
        self.width
    }

    /// The image height in pixels.
    pub fn height(&self) -> (r: u32)
        ensures
            r == self.spec_height(),
    {
        self.height
    }
}

impl Writer for PPMWriter {
    /// Serializes `data` to the PPM text format. Succeeds exactly when
    /// the buffer holds `width * height` pixels, and then returns the
    /// file bytes given by [`ppm_file`]; otherwise reports invalid data
    /// without producing anything.
    fn write(&self, data: &[Color]) -> (r: Result<Vec<u8>, WriteError>)
        ensures
            data@.len() == self.spec_width() * self.spec_height() ==> (r matches Ok(bytes)
                && bytes@ == ppm_file(
                self.spec_width() as nat,
                self.spec_height() as nat,
                data@,
            )),
            data@.len() != self.spec_width() * self.spec_height() ==> r == Err::<
                Vec<u8>,
                WriteError,
            >(WriteError::InvalidData),
    {
        proof {
            assert((self.width as int) * (self.height as int) <= 0xffffffff * 0xffffffff)
                by (nonlinear_arith)
                requires
                    self.width <= 0xffffffffu32,
                    self.height <= 0xffffffffu32,
            ;
        }
        if (data.len() as u64) != (self.width as u64) * (self.height as u64) {
            return Err(WriteError::InvalidData);
        }
        let ghost w = self.width as nat;
        let ghost h = self.height as nat;
        let mut out: Vec<u8> = Vec::new();
        out.push(80);  // 'P'
        out.push(51);  // '3'
        out.push(10);
        push_decimal_u32(&mut out, self.width);
        out.push(32);
        push_decimal_u32(&mut out, self.height);
        out.push(10);
        out.push(50);  // '2'
        out.push(53);  // '5'
        out.push(53);  // '5'
        out.push(10);
        proof {
            assert(out@ =~= ppm_header(w, h));
        }
        let mut i: usize = 0;
        while i < data.len()
            invariant
                i <= data@.len(),
                out@ == ppm_header(w, h) + pixel_lines(data@.take(i as int)),
            decreases data@.len() - i,
        {
            let c = data[i];
            push_decimal_i32(&mut out, c.r);
            out.push(32);
            push_decimal_i32(&mut out, c.g);
            out.push(32);
            push_decimal_i32(&mut out, c.b);
            out.push(10);
            proof {
                lemma_pixel_lines_snoc(data@, i as int);
                assert(out@ =~= ppm_header(w, h) + pixel_lines(data@.take(i + 1)));
            }
            i = i + 1;
        }
        proof {
            assert(data@.take(i as int) =~= data@);
        }
        Ok(out)
    }
}

/// Extending a buffer by one pixel appends that pixel's line to the
/// serialized pixel section.
pub proof fn lemma_pixel_lines_snoc(data: Seq<Color>, i: int)
    requires
        0 <= i < data.len(),
    ensures
        pixel_lines(data.take(i + 1)) == pixel_lines(data.take(i)) + pixel_line(data[i]),
    decreases i,
{
    if i == 0 {
        assert(data.take(1) =~= seq![data[0]]);
        assert(seq![data[0]].skip(1) =~= Seq::<Color>::empty());
        assert(data.take(0) =~= Seq::<Color>::empty());
        assert(pixel_lines(Seq::<Color>::empty()) == Seq::<u8>::empty());
        assert(pixel_lines(seq![data[0]]) == pixel_line(data[0]) + pixel_lines(
            seq![data[0]].skip(1),
        ));
        assert(pixel_lines(data.take(1)) =~= pixel_lines(data.take(0)) + pixel_line(data[0]));
    } else {
        let d1 = data.skip(1);
        lemma_pixel_lines_snoc(d1, i - 1);
        assert(data.take(i + 1).skip(1) =~= d1.take(i));
        assert(data.take(i).skip(1) =~= d1.take(i - 1));
        assert(data.take(i + 1)[0] == data[0]);
        assert(data.take(i)[0] == data[0]);
        assert(pixel_lines(data.take(i + 1)) == pixel_line(data[0]) + pixel_lines(d1.take(i)));
        assert(pixel_lines(data.take(i)) == pixel_line(data[0]) + pixel_lines(d1.take(i - 1)));
        assert(pixel_lines(data.take(i + 1)) =~= pixel_lines(data.take(i)) + pixel_line(data[i]));
    }
}

/// How many times the byte `b` occurs in `s`.
pub open spec fn count_byte(s: Seq<u8>, b: u8) -> nat
    decreases s.len(),
{
    if s.len() == 0 {
        0
    } else {
        (if s[0] == b {
            1nat
        } else {
            0nat
        }) + count_byte(s.skip(1), b)
    }
}

/// Occurrence counts add up over concatenation.
pub proof fn lemma_count_byte_concat(a: Seq<u8>, c: Seq<u8>, b: u8)
    ensures
        count_byte(a + c, b) == count_byte(a, b) + count_byte(c, b),
    decreases a.len(),
{
    if a.len() == 0 {
        assert(a + c =~= c);
    } else {
        assert((a + c).skip(1) =~= a.skip(1) + c);
        assert((a + c)[0] == a[0]);
        lemma_count_byte_concat(a.skip(1), c, b);
    }
}

/// A sequence without the byte `b` counts zero occurrences of it.
pub proof fn lemma_count_byte_absent(s: Seq<u8>, b: u8)
    requires
        forall|i: int| 0 <= i < s.len() ==> s[i] != b,
    ensures
        count_byte(s, b) == 0,
    decreases s.len(),
{
    if s.len() > 0 {
        lemma_count_byte_absent(s.skip(1), b);
    }
}

/// The decimal rendering of an integer contains no newline and no space.
pub proof fn lemma_int_rep_no_separator(i: int)
    ensures
        count_byte(int_rep(i), 10) == 0,
        count_byte(int_rep(i), 32) == 0,
{
    lemma_int_rep_bytes(i);
    lemma_count_byte_absent(int_rep(i), 10);
    lemma_count_byte_absent(int_rep(i), 32);
}

/// A pixel line ends with its single newline byte.
pub proof fn lemma_pixel_line_newlines(c: Color)
    ensures
        count_byte(pixel_line(c), 10) == 1,
{
    reveal_with_fuel(count_byte, 4);
    let r = int_rep(c.r as int);
    let g = int_rep(c.g as int);
    let b = int_rep(c.b as int);
    let sp = seq![32u8];
    let nl = seq![10u8];
    lemma_int_rep_no_separator(c.r as int);
    lemma_int_rep_no_separator(c.g as int);
    lemma_int_rep_no_separator(c.b as int);
    assert(sp.skip(1) =~= Seq::<u8>::empty());
    assert(nl.skip(1) =~= Seq::<u8>::empty());
    assert(count_byte(sp, 10) == 0);
    assert(count_byte(nl, 10) == 1);
    lemma_count_byte_concat(r, sp, 10);
    lemma_count_byte_concat(r + sp, g, 10);
    lemma_count_byte_concat(r + sp + g, sp, 10);
    lemma_count_byte_concat(r + sp + g + sp, b, 10);
    lemma_count_byte_concat(r + sp + g + sp + b, nl, 10);
}

/// The pixel section holds exactly one newline per pixel.
pub proof fn lemma_pixel_lines_newlines(data: Seq<Color>)
    ensures
        count_byte(pixel_lines(data), 10) == data.len(),
    decreases data.len(),
{
    if data.len() > 0 {
        lemma_pixel_line_newlines(data[0]);
        lemma_count_byte_concat(pixel_line(data[0]), pixel_lines(data.skip(1)), 10);
        lemma_pixel_lines_newlines(data.skip(1));
    }
}

/// The header holds exactly its three newlines.
pub proof fn lemma_header_newlines(width: nat, height: nat)
    ensures
        count_byte(ppm_header(width, height), 10) == 3,
{
    reveal_with_fuel(count_byte, 6);
    let magic = seq![80u8, 51u8, 10u8];
    let w = dec_rep(width);
    let h = dec_rep(height);
    let sp = seq![32u8];
    let nl = seq![10u8];
    let maxval = seq![50u8, 53u8, 53u8, 10u8];
    lemma_dec_rep_digits(width);
    lemma_dec_rep_digits(height);
    lemma_count_byte_absent(w, 10);
    lemma_count_byte_absent(h, 10);
    assert(magic.skip(1) =~= seq![51u8, 10u8]);
    assert(seq![51u8, 10u8].skip(1) =~= nl);
    assert(nl.skip(1) =~= Seq::<u8>::empty());
    assert(sp.skip(1) =~= Seq::<u8>::empty());
    assert(count_byte(magic, 10) == 1);
    assert(maxval.skip(1) =~= seq![53u8, 53u8, 10u8]);
    assert(seq![53u8, 53u8, 10u8].skip(1) =~= seq![53u8, 10u8]);
    assert(seq![53u8, 10u8].skip(1) =~= nl);
    assert(count_byte(maxval, 10) == 1);
    lemma_count_byte_concat(magic, w, 10);
    lemma_count_byte_concat(magic + w, sp, 10);
    lemma_count_byte_concat(magic + w + sp, h, 10);
    lemma_count_byte_concat(magic + w + sp + h, nl, 10);
    lemma_count_byte_concat(magic + w + sp + h + nl, maxval, 10);
}

/// Layout of a serialized file for a buffer that matches positive
/// dimensions: the bytes start with the line "P3"; the second line is
/// the decimal of the width, a single space, the decimal of the height;
/// and the file holds exactly 3 + width * height newline bytes, one per
/// line (three header lines, then one line per pixel).
pub proof fn lemma_file_layout(width: nat, height: nat, data: Seq<Color>)
    requires
        width >= 1,
        height >= 1,
        data.len() == width * height,
    ensures
        ppm_file(width, height, data).subrange(0, 3) == seq![80u8, 51u8, 10u8],
        ppm_file(width, height, data).subrange(
            3,
            3 + (dec_rep(width) + seq![32u8] + dec_rep(height)).len() as int,
        ) == dec_rep(width) + seq![32u8] + dec_rep(height),
        count_byte(dec_rep(width) + seq![32u8] + dec_rep(height), 10) == 0,
        ppm_file(width, height, data)[3 + (dec_rep(width) + seq![32u8] + dec_rep(height)).len() as int]
            == 10,
        count_byte(ppm_file(width, height, data), 10) == 3 + data.len(),
{
    let file = ppm_file(width, height, data);
    let dim = dec_rep(width) + seq![32u8] + dec_rep(height);
    lemma_dec_rep_digits(width);
    lemma_dec_rep_digits(height);
    assert(file.subrange(0, 3) =~= seq![80u8, 51u8, 10u8]);
    assert(file.subrange(3, 3 + dim.len() as int) =~= dim);
    lemma_count_byte_absent(dim, 10);
    assert(file[3 + dim.len() as int] == 10);
    lemma_header_newlines(width, height);
    lemma_pixel_lines_newlines(data);
    lemma_count_byte_concat(ppm_header(width, height), pixel_lines(data), 10);
}

/// Reads `count` pixel lines from the front of `s`: three decimal
/// integers separated by single spaces and ended by a newline, per line.
pub open spec fn parse_pixels(s: Seq<u8>, count: nat) -> Option<(Seq<Color>, Seq<u8>)>
    decreases count,
{
    if count == 0 {
        Some((Seq::empty(), s))
    } else {
        match parse_int(s) {
            Option::None => None,
            Option::Some((r, s1)) => if s1.len() >= 1 && s1[0] == 32 {
                match parse_int(s1.skip(1)) {
                    Option::None => None,
                    Option::Some((g, s2)) => if s2.len() >= 1 && s2[0] == 32 {
                        match parse_int(s2.skip(1)) {
                            Option::None => None,
                            Option::Some((b, s3)) => if s3.len() >= 1 && s3[0] == 10 {
                                match parse_pixels(s3.skip(1), (count - 1) as nat) {
                                    Option::None => None,
                                    Option::Some((px, rest)) => Some(
                                        (
                                            seq![
                                                Color { r: r as i32, g: g as i32, b: b as i32 },
                                            ] + px,
                                            rest,
                                        ),
                                    ),
                                }
                            } else {
                                None
                            },
                        }
                    } else {
                        None
                    },
                }
            } else {
                None
            },
        }
    }
}

/// Decodes a PPM file: the "P3" line, the two dimensions, the "255"
/// line, then exactly `width * height` pixel lines and nothing after.
pub open spec fn parse_ppm(s: Seq<u8>) -> Option<(nat, nat, Seq<Color>)> {
    if s.len() >= 4 && s[0] == 80 && s[1] == 51 && s[2] == 10 && is_digit(s[3]) {
        let (w, r1) = parse_nat(s.skip(3), 0);
        if r1.len() >= 2 && r1[0] == 32 && is_digit(r1[1]) {
            let (h, r2) = parse_nat(r1.skip(1), 0);
            if r2.len() >= 5 && r2[0] == 10 && r2[1] == 50 && r2[2] == 53 && r2[3] == 53 && r2[4]
                == 10 {
                match parse_pixels(r2.skip(5), w * h) {
                    Option::None => None,
                    Option::Some((px, rest)) => if rest.len() == 0 {
                        Some((w, h, px))
                    } else {
                        None
                    },
                }
            } else {
                None
            }
        } else {
            None
        }
    } else {
        None
    }
}

/// Decoding inverts encoding for the pixel section: the lines of `data`
/// followed by any remainder parse back to exactly `data`, leaving the
/// remainder unread.
#[verifier::rlimit(50)]
pub proof fn lemma_parse_pixel_lines(data: Seq<Color>, rest: Seq<u8>)
    ensures
        parse_pixels(pixel_lines(data) + rest, data.len()) == Some((data, rest)),
    decreases data.len(),
{
    if data.len() == 0 {
        assert(pixel_lines(data) + rest =~= rest);
        assert(parse_pixels(rest, 0) == Some((Seq::<Color>::empty(), rest)));
        assert(data =~= Seq::<Color>::empty());
    } else {
        let c = data[0];
        let sp = seq![32u8];
        let nl = seq![10u8];
        let tail = pixel_lines(data.skip(1)) + rest;
        let t1 = sp + int_rep(c.g as int) + sp + int_rep(c.b as int) + nl + tail;
        let t2 = sp + int_rep(c.b as int) + nl + tail;
        let t3 = nl + tail;
        assert(pixel_lines(data) + rest =~= int_rep(c.r as int) + t1);
        lemma_parse_int_encoding(c.r as int, t1);
        assert(t1[0] == 32);
        assert(t1.skip(1) =~= int_rep(c.g as int) + t2);
        lemma_parse_int_encoding(c.g as int, t2);
        assert(t2[0] == 32);
        assert(t2.skip(1) =~= int_rep(c.b as int) + t3);
        lemma_parse_int_encoding(c.b as int, t3);
        assert(t3[0] == 10);
        assert(t3.skip(1) =~= tail);
        lemma_parse_pixel_lines(data.skip(1), rest);
        assert(Color { r: (c.r as int) as i32, g: (c.g as int) as i32, b: (c.b as int) as i32 }
            == c);
        assert(seq![c] + data.skip(1) =~= data);
        assert(parse_pixels(pixel_lines(data) + rest, data.len()) == Some((data, rest)));
    }
}

/// Round trip: decoding the file written for a buffer that matches the
/// dimensions recovers the dimensions and every channel of every pixel
/// exactly.
pub proof fn lemma_ppm_round_trip(width: nat, height: nat, data: Seq<Color>)
    requires
        data.len() == width * height,
    ensures
        parse_ppm(ppm_file(width, height, data)) == Some((width, height, data)),
{
    let file = ppm_file(width, height, data);
    let sp = seq![32u8];
    let nl = seq![10u8];
    let maxval = seq![50u8, 53u8, 53u8, 10u8];
    lemma_dec_rep_digits(width);
    lemma_dec_rep_digits(height);
    let u1 = sp + dec_rep(height) + nl + maxval + pixel_lines(data);
    let u2 = nl + maxval + pixel_lines(data);
    assert(file[0] == 80 && file[1] == 51 && file[2] == 10);
    assert(file.skip(3) =~= dec_rep(width) + u1);
    assert(file[3] == dec_rep(width)[0]);
    lemma_parse_nat_encoding(width, u1);
    assert(u1[0] == 32);
    assert(u1[1] == dec_rep(height)[0]);
    assert(u1.skip(1) =~= dec_rep(height) + u2);
    lemma_parse_nat_encoding(height, u2);
    assert(u2[0] == 10 && u2[1] == 50 && u2[2] == 53 && u2[3] == 53 && u2[4] == 10);
    assert(u2.skip(5) =~= pixel_lines(data) + Seq::<u8>::empty());
    lemma_parse_pixel_lines(data, Seq::<u8>::empty());
    assert(parse_ppm(file) == Some((width, height, data)));
}

} // verus!
