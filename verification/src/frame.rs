//! Conversion of planar YUV 4:2:0 camera samples to interleaved RGB.
//!
//! A sample holds a full-resolution luma plane followed by the U and the V
//! plane, each subsampled by two in both directions. The conversion is the
//! limited-range BT.601 matrix with coefficients given to three decimals; it is
//! evaluated exactly, in thousandths, and truncated towards zero.

use vstd::prelude::*;
use vstd::arithmetic::div_mod::lemma_fundamental_div_mod;
use vstd::arithmetic::div_mod::lemma_fundamental_div_mod_converse;
use vstd::arithmetic::div_mod::lemma_multiply_divide_lt;

verus! {

/// Why a sample was not decoded.
#[derive(Debug, Clone, Copy, PartialEq, Eq, Structural)]
pub enum DecodeError {
    /// The dimensions are not both even, or the buffer does not hold exactly
    /// one luma plane and two chroma planes of these dimensions.
    MalformedSample,
}

/// An RGB image, three bytes per pixel, rows from top to bottom.
#[derive(Debug)]
pub struct RgbImage {
    width: usize,
    height: usize,
    pixels: Vec<u8>,
}

/// A channel value in thousandths, cut to the range of a byte.
pub open spec fn clamp_channel(milli: int) -> int {
    if milli < 0 {
        0
    } else if milli >= 256_000 {
        255
    } else {
        milli / 1000
    }
}

pub open spec fn red_of(y: int, v: int) -> int {
    clamp_channel(1164 * (y - 16) + 1596 * (v - 128))
}

pub open spec fn green_of(y: int, u: int, v: int) -> int {
    clamp_channel(1164 * (y - 16) - 391 * (u - 128) - 813 * (v - 128))
}

pub open spec fn blue_of(y: int, u: int) -> int {
    clamp_channel(1164 * (y - 16) + 2018 * (u - 128))
}

/// The number of bytes of a sample of the given dimensions.
pub open spec fn sample_len(width: int, height: int) -> int {
    width * height * 3 / 2
}

/// Whether a buffer of `len` bytes is a sample of the given dimensions.
pub open spec fn well_formed_sample(len: int, width: int, height: int) -> bool {
    &&& width % 2 == 0
    &&& height % 2 == 0
    &&& len == sample_len(width, height)
}

pub open spec fn luma_at(sample: Seq<u8>, width: int, x: int, y: int) -> int {
    sample[y * width + x] as int
}

/// Where the chroma value of pixel (x, y) lies inside a chroma plane.
pub open spec fn chroma_offset(width: int, x: int, y: int) -> int {
    (y / 2) * (width / 2) + x / 2
}

pub open spec fn chroma_u_at(sample: Seq<u8>, width: int, height: int, x: int, y: int) -> int {
    sample[width * height + chroma_offset(width, x, y)] as int
}

pub open spec fn chroma_v_at(sample: Seq<u8>, width: int, height: int, x: int, y: int) -> int {
    sample[width * height + width * height / 4 + chroma_offset(width, x, y)] as int
}

/// The value of one channel (0 red, 1 green, 2 blue) of pixel (x, y).
pub open spec fn channel_at(
    sample: Seq<u8>,
    width: int,
    height: int,
    x: int,
    y: int,
    channel: int,
) -> int {
    let l = luma_at(sample, width, x, y);
    let u = chroma_u_at(sample, width, height, x, y);
    let v = chroma_v_at(sample, width, height, x, y);
    if channel == 0 {
        red_of(l, v)
    } else if channel == 1 {
        green_of(l, u, v)
    } else {
        blue_of(l, u)
    }
}

/// Byte `i` of the decoded image: channel `i % 3` of pixel `i / 3`, pixels
/// counted row by row.
pub open spec fn decoded_byte(sample: Seq<u8>, width: int, height: int, i: int) -> u8 {
    channel_at(sample, width, height, (i / 3) % width, (i / 3) / width, i % 3) as u8
}

/// The decoded image as one sequence of bytes.
pub open spec fn decoded_pixels(sample: Seq<u8>, width: int, height: int) -> Seq<u8> {
    Seq::new((3 * (width * height)) as nat, |i: int| decoded_byte(sample, width, height, i))
}

fn clamp_milli(milli: i64) -> (r: u8)
    ensures
        r as int == clamp_channel(milli as int),
{
    if milli < 0 {
        0
    } else if milli >= 256_000 {
        255
    } else {
        (milli / 1000) as u8
    }
}

fn convert_pixel(l: u8, u: u8, v: u8) -> (rgb: (u8, u8, u8))
    ensures
        rgb.0 as int == red_of(l as int, v as int),
        rgb.1 as int == green_of(l as int, u as int, v as int),
        rgb.2 as int == blue_of(l as int, u as int),
{
    let base: i64 = 1164 * (l as i64 - 16);
    let du: i64 = u as i64 - 128;
    let dv: i64 = v as i64 - 128;
    (
        clamp_milli(base + 1596 * dv),
        clamp_milli(base - 391 * du - 813 * dv),
        clamp_milli(base + 2018 * du),
    )
}

/// The size of the luma plane, when the buffer is a sample of these dimensions.
fn luma_plane_len(len: usize, width: usize, height: usize) -> (r: Option<usize>)
    ensures
        r is Some <==> well_formed_sample(len as int, width as int, height as int),
        r matches Some(total) ==> total == width * height,
{
    if width % 2 != 0 || height % 2 != 0 {
        return None;
    }
    let total: usize = match width.checked_mul(height) {
        Some(t) => t,
        None => {
            return None;
        },
    };
    match total.checked_add(total / 2) {
        Some(expected) => {
            assert(expected as int == sample_len(width as int, height as int)) by {
                lemma_even_product(width as int, height as int);
            }
            if len == expected {
                Some(total)
            } else {
                None
            }
        },
        None => {
            assert(sample_len(width as int, height as int) > usize::MAX) by {
                lemma_even_product(width as int, height as int);
            }
            None
        },
    }
}

proof fn lemma_even_product(w: int, h: int)
    requires
        0 <= w,
        0 <= h,
        w % 2 == 0,
        h % 2 == 0,
    ensures
        w * h == 4 * ((w / 2) * (h / 2)),
        (w * h) / 4 == (w / 2) * (h / 2),
        (w * h) / 2 == 2 * ((w / 2) * (h / 2)),
        w * h * 3 / 2 == w * h + (w * h) / 2,
        0 <= w * h,
{
    let a = w / 2;
    let b = h / 2;
    assert(w == 2 * a && h == 2 * b);
    assert(w * h == 4 * (a * b)) by (nonlinear_arith)
        requires
            w == 2 * a,
            h == 2 * b,
    ;
    assert(0 <= a * b) by (nonlinear_arith)
        requires
            0 <= a,
            0 <= b,
    ;
}

/// Pixel (x, y) reads inside the three planes.
proof fn lemma_plane_bounds(w: int, h: int, x: int, y: int)
    requires
        w % 2 == 0,
        h % 2 == 0,
        0 <= x < w,
        0 <= y < h,
    ensures
        0 <= y * w + x < w * h,
        0 <= chroma_offset(w, x, y) < (w * h) / 4,
        (w * h) / 4 == (w / 2) * (h / 2),
        w * h * 3 / 2 == w * h + 2 * ((w * h) / 4),
{
    lemma_even_product(w, h);
    let a = w / 2;
    let b = h / 2;
    assert(0 <= y * w + x < w * h) by (nonlinear_arith)
        requires
            0 <= x < w,
            0 <= y < h,
    ;
    assert(0 <= (y / 2) * a + x / 2 < a * b) by (nonlinear_arith)
        requires
            0 <= x / 2 < a,
            0 <= y / 2 < b,
    ;
}

/// Converts a planar YUV 4:2:0 sample to interleaved RGB bytes.
///
/// Fails exactly when the buffer is not a sample of the given dimensions.
pub fn yuv420p_to_rgb(buf: &[u8], width: usize, height: usize) -> (r: Result<Vec<u8>, DecodeError>)
    ensures
        r is Ok <==> well_formed_sample(buf@.len() as int, width as int, height as int),
        r matches Ok(pixels) ==> pixels@ == decoded_pixels(buf@, width as int, height as int),
        r matches Err(e) ==> e == DecodeError::MalformedSample,
{
    let total: usize = match luma_plane_len(buf.len(), width, height) {
        Some(t) => t,
        None => {
            return Err(DecodeError::MalformedSample);
        },
    };
    let quarter: usize = total / 4;
    let half_width: usize = width / 2;
    let ghost w = width as int;
    let ghost h = height as int;
    proof {
        lemma_even_product(w, h);
    }
    let mut pixels: Vec<u8> = Vec::new();
    let mut y: usize = 0;
    while y < height
        invariant
            y <= height,
            total == w * h,
            quarter == (w * h) / 4,
            half_width == w / 2,
            w == width,
            h == height,
            w % 2 == 0,
            h % 2 == 0,
            buf@.len() == w * h + 2 * ((w * h) / 4),
            pixels@.len() == 3 * (y * w),
            forall|i: int| 0 <= i < pixels@.len() ==> pixels@[i] == decoded_byte(buf@, w, h, i),
        decreases height - y,
    {
        let mut x: usize = 0;
        while x < width
            invariant
                x <= width,
                y < height,
                total == w * h,
                quarter == (w * h) / 4,
                half_width == w / 2,
                w == width,
                h == height,
                w % 2 == 0,
                h % 2 == 0,
                buf@.len() == w * h + 2 * ((w * h) / 4),
                pixels@.len() == 3 * (y * w + x),
                forall|i: int| 0 <= i < pixels@.len() ==> pixels@[i] == decoded_byte(buf@, w, h, i),
            decreases width - x,
        {
            proof {
                lemma_plane_bounds(w, h, x as int, y as int);
            }
            let offset: usize = (y / 2) * half_width + x / 2;
            let l: u8 = buf[y * width + x];
            let u: u8 = buf[total + offset];
            let v: u8 = buf[total + quarter + offset];
            let rgb = convert_pixel(l, u, v);
            let ghost p = y * w + x;
            let ghost before = pixels@;
            pixels.push(rgb.0);
            pixels.push(rgb.1);
            pixels.push(rgb.2);
            proof {
                lemma_fundamental_div_mod_converse(p, w, y as int, x as int);
                assert forall|i: int| 0 <= i < pixels@.len() implies pixels@[i] == decoded_byte(
                    buf@,
                    w,
                    h,
                    i,
                ) by {
                    if i < before.len() {
                        assert(pixels@[i] == before[i]);
                    } else {
                        assert(i / 3 == p && i % 3 == i - 3 * p);
                    }
                }
            }
            x = x + 1;
        }
        assert(3 * (y * w + w) == 3 * ((y + 1) * w)) by (nonlinear_arith);
        y = y + 1;
    }
    assert(pixels@ =~= decoded_pixels(buf@, w, h)) by {
        assert(h * w == w * h) by (nonlinear_arith);
    }
    Ok(pixels)
}

/// Byte `3 * (y * width + x) + channel` of the decoded image is the value of
/// that channel of pixel (x, y).
pub proof fn lemma_decoded_pixel(
    sample: Seq<u8>,
    width: int,
    height: int,
    x: int,
    y: int,
    channel: int,
)
    requires
        0 <= x < width,
        0 <= y < height,
        0 <= channel < 3,
    ensures
        0 <= 3 * (y * width + x) + channel < decoded_pixels(sample, width, height).len(),
        decoded_pixels(sample, width, height)[3 * (y * width + x) + channel] == channel_at(
            sample,
            width,
            height,
            x,
            y,
            channel,
        ) as u8,
{
    let p = y * width + x;
    assert(0 <= p < width * height) by (nonlinear_arith)
        requires
            p == y * width + x,
            0 <= x < width,
            0 <= y < height,
    ;
    lemma_fundamental_div_mod_converse(p, width, y, x);
    let i = 3 * p + channel;
    assert(i / 3 == p && i % 3 == channel);
}

/// A sample whose bytes all have one value decodes to an image of one colour:
/// what the conversion makes of that value as luma and as both chroma values.
pub proof fn lemma_flat_sample(sample: Seq<u8>, width: int, height: int, value: u8, i: int)
    requires
        0 <= width,
        0 <= height,
        well_formed_sample(sample.len() as int, width, height),
        forall|k: int| 0 <= k < sample.len() ==> sample[k] == value,
        0 <= i < 3 * (width * height),
    ensures
        decoded_pixels(sample, width, height)[i] as int == if i % 3 == 0 {
            red_of(value as int, value as int)
        } else if i % 3 == 1 {
            green_of(value as int, value as int, value as int)
        } else {
            blue_of(value as int, value as int)
        },
{
    let p = i / 3;
    assert(0 < width) by (nonlinear_arith)
        requires
            0 <= width,
            0 <= i < 3 * (width * height),
    ;
    lemma_fundamental_div_mod(p, width);
    assert(p < width * height);
    assert(p < height * width) by (nonlinear_arith)
        requires
            p < width * height,
    ;
    lemma_multiply_divide_lt(p, width, height);
    let x = p % width;
    let y = p / width;
    assert(0 <= y) by (nonlinear_arith)
        requires
            0 <= p,
            0 < width,
            y == p / width,
    ;
    lemma_plane_bounds(width, height, x, y);
    assert(0 <= clamp_channel(1164 * (value - 16) + 1596 * (value - 128)) <= 255);
}

impl RgbImage {
    #[verifier::type_invariant]
    spec fn well_formed(self) -> bool {
        self.pixels@.len() == 3 * (self.width * self.height)
    }

    /// The number of pixels in a row.
    pub closed spec fn columns(&self) -> int {
        self.width as int
    }

    /// The number of rows.
    pub closed spec fn rows(&self) -> int {
        self.height as int
    }

    /// The pixel data: three bytes per pixel, row by row.
    pub closed spec fn bytes(&self) -> Seq<u8> {
        self.pixels@
    }

    pub fn width(&self) -> (w: usize)
        ensures
            w == self.columns(),
    {
        self.width
    }

    pub fn height(&self) -> (h: usize)
        ensures
            h == self.rows(),
    {
        self.height
    }

    /// The pixel data, borrowed.
    pub fn as_raw(&self) -> (raw: &Vec<u8>)
        ensures
            raw@ == self.bytes(),
            raw@.len() == 3 * (self.columns() * self.rows()),
    {
        proof {
            use_type_invariant(self);
        }
        &self.pixels
    }

    /// The pixel data, by value.
    pub fn into_raw(self) -> (raw: Vec<u8>)
        ensures
            raw@ == self.bytes(),
            raw@.len() == 3 * (self.columns() * self.rows()),
    {
        proof {
            use_type_invariant(&self);
        }
        self.pixels
    }

    /// The red, green and blue value of pixel (x, y), if it lies in the image.
    pub fn pixel(&self, x: usize, y: usize) -> (rgb: Option<(u8, u8, u8)>)
        ensures
            rgb is Some <==> x < self.columns() && y < self.rows(),
            rgb matches Some(c) ==> {
                let at = 3 * (y * self.columns() + x);
                &&& at + 2 < self.bytes().len()
                &&& c.0 == self.bytes()[at]
                &&& c.1 == self.bytes()[at + 1]
                &&& c.2 == self.bytes()[at + 2]
            },
    {
        proof {
            use_type_invariant(self);
        }
        if x >= self.width || y >= self.height {
            return None;
        }
        let len: usize = self.pixels.len();
        assert(0 <= y * self.width <= y * self.width + x && 3 * (y * self.width + x) + 2 < len)
            by (nonlinear_arith)
            requires
                0 <= x < self.width,
                0 <= y < self.height,
                len == 3 * (self.width * self.height),
        ;
        let at: usize = 3 * (y * self.width + x);
        Some((self.pixels[at], self.pixels[at + 1], self.pixels[at + 2]))
    }
}

/// Decodes one camera sample into an RGB image of the given dimensions.
///
/// Fails with [`DecodeError::MalformedSample`] exactly when the buffer is not a
/// sample of these dimensions; nothing is read or written otherwise.
pub fn decode(sample: &[u8], width: usize, height: usize) -> (r: Result<RgbImage, DecodeError>)
    ensures
        r is Ok <==> well_formed_sample(sample@.len() as int, width as int, height as int),
        r matches Ok(image) ==> {
            &&& image.columns() == width
            &&& image.rows() == height
            &&& image.bytes() == decoded_pixels(sample@, width as int, height as int)
        },
        r matches Err(e) ==> e == DecodeError::MalformedSample,
{
    match yuv420p_to_rgb(sample, width, height) {
        Ok(pixels) => Ok(RgbImage { width, height, pixels }),
        Err(e) => Err(e),
    }
}

} // verus!
