//! In-memory images: an RGB pixel and a width x height pixel grid.

use vstd::prelude::*;
use crate::hex::byte_hex;
use crate::hex::hex_pair_value;
use crate::hex::is_hex_digit;
use crate::hex::lemma_byte_hex_value;
use crate::hex::lemma_hex_digit_not_newline;
use crate::hex::NEWLINE;

verus! {

/// One pixel: a 24-bit RGB triple, no alpha.
#[derive(Clone, Copy, Debug, PartialEq, Eq, Structural)]
pub struct Rgb {
    /// Red channel.
    pub r: u8,
    /// Green channel.
    pub g: u8,
    /// Blue channel.
    pub b: u8,
}

/// The six hex digits that encode `p`: two per channel, R then G then B.
pub open spec fn pixel_hex(p: Rgb) -> Seq<u8> {
    byte_hex(p.r) + byte_hex(p.g) + byte_hex(p.b)
}

/// The pixel denoted by a run `s` of six hex digits.
pub open spec fn chunk_pixel(s: Seq<u8>) -> Rgb
    recommends
        s.len() == 6,
{
    Rgb {
        r: hex_pair_value(s[0], s[1]),
        g: hex_pair_value(s[2], s[3]),
        b: hex_pair_value(s[4], s[5]),
    }
}

/// A pixel's hex run has six digits, all hex and none a newline, and
/// decodes back to the pixel.
pub proof fn lemma_pixel_hex_value(p: Rgb)
    ensures
        pixel_hex(p).len() == 6,
        forall|i: int| 0 <= i < 6 ==> is_hex_digit(#[trigger] pixel_hex(p)[i]),
        forall|i: int| 0 <= i < 6 ==> #[trigger] pixel_hex(p)[i] != NEWLINE,
        chunk_pixel(pixel_hex(p)) == p,
{
    lemma_byte_hex_value(p.r);
    lemma_byte_hex_value(p.g);
    lemma_byte_hex_value(p.b);
    assert forall|i: int| 0 <= i < 6 implies is_hex_digit(#[trigger] pixel_hex(p)[i]) by {
        assert(pixel_hex(p)[i] == if i < 2 {
            byte_hex(p.r)[i]
        } else if i < 4 {
            byte_hex(p.g)[i - 2]
        } else {
            byte_hex(p.b)[i - 4]
        });
    }
    assert forall|i: int| 0 <= i < 6 implies #[trigger] pixel_hex(p)[i] != NEWLINE by {
        lemma_hex_digit_not_newline(pixel_hex(p)[i]);
    }
}

/// A raster image: `pixels` holds `width * height` pixels in row-major
/// order, left to right within a row, top row first.
#[derive(Debug)]
pub struct RasterImage {
    /// Width in pixels.
    pub width: u32,
    /// Height in pixels.
    pub height: u32,
    /// The pixels, in row-major order.
    pub pixels: Vec<Rgb>,
}

impl RasterImage {
    /// The invariant: the pixel count matches the dimensions.
    pub open spec fn wf(self) -> bool {
        self.pixels@.len() == self.width * self.height
    }

    /// Builds an image from its dimensions and pixels; `None` exactly when
    /// the pixel count does not equal `width * height`.
    pub fn new(width: u32, height: u32, pixels: Vec<Rgb>) -> (r: Option<RasterImage>)
        ensures
            (r is Some) <==> pixels@.len() == width * height,
            r is Some ==> r.unwrap() == (RasterImage { width, height, pixels })
                && r.unwrap().wf(),
    {
        proof {
            lemma_u32_product_fits(width, height);
        }
        let count: u64 = (width as u64) * (height as u64);
        if (pixels.len() as u64) == count {
            Some(RasterImage { width, height, pixels })
        } else {
            None
        }
    }

    /// The pixel at column `x` of row `y`.
    pub fn pixel(&self, x: u32, y: u32) -> (p: Rgb)
        requires
            self.wf(),
            x < self.width,
            y < self.height,
        ensures
            p == self.pixels@[y * self.width + x],
    {
        let n: usize = self.pixels.len();
        proof {
            lemma_row_major_index_in_range(self.width, self.height, x, y);
            assert(self.width * self.height == n);
        }
        let idx: usize = (y as usize) * (self.width as usize) + (x as usize);
        self.pixels[idx]
    }
}

/// The product of two 32-bit dimensions fits in 64 bits.
pub proof fn lemma_u32_product_fits(width: u32, height: u32)
    ensures
        width * height <= u64::MAX,
{
    assert(width * height <= u64::MAX) by (nonlinear_arith);
}

/// A row-major index lies inside the pixel buffer.
pub proof fn lemma_row_major_index_in_range(width: u32, height: u32, x: u32, y: u32)
    requires
        x < width,
        y < height,
    ensures
        0 <= y * width + x < width * height,
{
    assert(y * width + x < width * height) by (nonlinear_arith)
        requires
            x < width,
            y < height,
    ;
}

} // verus!
