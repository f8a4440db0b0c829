//! The one call into the CSS color parser: turning a six-digit hex chunk
//! into a pixel.

use vstd::prelude::*;
use crate::hex::is_hex_digit;
use crate::raster::Rgb;
use crate::raster::chunk_pixel;

verus! {

/// Relies on css-color-parser's `FromStr` for `Color`: a string of `#`
/// followed by six hex digits parses to the color whose red, green and blue
/// channels are the values of the three hex digit pairs, in that order.
#[verifier::external_body]
pub(crate) fn parse_hex_color(chunk: &Vec<u8>) -> (p: Rgb)
    requires
        chunk@.len() == 6,
        forall|i: int| 0 <= i < 6 ==> is_hex_digit(chunk@[i]),
    ensures
        p == chunk_pixel(chunk@),
{
    let text = String::from_utf8(chunk.clone()).unwrap();
    let css: css_color_parser::Color = format!("#{}", text).parse().unwrap();
    Rgb { r: css.r, g: css.g, b: css.b }
}

} // verus!
