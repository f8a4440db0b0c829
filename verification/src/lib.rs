//! A verified codec for the VIV image format.
//!
//! A VIV file is an 8-byte header (width and height, each a little-endian
//! 32-bit unsigned integer) followed by a text body: one run of hex digits
//! per image row, six digits per pixel (two per channel, in R,G,B order),
//! rows separated by a single newline byte.

pub mod codec;
mod csshex;
pub mod hex;
pub mod raster;
