//! The VIV codec: serializing a raster image into VIV bytes and parsing
//! VIV bytes back into a raster image.
//!
//! Layout of a VIV byte buffer: the image width, then the height, each as a
//! little-endian 32-bit unsigned integer; then the body, one run of hex
//! digits per row (six lowercase digits per pixel, channels R, G, B), the
//! rows separated by single newline bytes.

use vstd::prelude::*;
use crate::csshex::parse_hex_color;
use crate::hex::NEWLINE;
use crate::hex::hex_digit_check;
use crate::hex::is_hex_digit;
use crate::hex::push_byte_hex;
use crate::raster::Rgb;
use crate::raster::RasterImage;
use crate::raster::pixel_hex;
use crate::raster::chunk_pixel;
use crate::raster::lemma_pixel_hex_value;

verus! {

// ---------------------------------------------------------------------
// The 8-byte header: two little-endian 32-bit integers.
// ---------------------------------------------------------------------

/// The four bytes of `v` in little-endian order.
pub open spec fn u32_le_bytes(v: u32) -> Seq<u8> {
    seq![
        (v & 0xff) as u8,
        ((v >> 8) & 0xff) as u8,
        ((v >> 16) & 0xff) as u8,
        ((v >> 24) & 0xff) as u8,
    ]
}

/// The 32-bit value denoted by four little-endian bytes.
pub open spec fn u32_from_le(b0: u8, b1: u8, b2: u8, b3: u8) -> u32 {
    (b0 as u32) | ((b1 as u32) << 8) | ((b2 as u32) << 16) | ((b3 as u32) << 24)
}

/// Reading back the little-endian bytes of `v` yields `v`.
pub proof fn lemma_u32_le_roundtrip(v: u32)
    ensures
        u32_from_le(
            u32_le_bytes(v)[0],
            u32_le_bytes(v)[1],
            u32_le_bytes(v)[2],
            u32_le_bytes(v)[3],
        ) == v,
{
    assert(((v & 0xff) as u8 as u32) | ((((v >> 8) & 0xff) as u8 as u32) << 8) | ((((v >> 16)
        & 0xff) as u8 as u32) << 16) | ((((v >> 24) & 0xff) as u8 as u32) << 24) == v)
        by (bit_vector);
}

/// Assembles a 32-bit value from four little-endian bytes.
pub fn u32_from_le_bytes(b0: u8, b1: u8, b2: u8, b3: u8) -> (r: u32)
    ensures
        r == u32_from_le(b0, b1, b2, b3),
{
    (b0 as u32) | ((b1 as u32) << 8) | ((b2 as u32) << 16) | ((b3 as u32) << 24)
}

/// Appends the four little-endian bytes of `v` to `out`.
pub fn push_u32_le(out: &mut Vec<u8>, v: u32)
    ensures
        final(out)@ == old(out)@ + u32_le_bytes(v),
{
    out.push((v & 0xff) as u8);
    out.push(((v >> 8) & 0xff) as u8);
    out.push(((v >> 16) & 0xff) as u8);
    out.push(((v >> 24) & 0xff) as u8);
    assert(out@ =~= old(out)@ + u32_le_bytes(v));
}

// ---------------------------------------------------------------------
// The body an encoder writes.
// ---------------------------------------------------------------------

/// The hex runs of the pixels of `ps`, concatenated in order.
pub open spec fn pixels_hex(ps: Seq<Rgb>) -> Seq<u8>
    decreases ps.len(),
{
    if ps.len() == 0 {
        Seq::empty()
    } else {
        pixels_hex(ps.drop_last()) + pixel_hex(ps.last())
    }
}

/// The hex run of row `y`: its `width` pixels, no separators.
pub open spec fn row_hex(width: u32, pixels: Seq<Rgb>, y: int) -> Seq<u8>
    recommends
        0 <= y,
        (y + 1) * width <= pixels.len(),
{
    pixels_hex(pixels.subrange(y * width, (y + 1) * width))
}

/// The first `n` rows, separated by single newline bytes.
pub open spec fn rows_hex(width: u32, pixels: Seq<Rgb>, n: int) -> Seq<u8>
    decreases n,
{
    if n <= 0 {
        Seq::empty()
    } else if n == 1 {
        row_hex(width, pixels, 0)
    } else {
        rows_hex(width, pixels, n - 1) + seq![NEWLINE] + row_hex(width, pixels, n - 1)
    }
}

/// The body of the VIV encoding of `img`: all rows, newline-separated.
pub open spec fn body_spec(img: RasterImage) -> Seq<u8> {
    rows_hex(img.width, img.pixels@, img.height as int)
}

/// The complete VIV encoding of `img`: header, then body.
pub open spec fn encode_spec(img: RasterImage) -> Seq<u8> {
    u32_le_bytes(img.width) + u32_le_bytes(img.height) + body_spec(img)
}

/// Extending a slice of pixels by one appends that pixel's hex run.
proof fn lemma_pixels_hex_snoc(ps: Seq<Rgb>, a: int, b: int)
    requires
        0 <= a <= b < ps.len(),
    ensures
        pixels_hex(ps.subrange(a, b + 1)) == pixels_hex(ps.subrange(a, b)) + pixel_hex(ps[b]),
{
    let t = ps.subrange(a, b + 1);
    assert(t.len() > 0);
    assert(t.drop_last() =~= ps.subrange(a, b));
    assert(t.last() == ps[b]);
}

/// A run of `n` pixels encodes to `6 * n` bytes.
pub proof fn lemma_pixels_hex_len(ps: Seq<Rgb>)
    ensures
        pixels_hex(ps).len() == 6 * ps.len(),
    decreases ps.len(),
{
    if ps.len() > 0 {
        lemma_pixels_hex_len(ps.drop_last());
        lemma_pixel_hex_value(ps.last());
    }
}

/// Every byte of a pixel run is a hex digit, and none is a newline.
pub proof fn lemma_pixels_hex_digits(ps: Seq<Rgb>)
    ensures
        forall|i: int| 0 <= i < pixels_hex(ps).len() ==> is_hex_digit(#[trigger] pixels_hex(ps)[i]),
        forall|i: int| 0 <= i < pixels_hex(ps).len() ==> #[trigger] pixels_hex(ps)[i] != NEWLINE,
    decreases ps.len(),
{
    if ps.len() > 0 {
        lemma_pixels_hex_digits(ps.drop_last());
        lemma_pixel_hex_value(ps.last());
        assert forall|i: int| 0 <= i < pixels_hex(ps).len() implies is_hex_digit(
            #[trigger] pixels_hex(ps)[i],
        ) && pixels_hex(ps)[i] != NEWLINE by {
            let front = pixels_hex(ps.drop_last());
            if i < front.len() {
                assert(pixels_hex(ps)[i] == front[i]);
            } else {
                assert(pixels_hex(ps)[i] == pixel_hex(ps.last())[i - front.len()]);
            }
        }
    }
}

/// Concatenating pixel slices concatenates their hex runs.
pub proof fn lemma_pixels_hex_concat(a: Seq<Rgb>, b: Seq<Rgb>)
    ensures
        pixels_hex(a + b) == pixels_hex(a) + pixels_hex(b),
    decreases b.len(),
{
    if b.len() == 0 {
        assert(a + b =~= a);
        assert(pixels_hex(a) + pixels_hex(b) =~= pixels_hex(a));
    } else {
        lemma_pixels_hex_concat(a, b.drop_last());
        assert((a + b).drop_last() =~= a + b.drop_last());
        assert((a + b).last() == b.last());
        assert(pixels_hex(a) + pixels_hex(b) =~= pixels_hex(a) + pixels_hex(b.drop_last())
            + pixel_hex(b.last()));
    }
}

/// Chunk `i` of a pixel run is the hex run of pixel `i`.
pub proof fn lemma_pixels_hex_chunk(ps: Seq<Rgb>, i: int)
    requires
        0 <= i < ps.len(),
    ensures
        pixels_hex(ps).subrange(6 * i, 6 * i + 6) == pixel_hex(ps[i]),
    decreases ps.len(),
{
    lemma_pixels_hex_len(ps.drop_last());
    lemma_pixel_hex_value(ps.last());
    if i == ps.len() - 1 {
        assert(pixels_hex(ps).subrange(6 * i, 6 * i + 6) =~= pixel_hex(ps[i]));
    } else {
        lemma_pixels_hex_chunk(ps.drop_last(), i);
        assert(pixels_hex(ps).subrange(6 * i, 6 * i + 6) =~= pixels_hex(ps.drop_last()).subrange(
            6 * i,
            6 * i + 6,
        ));
    }
}

// ---------------------------------------------------------------------
// The encoder.
// ---------------------------------------------------------------------

/// Bounds of the pixel slice of row `y`: within a `width * height` buffer,
/// and `(y + 1) * width` is one row past `y * width`.
pub proof fn lemma_row_slice_bounds(width: u32, height: u32, y: int)
    requires
        0 <= y < height,
    ensures
        0 <= y * width,
        (y + 1) * width == y * width + width,
        y * width + width <= width * height,
{
    assert(0 <= y * width && (y + 1) * width == y * width + width && y * width + width <= width
        * height) by (nonlinear_arith)
        requires
            0 <= y < height,
    ;
}

/// The rows already written when the encoder starts row `y`: the first `y`
/// rows, with the separator that precedes row `y` when `y > 0`.
pub open spec fn rows_hex_before(width: u32, pixels: Seq<Rgb>, y: int) -> Seq<u8> {
    if y <= 0 {
        Seq::empty()
    } else {
        rows_hex(width, pixels, y) + seq![NEWLINE]
    }
}

/// Encodes `img` as a VIV byte buffer: the 8-byte header followed by the
/// newline-separated hex body, exactly `encode_spec(img)`.
pub fn encode(img: &RasterImage) -> (out: Vec<u8>)
    requires
        img.wf(),
        8 + 6 * (img.width * img.height) + img.height <= usize::MAX,
    ensures
        out@ == encode_spec(*img),
{
    let width: u32 = img.width;
    let height: u32 = img.height;
    let mut out: Vec<u8> = Vec::new();
    push_u32_le(&mut out, width);
    push_u32_le(&mut out, height);
    let ghost header: Seq<u8> = u32_le_bytes(width) + u32_le_bytes(height);
    assert(out@ =~= header);
    assert(out@ =~= header + rows_hex(width, img.pixels@, 0));
    let mut y: u32 = 0;
    while y < height
        invariant
            img.wf(),
            width == img.width,
            height == img.height,
            y <= height,
            header == u32_le_bytes(width) + u32_le_bytes(height),
            out@ == header + rows_hex(width, img.pixels@, y as int),
        decreases height - y,
    {
        if y > 0 {
            out.push(NEWLINE);
        }
        proof {
            lemma_row_slice_bounds(width, height, y as int);
            assert(out@ =~= header + rows_hex_before(width, img.pixels@, y as int));
            assert(img.pixels@.subrange(y * width, y * width) =~= Seq::<Rgb>::empty());
            assert(out@ =~= header + rows_hex_before(width, img.pixels@, y as int) + pixels_hex(
                img.pixels@.subrange(y * width, y * width),
            ));
        }
        let mut x: u32 = 0;
        while x < width
            invariant
                img.wf(),
                width == img.width,
                height == img.height,
                y < height,
                x <= width,
                header == u32_le_bytes(width) + u32_le_bytes(height),
                out@ == header + rows_hex_before(width, img.pixels@, y as int) + pixels_hex(
                    img.pixels@.subrange(y * width, y * width + x),
                ),
            decreases width - x,
        {
            let p: Rgb = img.pixel(x, y);
            push_byte_hex(&mut out, p.r);
            push_byte_hex(&mut out, p.g);
            push_byte_hex(&mut out, p.b);
            proof {
                crate::raster::lemma_row_major_index_in_range(width, height, x, y);
                lemma_pixels_hex_snoc(img.pixels@, y * width, y * width + x);
                assert(out@ =~= header + rows_hex_before(width, img.pixels@, y as int)
                    + pixels_hex(img.pixels@.subrange(y * width, y * width + x + 1)));
            }
            x = x + 1;
        }
        proof {
            lemma_row_slice_bounds(width, height, y as int);
            assert(out@ == header + rows_hex_before(width, img.pixels@, y as int) + row_hex(
                width,
                img.pixels@,
                y as int,
            ));
            if y == 0 {
                assert(rows_hex(width, img.pixels@, 1) == row_hex(width, img.pixels@, 0));
                assert(out@ =~= header + rows_hex(width, img.pixels@, (y + 1) as int));
            } else {
                assert(rows_hex(width, img.pixels@, y as int + 1) == rows_hex(
                    width,
                    img.pixels@,
                    y as int,
                ) + seq![NEWLINE] + row_hex(width, img.pixels@, y as int));
                assert(out@ =~= header + rows_hex(width, img.pixels@, (y + 1) as int));
            }
        }
        y = y + 1;
    }
    assert(out@ =~= encode_spec(*img));
    out
}

// ---------------------------------------------------------------------
// The decoder.
// ---------------------------------------------------------------------

/// `s` with every newline byte removed, order kept.
pub open spec fn strip_newlines(s: Seq<u8>) -> Seq<u8>
    decreases s.len(),
{
    if s.len() == 0 {
        Seq::empty()
    } else if s.last() == NEWLINE {
        strip_newlines(s.drop_last())
    } else {
        strip_newlines(s.drop_last()) + seq![s.last()]
    }
}

/// The width stored in the first four bytes of a VIV buffer.
pub open spec fn header_width(bytes: Seq<u8>) -> u32
    recommends
        bytes.len() >= 8,
{
    u32_from_le(bytes[0], bytes[1], bytes[2], bytes[3])
}

/// The height stored in the next four bytes of a VIV buffer.
pub open spec fn header_height(bytes: Seq<u8>) -> u32
    recommends
        bytes.len() >= 8,
{
    u32_from_le(bytes[4], bytes[5], bytes[6], bytes[7])
}

/// The de-newlined hex run of a VIV buffer's body.
pub open spec fn hex_run(bytes: Seq<u8>) -> Seq<u8>
    recommends
        bytes.len() >= 8,
{
    strip_newlines(bytes.skip(8))
}

/// True when every byte of `s` is a hex digit.
pub open spec fn all_hex(s: Seq<u8>) -> bool {
    forall|i: int| 0 <= i < s.len() ==> is_hex_digit(#[trigger] s[i])
}

/// True exactly when decoding accepts `bytes`: at least 8 header bytes,
/// a hex run of exactly six digits per pixel, and nothing but hex digits
/// in it. A run whose length is not six times width times height — a
/// partial chunk, or one chunk too few or too many — is rejected, never
/// truncated or padded.
pub open spec fn decode_ok(bytes: Seq<u8>) -> bool {
    &&& bytes.len() >= 8
    &&& hex_run(bytes).len() == 6 * (header_width(bytes) * header_height(bytes))
    &&& all_hex(hex_run(bytes))
}

/// Pixel `i` of an accepted VIV buffer: the value of chunk `i` of its
/// hex run.
pub open spec fn decoded_pixel(bytes: Seq<u8>, i: int) -> Rgb
    recommends
        decode_ok(bytes),
        0 <= i < header_width(bytes) * header_height(bytes),
{
    chunk_pixel(hex_run(bytes).subrange(6 * i, 6 * i + 6))
}

/// Why a VIV buffer was rejected.
#[derive(Clone, Copy, Debug, PartialEq, Eq, Structural)]
pub enum VivError {
    /// Fewer than the 8 header bytes.
    Truncated,
    /// The de-newlined body is not exactly six hex digits per pixel.
    WrongLength,
    /// A chunk holds a byte that is no hex digit, so it names no color.
    InvalidColor,
}

/// The total body length of a `w` by `h` image fits in 128 bits.
proof fn lemma_chunk_total_fits(w: u32, h: u32)
    ensures
        0 <= 6 * (w as int) * (h as int) <= u128::MAX,
{
    assert(0 <= 6 * (w as int) * (h as int) <= u128::MAX) by (nonlinear_arith);
}

/// Decodes a VIV byte buffer into a raster image.
///
/// Succeeds exactly on the buffers `decode_ok` accepts, and then returns
/// the image whose dimensions are the header's and whose pixels are the
/// chunk values of the hex run, in order. Each rejection names its cause:
/// `Truncated` for a buffer under 8 bytes, `WrongLength` for a hex run
/// that is not exactly six digits per pixel, `InvalidColor` for a chunk
/// that is no hex run.
pub fn decode(bytes: &Vec<u8>) -> (r: Result<RasterImage, VivError>)
    ensures
        (r is Ok) <==> decode_ok(bytes@),
        r is Ok ==> ({
            let img = r.unwrap();
            &&& img.wf()
            &&& img.width == header_width(bytes@)
            &&& img.height == header_height(bytes@)
            &&& img.pixels@.len() == header_width(bytes@) * header_height(bytes@)
            &&& forall|i: int|
                0 <= i < img.pixels@.len() ==> img.pixels@[i] == decoded_pixel(bytes@, i)
        }),
        bytes@.len() < 8 ==> r == Err::<RasterImage, VivError>(VivError::Truncated),
        bytes@.len() >= 8 && hex_run(bytes@).len() != 6 * (header_width(bytes@) * header_height(
            bytes@,
        )) ==> r == Err::<RasterImage, VivError>(VivError::WrongLength),
        bytes@.len() >= 8 && hex_run(bytes@).len() == 6 * (header_width(bytes@) * header_height(
            bytes@,
        )) && !all_hex(hex_run(bytes@)) ==> r == Err::<RasterImage, VivError>(
            VivError::InvalidColor,
        ),
{
    let n_bytes: usize = bytes.len();
    if n_bytes < 8 {
        return Err(VivError::Truncated);
    }
    let w: u32 = u32_from_le_bytes(bytes[0], bytes[1], bytes[2], bytes[3]);
    let h: u32 = u32_from_le_bytes(bytes[4], bytes[5], bytes[6], bytes[7]);
    let mut run: Vec<u8> = Vec::new();
    let mut i: usize = 8;
    while i < n_bytes
        invariant
            8 <= i <= n_bytes,
            n_bytes == bytes@.len(),
            run@ == strip_newlines(bytes@.subrange(8, i as int)),
        decreases n_bytes - i,
    {
        let c: u8 = bytes[i];
        if c != NEWLINE {
            run.push(c);
        }
        proof {
            let t = bytes@.subrange(8, i as int + 1);
            assert(t.drop_last() =~= bytes@.subrange(8, i as int));
            assert(t.last() == bytes@[i as int]);
            assert(run@ =~= strip_newlines(t));
        }
        i = i + 1;
    }
    proof {
        assert(bytes@.subrange(8, n_bytes as int) =~= bytes@.skip(8));
        lemma_chunk_total_fits(w, h);
        assert((6 * (w as int)) * (h as int) == 6 * ((w as int) * (h as int)))
            by (nonlinear_arith);
    }
    let run_len: usize = run.len();
    let need: u128 = 6u128 * (w as u128) * (h as u128);
    if (run_len as u128) != need {
        proof {
            assert(hex_run(bytes@).len() != 6 * (header_width(bytes@) * header_height(bytes@)));
        }
        return Err(VivError::WrongLength);
    }
    proof {
        crate::raster::lemma_u32_product_fits(w, h);
    }
    let count_u64: u64 = (w as u64) * (h as u64);
    assert(count_u64 <= usize::MAX);
    let count: usize = count_u64 as usize;
    let mut pixels: Vec<Rgb> = Vec::new();
    let mut k: usize = 0;
    while k < count
        invariant
            k <= count,
            count == w * h,
            bytes@.len() >= 8,
            w == header_width(bytes@),
            h == header_height(bytes@),
            run@ == hex_run(bytes@),
            run@.len() == 6 * count,
            run@.len() <= usize::MAX,
            pixels@.len() == k,
            forall|j: int| 0 <= j < k ==> pixels@[j] == decoded_pixel(bytes@, j),
            forall|j: int| 0 <= j < 6 * k ==> is_hex_digit(#[trigger] run@[j]),
        decreases count - k,
    {
        let base: usize = 6 * k;
        let mut chunk: Vec<u8> = Vec::new();
        let mut j: usize = 0;
        while j < 6
            invariant
                j <= 6,
                k < count,
                base == 6 * k,
                count == w * h,
                bytes@.len() >= 8,
                w == header_width(bytes@),
                h == header_height(bytes@),
                run@ == hex_run(bytes@),
                run@.len() == 6 * count,
                run@.len() <= usize::MAX,
                chunk@ == run@.subrange(6 * (k as int), 6 * (k as int) + j as int),
                forall|t: int| 0 <= t < j ==> is_hex_digit(#[trigger] chunk@[t]),
            decreases 6 - j,
        {
            let c: u8 = run[base + j];
            if !hex_digit_check(c) {
                proof {
                    assert(!is_hex_digit(hex_run(bytes@)[6 * (k as int) + j as int]));
                    assert(!all_hex(hex_run(bytes@)));
                }
                return Err(VivError::InvalidColor);
            }
            chunk.push(c);
            proof {
                assert(chunk@ =~= run@.subrange(6 * (k as int), 6 * (k as int) + j as int + 1));
            }
            j = j + 1;
        }
        let p: Rgb = parse_hex_color(&chunk);
        pixels.push(p);
        proof {
            assert(chunk@ == hex_run(bytes@).subrange(6 * (k as int), 6 * (k as int) + 6));
            assert(pixels@[k as int] == decoded_pixel(bytes@, k as int));
            assert forall|j: int| 0 <= j < 6 * (k + 1) implies is_hex_digit(
                #[trigger] run@[j],
            ) by {
                if j >= 6 * k {
                    assert(run@[j] == chunk@[j - 6 * (k as int)]);
                }
            }
        }
        k = k + 1;
    }
    let img = RasterImage { width: w, height: h, pixels };
    proof {
        assert(all_hex(hex_run(bytes@)));
        assert(decode_ok(bytes@));
        assert(img.wf());
    }
    Ok(img)
}

// ---------------------------------------------------------------------
// Laws of the codec.
// ---------------------------------------------------------------------

/// Removing newlines distributes over concatenation.
pub proof fn lemma_strip_concat(a: Seq<u8>, b: Seq<u8>)
    ensures
        strip_newlines(a + b) == strip_newlines(a) + strip_newlines(b),
    decreases b.len(),
{
    if b.len() == 0 {
        assert(a + b =~= a);
        assert(strip_newlines(a) + strip_newlines(b) =~= strip_newlines(a));
    } else {
        lemma_strip_concat(a, b.drop_last());
        assert((a + b).drop_last() =~= a + b.drop_last());
        assert((a + b).last() == b.last());
        if b.last() == NEWLINE {
            assert(strip_newlines(b) == strip_newlines(b.drop_last()));
        } else {
            assert(strip_newlines(a + b) =~= strip_newlines(a) + strip_newlines(b));
        }
    }
}

/// A sequence without newline bytes is unchanged by removing them.
pub proof fn lemma_strip_no_newlines(s: Seq<u8>)
    requires
        forall|i: int| 0 <= i < s.len() ==> #[trigger] s[i] != NEWLINE,
    ensures
        strip_newlines(s) == s,
    decreases s.len(),
{
    if s.len() > 0 {
        assert forall|i: int| 0 <= i < s.drop_last().len() implies #[trigger] s.drop_last()[i]
            != NEWLINE by {
            assert(s.drop_last()[i] == s[i]);
        }
        lemma_strip_no_newlines(s.drop_last());
        assert(strip_newlines(s) =~= s);
    }
}

/// How many newline bytes `s` holds.
pub open spec fn newline_count(s: Seq<u8>) -> nat
    decreases s.len(),
{
    if s.len() == 0 {
        0
    } else if s.last() == NEWLINE {
        newline_count(s.drop_last()) + 1
    } else {
        newline_count(s.drop_last())
    }
}

/// Newline counts add up over concatenation.
pub proof fn lemma_newline_count_concat(a: Seq<u8>, b: Seq<u8>)
    ensures
        newline_count(a + b) == newline_count(a) + newline_count(b),
    decreases b.len(),
{
    if b.len() == 0 {
        assert(a + b =~= a);
    } else {
        lemma_newline_count_concat(a, b.drop_last());
        assert((a + b).drop_last() =~= a + b.drop_last());
        assert((a + b).last() == b.last());
    }
}

/// A sequence without newline bytes counts zero of them.
pub proof fn lemma_newline_count_none(s: Seq<u8>)
    requires
        forall|i: int| 0 <= i < s.len() ==> #[trigger] s[i] != NEWLINE,
    ensures
        newline_count(s) == 0,
    decreases s.len(),
{
    if s.len() > 0 {
        assert forall|i: int| 0 <= i < s.drop_last().len() implies #[trigger] s.drop_last()[i]
            != NEWLINE by {
            assert(s.drop_last()[i] == s[i]);
        }
        lemma_newline_count_none(s.drop_last());
    }
}

/// No byte of a row's hex run is a newline.
proof fn lemma_row_no_newlines(width: u32, pixels: Seq<Rgb>, y: int)
    ensures
        forall|i: int|
            0 <= i < row_hex(width, pixels, y).len() ==> #[trigger] row_hex(width, pixels, y)[i]
                != NEWLINE,
{
    let s = pixels.subrange(y * width, (y + 1) * width);
    lemma_pixels_hex_digits(s);
    assert forall|i: int| 0 <= i < row_hex(width, pixels, y).len() implies #[trigger] row_hex(
        width,
        pixels,
        y,
    )[i] != NEWLINE by {
        assert(row_hex(width, pixels, y)[i] == pixels_hex(s)[i]);
    }
}

/// A single newline byte: stripped away entirely, counted once.
proof fn lemma_single_newline()
    ensures
        strip_newlines(seq![NEWLINE]) == Seq::<u8>::empty(),
        newline_count(seq![NEWLINE]) == 1,
{
    let s = seq![NEWLINE];
    assert(s.len() == 1);
    assert(s.last() == NEWLINE);
    assert(s.drop_last() =~= Seq::<u8>::empty());
    assert(strip_newlines(Seq::<u8>::empty()) == Seq::<u8>::empty());
    assert(newline_count(Seq::<u8>::empty()) == 0);
}

/// De-newlining the first `n` rows yields the first `n * width` pixels' hex.
proof fn lemma_strip_rows(width: u32, pixels: Seq<Rgb>, n: int)
    requires
        0 <= n,
        n * width <= pixels.len(),
    ensures
        strip_newlines(rows_hex(width, pixels, n)) == pixels_hex(pixels.subrange(0, n * width)),
    decreases n,
{
    if n <= 0 {
        assert(pixels.subrange(0, 0) =~= Seq::<Rgb>::empty());
    } else if n == 1 {
        assert(1 * width == width as int) by (nonlinear_arith);
        lemma_row_no_newlines(width, pixels, 0);
        lemma_strip_no_newlines(row_hex(width, pixels, 0));
    } else {
        assert((n - 1) * width == n * width - width) by (nonlinear_arith);
        lemma_strip_rows(width, pixels, n - 1);
        let front = rows_hex(width, pixels, n - 1);
        let row = row_hex(width, pixels, n - 1);
        let rowslice = pixels.subrange((n - 1) * width, n * width);
        assert(row == pixels_hex(rowslice));
        lemma_row_no_newlines(width, pixels, n - 1);
        lemma_strip_no_newlines(row);
        lemma_strip_concat(front, seq![NEWLINE]);
        lemma_strip_concat(front + seq![NEWLINE], row);
        lemma_single_newline();
        lemma_pixels_hex_concat(pixels.subrange(0, (n - 1) * width), rowslice);
        assert(pixels.subrange(0, (n - 1) * width) + rowslice =~= pixels.subrange(0, n * width));
        assert(strip_newlines(rows_hex(width, pixels, n)) =~= pixels_hex(
            pixels.subrange(0, n * width),
        ));
    }
}

/// The first `n >= 1` rows hold exactly `n - 1` newline bytes.
proof fn lemma_rows_newline_count(width: u32, pixels: Seq<Rgb>, n: int)
    requires
        1 <= n,
        n * width <= pixels.len(),
    ensures
        newline_count(rows_hex(width, pixels, n)) == n - 1,
    decreases n,
{
    if n == 1 {
        assert(1 * width == width as int) by (nonlinear_arith);
        lemma_row_no_newlines(width, pixels, 0);
        lemma_newline_count_none(row_hex(width, pixels, 0));
    } else {
        assert((n - 1) * width == n * width - width) by (nonlinear_arith);
        lemma_rows_newline_count(width, pixels, n - 1);
        let front = rows_hex(width, pixels, n - 1);
        let row = row_hex(width, pixels, n - 1);
        lemma_row_no_newlines(width, pixels, n - 1);
        lemma_newline_count_none(row);
        lemma_newline_count_concat(front, seq![NEWLINE]);
        lemma_newline_count_concat(front + seq![NEWLINE], row);
        lemma_single_newline();
    }
}

/// Header fidelity: the first eight bytes of an encoding carry the image's
/// width and height, and decode back to exactly those values.
pub proof fn lemma_header_fidelity(img: RasterImage)
    requires
        img.wf(),
    ensures
        encode_spec(img).len() >= 8,
        header_width(encode_spec(img)) == img.width,
        header_height(encode_spec(img)) == img.height,
{
    let e = encode_spec(img);
    let a = u32_le_bytes(img.width);
    let b = u32_le_bytes(img.height);
    lemma_u32_le_roundtrip(img.width);
    lemma_u32_le_roundtrip(img.height);
    assert forall|i: int| 0 <= i < 4 implies e[i] == a[i] && e[i + 4] == b[i] by {
        assert(e[i] == (a + b)[i]);
        assert(e[i + 4] == (a + b)[i + 4]);
    }
}

/// Row separation: the body of an encoded image of height `H >= 1` holds
/// exactly `H - 1` newline bytes, one between each pair of adjacent rows.
pub proof fn lemma_body_newline_count(img: RasterImage)
    requires
        img.wf(),
        img.height >= 1,
    ensures
        newline_count(body_spec(img)) == img.height - 1,
{
    assert((img.height as int) * (img.width as int) == (img.width as int) * (
    img.height as int)) by (nonlinear_arith);
    lemma_rows_newline_count(img.width, img.pixels@, img.height as int);
}

/// Round-trip identity: the encoding of a well-formed image is accepted by
/// the decoder and decodes back to the same dimensions and the same pixels.
pub proof fn lemma_round_trip(img: RasterImage)
    requires
        img.wf(),
    ensures
        decode_ok(encode_spec(img)),
        header_width(encode_spec(img)) == img.width,
        header_height(encode_spec(img)) == img.height,
        forall|i: int|
            0 <= i < img.pixels@.len() ==> decoded_pixel(encode_spec(img), i) == img.pixels@[i],
{
    let e = encode_spec(img);
    let ps = img.pixels@;
    lemma_header_fidelity(img);
    assert(e.skip(8) =~= body_spec(img));
    assert((img.height as int) * (img.width as int) == (img.width as int) * (
    img.height as int)) by (nonlinear_arith);
    lemma_strip_rows(img.width, ps, img.height as int);
    assert(ps.subrange(0, (img.height as int) * img.width) =~= ps);
    assert(hex_run(e) == pixels_hex(ps));
    lemma_pixels_hex_len(ps);
    lemma_pixels_hex_digits(ps);
    assert(all_hex(hex_run(e)));
    assert forall|i: int| 0 <= i < ps.len() implies decoded_pixel(e, i) == ps[i] by {
        lemma_pixels_hex_chunk(ps, i);
        lemma_pixel_hex_value(ps[i]);
    }
}

} // verus!
