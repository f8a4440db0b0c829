use viv::codec::decode;
use viv::codec::encode;
use viv::codec::VivError;
use viv::raster::RasterImage;
use viv::raster::Rgb;

fn rgb(r: u8, g: u8, b: u8) -> Rgb {
    Rgb { r, g, b }
}

fn image(width: u32, height: u32, pixels: Vec<Rgb>) -> RasterImage {
    RasterImage::new(width, height, pixels).expect("pixel count must match dimensions")
}

fn header(width: u32, height: u32) -> Vec<u8> {
    let mut bytes = width.to_le_bytes().to_vec();
    bytes.extend_from_slice(&height.to_le_bytes());
    bytes
}

#[test]
fn encode_two_by_one_exact_bytes() {
    let img = image(2, 1, vec![rgb(255, 0, 0), rgb(0, 255, 0)]);
    let out = encode(&img);
    let mut expected = header(2, 1);
    expected.extend_from_slice(b"ff000000ff00");
    assert_eq!(out, expected);
}

#[test]
fn decode_two_by_one_pixels() {
    let img = image(2, 1, vec![rgb(255, 0, 0), rgb(0, 255, 0)]);
    let out = encode(&img);
    let back = decode(&out).expect("a fresh encoding must decode");
    assert_eq!(back.width, 2);
    assert_eq!(back.height, 1);
    assert_eq!(back.pixel(0, 0), rgb(255, 0, 0));
    assert_eq!(back.pixel(1, 0), rgb(0, 255, 0));
}

#[test]
fn encode_one_by_two_body() {
    let img = image(1, 2, vec![rgb(0, 0, 0), rgb(255, 255, 255)]);
    let out = encode(&img);
    assert_eq!(&out[0..8], header(1, 2).as_slice());
    assert_eq!(&out[8..], b"000000\nffffff");
}

#[test]
fn round_trip_three_by_two() {
    let pixels = vec![
        rgb(1, 2, 3),
        rgb(16, 32, 64),
        rgb(255, 254, 253),
        rgb(0, 0, 0),
        rgb(171, 205, 239),
        rgb(9, 90, 200),
    ];
    let img = image(3, 2, pixels.clone());
    let back = decode(&encode(&img)).expect("round trip must succeed");
    assert_eq!(back.width, 3);
    assert_eq!(back.height, 2);
    assert_eq!(back.pixels, pixels);
}

#[test]
fn header_carries_dimensions() {
    let img = image(7, 5, vec![rgb(10, 20, 30); 35]);
    let out = encode(&img);
    assert_eq!(u32::from_le_bytes(out[0..4].try_into().unwrap()), 7);
    assert_eq!(u32::from_le_bytes(out[4..8].try_into().unwrap()), 5);
}

#[test]
fn body_newline_count_is_height_minus_one() {
    let img = image(3, 4, vec![rgb(5, 6, 7); 12]);
    let out = encode(&img);
    let newlines = out[8..].iter().filter(|&&b| b == b'\n').count();
    assert_eq!(newlines, 3);
}

#[test]
fn single_row_has_no_newline() {
    let img = image(4, 1, vec![rgb(1, 1, 1); 4]);
    let out = encode(&img);
    assert!(out[8..].iter().all(|&b| b != b'\n'));
}

#[test]
fn short_buffer_is_truncated() {
    assert_eq!(decode(&vec![]).unwrap_err(), VivError::Truncated);
    assert_eq!(decode(&vec![1, 2, 3]).unwrap_err(), VivError::Truncated);
    assert_eq!(decode(&vec![0, 0, 0, 0, 0, 0, 0]).unwrap_err(), VivError::Truncated);
}

#[test]
fn non_hex_chunk_is_invalid_color() {
    let mut buf = header(1, 1);
    buf.extend_from_slice(b"zzzzzz");
    assert_eq!(decode(&buf).unwrap_err(), VivError::InvalidColor);
}

#[test]
fn partial_chunk_is_wrong_length() {
    let mut buf = header(1, 1);
    buf.extend_from_slice(b"ff00");
    assert_eq!(decode(&buf).unwrap_err(), VivError::WrongLength);
}

#[test]
fn one_chunk_too_few_is_wrong_length() {
    let mut buf = header(2, 1);
    buf.extend_from_slice(b"ff0000");
    assert_eq!(decode(&buf).unwrap_err(), VivError::WrongLength);
}

#[test]
fn one_chunk_too_many_is_wrong_length() {
    let mut buf = header(1, 1);
    buf.extend_from_slice(b"ff0000aabbcc");
    assert_eq!(decode(&buf).unwrap_err(), VivError::WrongLength);
}

#[test]
fn uppercase_hex_is_accepted() {
    let mut buf = header(1, 1);
    buf.extend_from_slice(b"FF00AA");
    let img = decode(&buf).expect("uppercase hex digits name a color");
    assert_eq!(img.pixels, vec![rgb(255, 0, 170)]);
}

#[test]
fn newlines_are_ignored_wherever_they_stand() {
    let mut buf = header(2, 1);
    buf.extend_from_slice(b"ff0000\n00ff00");
    let img = decode(&buf).expect("newlines are stripped before chunking");
    assert_eq!(img.pixels, vec![rgb(255, 0, 0), rgb(0, 255, 0)]);
}

#[test]
fn empty_image_encodes_to_bare_header() {
    let img = image(0, 0, vec![]);
    let out = encode(&img);
    assert_eq!(out, header(0, 0));
    let back = decode(&out).expect("an empty image must decode");
    assert_eq!(back.width, 0);
    assert_eq!(back.height, 0);
    assert_eq!(back.pixels, vec![]);
}

#[test]
fn zero_width_rows_are_empty_but_separated() {
    let img = image(0, 3, vec![]);
    let out = encode(&img);
    assert_eq!(&out[8..], b"\n\n");
    let back = decode(&out).expect("zero-width rows must decode");
    assert_eq!(back.width, 0);
    assert_eq!(back.height, 3);
    assert_eq!(back.pixels, vec![]);
}

#[test]
fn new_rejects_mismatched_pixel_count() {
    assert!(RasterImage::new(2, 2, vec![rgb(0, 0, 0); 3]).is_none());
    assert!(RasterImage::new(2, 2, vec![rgb(0, 0, 0); 4]).is_some());
}

#[test]
fn pixel_reads_row_major() {
    let img = image(2, 2, vec![rgb(1, 0, 0), rgb(2, 0, 0), rgb(3, 0, 0), rgb(4, 0, 0)]);
    assert_eq!(img.pixel(0, 0), rgb(1, 0, 0));
    assert_eq!(img.pixel(1, 0), rgb(2, 0, 0));
    assert_eq!(img.pixel(0, 1), rgb(3, 0, 0));
    assert_eq!(img.pixel(1, 1), rgb(4, 0, 0));
}

#[test]
fn black_and_white_round_trip() {
    let img = image(1, 2, vec![rgb(0, 0, 0), rgb(255, 255, 255)]);
    let back = decode(&encode(&img)).expect("round trip must succeed");
    assert_eq!(back.pixels, vec![rgb(0, 0, 0), rgb(255, 255, 255)]);
}
