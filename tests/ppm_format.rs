use seam_carving::color::Color;
use seam_carving::matrix::Matrix;
use seam_carving::ppm::{decode_ppm, round_div, to_8bit, DecodeError};

fn bytes(s: &str) -> Vec<u8> {
    s.as_bytes().to_vec()
}

#[test]
fn decode_reads_header_and_pixels() {
    let img = decode_ppm(&bytes("P3\n2 1\n255\n0 128 255\n10 20 30\n")).unwrap();
    assert_eq!(img.width(), 2);
    assert_eq!(img.height(), 1);
    assert_eq!(img.at(0, 0), Color::new(0, 32896, 65535));
    assert_eq!(img.at(1, 0), Color::new(2570, 5140, 7710));
}

#[test]
fn decode_scales_by_maximum() {
    let img = decode_ppm(&bytes("P3\n1 1\n2\n1 2 0")).unwrap();
    assert_eq!(img.at(0, 0), Color::new(32768, 65535, 0));
}

#[test]
fn decode_takes_triples_across_lines_and_ignores_the_rest() {
    let img = decode_ppm(&bytes("P3\n2 1\n255\n1 2 3 4\n5 6\n7 8 9\n")).unwrap();
    assert_eq!(img.at(0, 0), Color::new(257, 514, 771));
    assert_eq!(img.at(1, 0), Color::new(1028, 1285, 1542));
}

#[test]
fn decode_rejects_other_magic() {
    assert_eq!(decode_ppm(&bytes("P2\n1 1\n255\n0 0 0\n")).err(), Some(DecodeError::FormatError));
    assert_eq!(decode_ppm(&bytes("P3x\n1 1\n255\n0 0 0\n")).err(), Some(DecodeError::FormatError));
    assert_eq!(decode_ppm(&bytes("")).err(), Some(DecodeError::FormatError));
}

#[test]
fn decode_rejects_zero_maximum() {
    assert_eq!(decode_ppm(&bytes("P3\n1 1\n0\n0 0 0\n")).err(), Some(DecodeError::FormatError));
}

#[test]
fn decode_rejects_non_numbers() {
    assert_eq!(decode_ppm(&bytes("P3\n2 x\n255\n")).err(), Some(DecodeError::ParseError));
    assert_eq!(decode_ppm(&bytes("P3\n1 1\n255\n0 -1 0\n")).err(), Some(DecodeError::ParseError));
    assert_eq!(
        decode_ppm(&bytes("P3\n1 1\n255\n0 4294967296 0\n")).err(),
        Some(DecodeError::ParseError)
    );
}

#[test]
fn decode_reports_missing_data() {
    assert_eq!(decode_ppm(&bytes("P3\n2 2\n255\n0 0 0\n1 1 1\n")).err(), Some(DecodeError::ExhaustionError));
    assert_eq!(decode_ppm(&bytes("P3\n2 2")).err(), Some(DecodeError::ExhaustionError));
    assert_eq!(decode_ppm(&bytes("P3")).err(), Some(DecodeError::ExhaustionError));
}

#[test]
fn decode_keeps_channels_above_maximum() {
    let img = decode_ppm(&bytes("P3\n1 1\n1\n70000 0 4294967295\n")).unwrap();
    assert_eq!(img.at(0, 0), Color::new(4587450000, 0, 281470681677825));
    assert_eq!(
        decode_ppm(&bytes("P3\n2 1\n1\n70000 0 0\n")).err(),
        Some(DecodeError::ExhaustionError)
    );
}

#[test]
fn error_messages() {
    assert_eq!(DecodeError::FormatError.message(), "image is not of type P3");
    assert_eq!(
        DecodeError::ExhaustionError.message(),
        "image doesn't contain enough pixel data"
    );
}

#[test]
fn encode_writes_header_and_rounded_channels() {
    let mut img = Matrix::new(2, 1, Color::black());
    img.set(0, 0, Color::new(65535, 32896, 128));
    img.set(1, 0, Color::new(129, 0, 385));
    let text = String::from_utf8(img.encode_ppm()).unwrap();
    assert_eq!(text, "P3\n2 1\n255\n255 128 0\n1 0 1\n");
}

#[test]
fn round_div_rounds_half_up() {
    assert_eq!(round_div(1, 2), 1);
    assert_eq!(round_div(3, 2), 2);
    assert_eq!(round_div(5, 4), 1);
    assert_eq!(round_div(7, 4), 2);
    assert_eq!(round_div(0, 9), 0);
}

#[test]
fn encode_after_decode_reproduces_input() {
    let text = "P3\n3 2\n255\n0 128 255\n10 20 30\n1 2 3\n255 255 255\n0 0 0\n254 127 64\n";
    let img = decode_ppm(&bytes(text)).unwrap();
    assert_eq!(String::from_utf8(img.encode_ppm()).unwrap(), text);
}

#[test]
fn decode_after_encode_keeps_image() {
    let mut img = Matrix::new(2, 2, Color::black());
    img.set(0, 0, Color::new(257, 514, 65535));
    img.set(1, 1, Color::new(32896, 0, 257 * 17));
    let back = decode_ppm(&img.encode_ppm()).unwrap();
    assert_eq!(back.width(), 2);
    assert_eq!(back.height(), 2);
    assert_eq!(back.cells(), img.cells());
}

#[test]
fn header_numbers_range_over_usize() {
    assert_eq!(
        decode_ppm(&bytes("P3\n4294967296 1\n255\n0 0 0\n")).err(),
        Some(DecodeError::ExhaustionError)
    );
    assert_eq!(
        decode_ppm(&bytes("P3\n18446744073709551616 1\n255\n0 0 0\n")).err(),
        Some(DecodeError::ParseError)
    );
    let img = decode_ppm(&bytes("P3\n1 1\n4294967296\n4294967295 0 0\n")).unwrap();
    assert_eq!(img.at(0, 0), Color::new(65535, 0, 0));
}

#[test]
fn to_8bit_scales_and_rounds() {
    assert_eq!(to_8bit(65535), 255);
    assert_eq!(to_8bit(128), 0);
    assert_eq!(to_8bit(129), 1);
    assert_eq!(to_8bit(257 * 200), 200);
    assert_eq!(to_8bit(131070), 510);
}

#[test]
fn color_map_applies_to_each_channel() {
    let c = Color::new(1, 2, 3).map(|v| v * 10 + 1);
    assert_eq!(c, Color::new(11, 21, 31));
}
