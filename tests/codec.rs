use pie::{decode, encode, to_bytes, DecodeError, EncodeError, Palette, PixelFormat};

/// Container bytes of a 4 × 1 RGB image whose embedded palette holds four
/// colors and whose pixels use each of them once, in palette order.
fn embedded_palette_image() -> Vec<u8> {
    let mut bytes: Vec<u8> = vec![0x50, 0x49, 0x45, 1, 0, 4, 0, 1, 1, 0, 4];
    bytes.extend_from_slice(&[1, 0, 1, 1, 1, 2, 1, 3]);
    bytes.extend_from_slice(&[
        0x6A, 0xBE, 0x30, 0xFF, 0xFF, 0xFF, 0x00, 0x00, 0x00, 0x5B, 0x6E, 0xE1,
    ]);
    bytes
}

fn sample_pixels() -> Vec<u8> {
    vec![
        0xFF, 0x00, 0x00, 0xFF, 0x00, 0x00, 0xFF, 0x00, 0x00, 0xFF, 0x00, 0x00, 0xFF, 0x00, 0x00,
        0xFF, 0xFF, 0xFF, 0xFF, 0xFF, 0xFF, 0xFF, 0xFF, 0xFF, 0xFF, 0xFF, 0xFF, 0xFF, 0xFF, 0xFF,
        0xFF, 0x00, 0xCC, 0xFF, 0x00, 0xCC, 0xFF, 0x00, 0xCC, 0xFF, 0x00, 0xCC, 0xFF, 0x00, 0xCC,
        0xBE, 0xEF, 0x00, 0xBE, 0xEF, 0x00, 0xBE, 0xEF, 0x00, 0xBE, 0xEF, 0x00, 0xFF, 0xFF, 0xFF,
    ]
}

fn sample_palette() -> Palette {
    Palette {
        format: PixelFormat::RGB,
        colors: vec![
            0xFF, 0xFF, 0xFF,
            0xFF, 0x00, 0x00,
            0xBE, 0xEF, 0x00,
            0xFF, 0x00, 0xCC,
        ],
    }
}

#[test]
fn test_decode() {
    let bytes = embedded_palette_image();
    let decoded = decode(&bytes, None).unwrap();
    let palette_bytes: [u8; 12] = [
        0x6A, 0xBE, 0x30,
        0xFF, 0xFF, 0xFF,
        0x00, 0x00, 0x00,
        0x5B, 0x6E, 0xE1,
    ];
    let start_pixel: [u8; 3] = [0x6A, 0xBE, 0x30];
    let end_pixel: [u8; 3] = [0x5B, 0x6E, 0xE1];
    let decoded_with_palette = decode(&bytes, Some(&Palette {
        format: PixelFormat::RGB,
        colors: palette_bytes.to_vec(),
    })).unwrap();

    assert_eq!(start_pixel, decoded.pixels[0..3]);
    assert_eq!(end_pixel, decoded.pixels[decoded.pixels.len() - 3..]);
    assert_eq!(decoded.pixels, decoded_with_palette.pixels);
}

#[test]
fn test_encode() {
    let pixels = sample_pixels();
    let palette = sample_palette();

    let encoded = encode(5, 4, &pixels, true, Some(&palette)).unwrap();
    assert_eq!([5, 1] as [u8; 2], encoded.indices[0..2]);
    assert_eq!([5, 0] as [u8; 2], encoded.indices[2..4]);
    assert_eq!([5, 3] as [u8; 2], encoded.indices[4..6]);
    assert_eq!([4, 2] as [u8; 2], encoded.indices[6..8]);
    assert_eq!([1, 0] as [u8; 2], encoded.indices[8..10]);
    assert_eq!(palette.colors, encoded.palette.unwrap().colors);

    let encoded = encode(5, 4, &pixels, false, Some(&palette)).unwrap();
    assert_eq!([5, 1] as [u8; 2], encoded.indices[0..2]);
    assert_eq!([5, 0] as [u8; 2], encoded.indices[2..4]);
    assert_eq!([5, 3] as [u8; 2], encoded.indices[4..6]);
    assert_eq!([4, 2] as [u8; 2], encoded.indices[6..8]);
    assert_eq!([1, 0] as [u8; 2], encoded.indices[8..10]);
    assert!(encoded.palette.is_none());

    let encoded = encode(5, 4, &pixels, true, None).unwrap();
    assert_eq!([5, 0] as [u8; 2], encoded.indices[0..2]);
    assert_eq!([5, 1] as [u8; 2], encoded.indices[2..4]);
    assert_eq!([5, 2] as [u8; 2], encoded.indices[4..6]);
    assert_eq!([4, 3] as [u8; 2], encoded.indices[6..8]);
    assert_eq!([1, 1] as [u8; 2], encoded.indices[8..10]);
    assert_eq!([0xFF, 0x00, 0x00, 0xFF, 0xFF, 0xFF, 0xFF, 0x00, 0xCC, 0xBE, 0xEF, 0x00] as [u8; 12], encoded.palette.unwrap().colors.as_slice());

    let encoded = encode(5, 4, &pixels, false, None).unwrap();
    assert_eq!([5, 0] as [u8; 2], encoded.indices[0..2]);
    assert_eq!([5, 1] as [u8; 2], encoded.indices[2..4]);
    assert_eq!([5, 2] as [u8; 2], encoded.indices[4..6]);
    assert_eq!([4, 3] as [u8; 2], encoded.indices[6..8]);
    assert_eq!([1, 1] as [u8; 2], encoded.indices[8..10]);
    assert!(encoded.palette.is_none());
}

#[test]
fn encode_gives_exactly_the_hand_computed_pairs() {
    let encoded = encode(5, 4, &sample_pixels(), true, Some(&sample_palette())).unwrap();
    assert_eq!(encoded.indices, vec![5, 1, 5, 0, 5, 3, 4, 2, 1, 0]);
    assert_eq!(encoded.width, 5);
    assert_eq!(encoded.height, 4);
}

#[test]
fn container_header_body_and_palette_bytes() {
    let bytes = to_bytes(5, 4, true, Some(&sample_palette()), &sample_pixels()).unwrap();
    let mut expected: Vec<u8> = vec![0x50, 0x49, 0x45, 1, 0, 5, 0, 4, 1, 0, 5];
    expected.extend_from_slice(&[5, 1, 5, 0, 5, 3, 4, 2, 1, 0]);
    expected.extend_from_slice(&sample_palette().colors);
    assert_eq!(bytes, expected);
}

#[test]
fn container_without_palette_has_no_palette_bytes() {
    let bytes = to_bytes(5, 4, false, Some(&sample_palette()), &sample_pixels()).unwrap();
    assert_eq!(bytes.len(), 11 + 10);
    assert_eq!(bytes[8], 0);
}

#[test]
fn container_flags_mark_rgba() {
    let pixels: Vec<u8> = vec![1, 2, 3, 4, 1, 2, 3, 4];
    let bytes = to_bytes(2, 1, true, None, &pixels).unwrap();
    assert_eq!(bytes[8], 3);
    assert_eq!(&bytes[11..13], &[2, 0]);
    assert_eq!(&bytes[13..], &[1, 2, 3, 4]);
}

#[test]
fn round_trip_rgb_embedded() {
    let pixels = sample_pixels();
    let bytes = to_bytes(5, 4, true, None, &pixels).unwrap();
    let decoded = decode(&bytes, None).unwrap();
    assert_eq!(decoded.width, 5);
    assert_eq!(decoded.height, 4);
    assert_eq!(decoded.format, PixelFormat::RGB);
    assert_eq!(decoded.pixels, pixels);
}

#[test]
fn round_trip_rgba_embedded() {
    let mut pixels: Vec<u8> = Vec::new();
    for i in 0..12u8 {
        pixels.extend_from_slice(&[i % 3, 10, 20, 255 - (i % 2)]);
    }
    let bytes = to_bytes(4, 3, true, None, &pixels).unwrap();
    let decoded = decode(&bytes, None).unwrap();
    assert_eq!(decoded.format, PixelFormat::RGBA);
    assert_eq!(decoded.width, 4);
    assert_eq!(decoded.height, 3);
    assert_eq!(decoded.pixels, pixels);
}

#[test]
fn round_trip_empty_image() {
    let bytes = to_bytes(0, 7, true, None, &[]).unwrap();
    let decoded = decode(&bytes, None).unwrap();
    assert_eq!(decoded.width, 0);
    assert_eq!(decoded.height, 7);
    assert!(decoded.pixels.is_empty());
}

#[test]
fn round_trip_long_runs_cross_rows() {
    let pixels: Vec<u8> = [9u8, 8, 7].repeat(600);
    let bytes = to_bytes(30, 20, true, None, &pixels).unwrap();
    assert_eq!(&bytes[9..11], &[0, 3]);
    assert_eq!(&bytes[11..17], &[255, 0, 255, 0, 90, 0]);
    assert_eq!(decode(&bytes, None).unwrap().pixels, pixels);
}

fn distinct_colors(n: usize) -> Vec<u8> {
    let mut pixels: Vec<u8> = Vec::new();
    for i in 0..n {
        pixels.extend_from_slice(&[(i % 256) as u8, (i / 256) as u8, 7]);
    }
    pixels
}

#[test]
fn exactly_256_colors_encode() {
    let pixels = distinct_colors(256);
    let encoded = encode(16, 16, &pixels, true, None).unwrap();
    assert_eq!(encoded.palette.unwrap().colors.len(), 256 * 3);
    let bytes = to_bytes(16, 16, true, None, &pixels).unwrap();
    assert_eq!(decode(&bytes, None).unwrap().pixels, pixels);
}

#[test]
fn too_many_colors() {
    let pixels = distinct_colors(257);
    assert_eq!(encode(257, 1, &pixels, true, None), Err(EncodeError::TooManyColors));
    assert_eq!(to_bytes(257, 1, true, None, &pixels), Err(EncodeError::TooManyColors));
}

#[test]
fn supplied_palette_over_capacity() {
    let palette = Palette { format: PixelFormat::RGB, colors: distinct_colors(257) };
    let pixels: Vec<u8> = vec![0, 0, 7];
    assert_eq!(encode(1, 1, &pixels, false, Some(&palette)), Err(EncodeError::TooManyColors));
}

#[test]
fn color_not_in_palette() {
    let mut pixels = sample_pixels();
    pixels[3] = 0x12;
    let palette = sample_palette();
    assert_eq!(encode(5, 4, &pixels, true, Some(&palette)), Err(EncodeError::ColorNotInPalette));
    assert_eq!(to_bytes(5, 4, true, Some(&palette), &pixels), Err(EncodeError::ColorNotInPalette));
}

#[test]
fn palette_of_another_format_holds_no_color() {
    let palette = Palette { format: PixelFormat::RGBA, colors: vec![0xFF, 0x00, 0x00, 0xFF] };
    let pixels: Vec<u8> = vec![0xFF, 0x00, 0x00];
    assert_eq!(encode(1, 1, &pixels, true, Some(&palette)), Err(EncodeError::ColorNotInPalette));
}

#[test]
fn wrong_pixel_count() {
    let pixels: Vec<u8> = vec![1, 2, 3, 4, 5];
    assert_eq!(encode(1, 1, &pixels, true, None), Err(EncodeError::WrongPixelCount));
    assert_eq!(to_bytes(1, 1, true, None, &pixels), Err(EncodeError::WrongPixelCount));
}

#[test]
fn too_many_runs() {
    let mut pixels: Vec<u8> = Vec::new();
    for i in 0..(256usize * 257) {
        pixels.extend_from_slice(if i % 2 == 0 { &[0, 0, 0] } else { &[1, 1, 1] });
    }
    assert!(encode(256, 257, &pixels, true, None).is_ok());
    assert_eq!(to_bytes(256, 257, true, None, &pixels), Err(EncodeError::TooManyRuns));
}

#[test]
fn missing_palette_then_supplied() {
    let pixels = sample_pixels();
    let palette = sample_palette();
    let bytes = to_bytes(5, 4, false, Some(&palette), &pixels).unwrap();
    assert_eq!(decode(&bytes, None), Err(DecodeError::MissingPalette));
    let decoded = decode(&bytes, Some(&palette)).unwrap();
    assert_eq!(decoded.pixels, pixels);
}

#[test]
fn missing_palette_of_wrong_format() {
    let pixels = sample_pixels();
    let bytes = to_bytes(5, 4, false, Some(&sample_palette()), &pixels).unwrap();
    let rgba = Palette { format: PixelFormat::RGBA, colors: vec![0; 16] };
    assert_eq!(decode(&bytes, Some(&rgba)), Err(DecodeError::MissingPalette));
}

#[test]
fn malformed_headers() {
    assert_eq!(decode(&[0x50, 0x49, 0x45, 1, 0], None), Err(DecodeError::MalformedHeader));
    let mut bytes = embedded_palette_image();
    bytes[1] = 0x4A;
    assert_eq!(decode(&bytes, None), Err(DecodeError::MalformedHeader));
    let truncated: Vec<u8> = vec![0x50, 0x49, 0x45, 1, 0, 4, 0, 1, 1, 0, 4, 1, 0];
    assert_eq!(decode(&truncated, None), Err(DecodeError::MalformedHeader));
    let mut wrong_size = embedded_palette_image();
    wrong_size[7] = 2;
    assert_eq!(decode(&wrong_size, None), Err(DecodeError::MalformedHeader));
}

#[test]
fn color_not_found() {
    let mut bytes = embedded_palette_image();
    bytes[18] = 4;
    assert_eq!(decode(&bytes, None), Err(DecodeError::ColorNotFound));
}

#[test]
fn zero_count_run_is_invalid() {
    let mut bytes = embedded_palette_image();
    bytes[13] = 0;
    assert_eq!(decode(&bytes, None), Err(DecodeError::InvalidRun));
}

#[test]
fn embedded_palette_ignores_trailing_partial_color() {
    let mut bytes = embedded_palette_image();
    bytes.push(0xAA);
    let decoded = decode(&bytes, None).unwrap();
    assert_eq!(decoded.pixels.len(), 12);
    assert_eq!(&decoded.pixels[9..12], &[0x5B, 0x6E, 0xE1]);
}

#[test]
fn missing_palette_is_reported_before_the_body_is_read() {
    let header_only: Vec<u8> = vec![0x50, 0x49, 0x45, 1, 0, 1, 0, 1, 0, 0, 1];
    assert_eq!(decode(&header_only, None), Err(DecodeError::MissingPalette));
    let rgba = Palette { format: PixelFormat::RGBA, colors: vec![0; 4] };
    assert_eq!(decode(&header_only, Some(&rgba)), Err(DecodeError::MissingPalette));
    let rgb = Palette { format: PixelFormat::RGB, colors: vec![0; 3] };
    assert_eq!(decode(&header_only, Some(&rgb)), Err(DecodeError::MalformedHeader));
}
