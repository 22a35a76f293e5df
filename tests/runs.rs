use pie::{rle, rle_decode, DecodeError, Palette, PixelFormat};

#[test]
fn rle_of_empty_is_empty() {
    assert!(rle(&[], 255).is_empty());
    assert_eq!(rle_decode(&[]).unwrap(), Vec::<u8>::new());
}

#[test]
fn rle_of_one_byte() {
    assert_eq!(rle(&[7], 255), vec![1, 7]);
    assert_eq!(rle_decode(&rle(&[7], 255)).unwrap(), vec![7]);
}

#[test]
fn rle_splits_long_runs_at_the_limit() {
    let data: Vec<u8> = vec![4; 300];
    let pairs = rle(&data, 255);
    assert_eq!(pairs, vec![255, 4, 45, 4]);
    assert_eq!(rle_decode(&pairs).unwrap(), data);
}

#[test]
fn rle_with_small_limit() {
    assert_eq!(rle(&[1, 1, 1, 2, 2, 1], 2), vec![2, 1, 1, 1, 2, 2, 1, 1]);
}

#[test]
fn rle_round_trip_mixed() {
    let mut data: Vec<u8> = Vec::new();
    for i in 0..1000u32 {
        data.push(((i / 7) % 5) as u8);
    }
    data.extend_from_slice(&[9; 256]);
    assert_eq!(rle_decode(&rle(&data, 255)).unwrap(), data);
}

#[test]
fn rle_decode_rejects_zero_count() {
    assert_eq!(rle_decode(&[2, 1, 0, 3]), Err(DecodeError::InvalidRun));
}

#[test]
fn rle_decode_rejects_half_pair() {
    assert_eq!(rle_decode(&[2, 1, 3]), Err(DecodeError::InvalidRun));
}

#[test]
fn palette_build_first_seen_order() {
    let pixels: Vec<u8> = vec![5, 5, 5, 1, 2, 3, 5, 5, 5, 9, 9, 9];
    let palette = Palette::build(&pixels, PixelFormat::RGB).unwrap();
    assert_eq!(palette.format, PixelFormat::RGB);
    assert_eq!(palette.colors, vec![5, 5, 5, 1, 2, 3, 9, 9, 9]);
    assert_eq!(palette.index_of(&pixels, 9, 3), Some(2));
    assert_eq!(palette.index_of(&[0, 0, 0], 0, 3), None);
    assert_eq!(palette.index_pixels(&pixels, 3), Some(vec![0, 1, 0, 2]));
}

#[test]
fn format_strides() {
    assert_eq!(PixelFormat::RGB.stride(), 3);
    assert_eq!(PixelFormat::RGBA.stride(), 4);
}
