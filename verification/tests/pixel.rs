use radiant::{Channel, IoErrorKind, LoadError, RGB, RGBE};

/// The radiance of the three channels as single-precision floats: each
/// mantissa times the one scale `2^expo / 255` of the pixel.
fn radiance(pixel: RGB) -> (f32, f32, f32) {
    let d = 2_f32.powi(i32::from(pixel.expo)) / 255_f32;
    (f32::from(pixel.r) * d, f32::from(pixel.g) * d, f32::from(pixel.b) * d)
}

#[test]
fn exposure_of_white_at_zero_exponent_is_one() {
    let pixel = RGB::from(RGBE { r: 255, g: 255, b: 255, e: 128 });
    assert_eq!(pixel, RGB { r: 255, g: 255, b: 255, expo: 0 });
    assert_eq!(radiance(pixel), (1.0, 1.0, 1.0));
}

#[test]
fn exposure_scales_all_channels_alike() {
    let pixel = RGB::from(RGBE { r: 255, g: 51, b: 0, e: 130 });
    assert_eq!(pixel, RGB { r: 255, g: 51, b: 0, expo: 2 });
    assert_eq!(radiance(pixel), (4.0, 51.0 * (4.0 / 255.0), 0.0));
}

#[test]
fn exponent_byte_loses_its_bias() {
    assert_eq!(RGB::from(RGBE { r: 1, g: 2, b: 3, e: 0 }).expo, -128);
    assert_eq!(RGB::from(RGBE { r: 1, g: 2, b: 3, e: 127 }).expo, -1);
    assert_eq!(RGB::from(RGBE { r: 1, g: 2, b: 3, e: 128 }).expo, 0);
    assert_eq!(RGB::from(RGBE { r: 1, g: 2, b: 3, e: 255 }).expo, 127);
}

#[test]
fn conversion_keeps_the_mantissas() {
    let pixel = RGB::from(RGBE { r: 7, g: 8, b: 9, e: 121 });
    assert_eq!((pixel.r, pixel.g, pixel.b), (7, 8, 9));
    assert_eq!(pixel.expo, -7);
    assert_eq!(radiance(pixel).0, 7.0 * (0.0078125 / 255.0));
}

#[test]
fn apply_exposure_sets_the_scale_only() {
    let mut pixel = RGB { r: 10, g: 20, b: 30, expo: 5 };
    pixel.apply_exposure(140);
    assert_eq!(pixel, RGB { r: 10, g: 20, b: 30, expo: 12 });
    pixel.apply_exposure(0);
    assert_eq!(pixel, RGB { r: 10, g: 20, b: 30, expo: -128 });
}

#[test]
fn set_channel_touches_one_plane() {
    let mut pixel = RGB { r: 1, g: 2, b: 3, expo: 4 };
    pixel.set_channel(Channel::Red, 200);
    assert_eq!(pixel, RGB { r: 200, g: 2, b: 3, expo: 4 });
    pixel.set_channel(Channel::Green, 201);
    assert_eq!(pixel, RGB { r: 200, g: 201, b: 3, expo: 4 });
    pixel.set_channel(Channel::Blue, 202);
    assert_eq!(pixel, RGB { r: 200, g: 201, b: 202, expo: 4 });
    pixel.set_channel(Channel::Exponent, 129);
    assert_eq!(pixel, RGB { r: 200, g: 201, b: 202, expo: 1 });
}

#[test]
fn rle_marker_is_three_ones() {
    assert!(RGBE { r: 1, g: 1, b: 1, e: 0 }.is_rle_marker());
    assert!(RGBE { r: 1, g: 1, b: 1, e: 255 }.is_rle_marker());
    assert!(!RGBE { r: 0, g: 1, b: 1, e: 1 }.is_rle_marker());
    assert!(!RGBE { r: 1, g: 2, b: 1, e: 1 }.is_rle_marker());
    assert!(!RGBE { r: 1, g: 1, b: 0, e: 1 }.is_rle_marker());
}

#[test]
fn new_decrunch_marker_ignores_low_bits_of_blue() {
    assert!(RGBE { r: 2, g: 2, b: 0, e: 0 }.is_new_decrunch_marker());
    assert!(RGBE { r: 2, g: 2, b: 127, e: 255 }.is_new_decrunch_marker());
    assert!(!RGBE { r: 2, g: 2, b: 128, e: 0 }.is_new_decrunch_marker());
    assert!(!RGBE { r: 2, g: 2, b: 255, e: 0 }.is_new_decrunch_marker());
    assert!(!RGBE { r: 1, g: 2, b: 0, e: 0 }.is_new_decrunch_marker());
    assert!(!RGBE { r: 2, g: 3, b: 0, e: 0 }.is_new_decrunch_marker());
}

#[test]
fn encoded_pixel_converts_from_and_to_bytes() {
    let rgbe = RGBE::from([9, 8, 7, 6]);
    assert_eq!(rgbe, RGBE { r: 9, g: 8, b: 7, e: 6 });
    let bytes: [u8; 4] = rgbe.into();
    assert_eq!(bytes, [9, 8, 7, 6]);
}

#[test]
fn early_end_becomes_eof_and_the_rest_io() {
    assert_eq!(LoadError::from(IoErrorKind::UnexpectedEof), LoadError::Eof);
    assert_eq!(LoadError::from(IoErrorKind::Other), LoadError::Io);
}
