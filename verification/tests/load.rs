use radiant::header::parse_header;
use radiant::{load, read_image, ByteReader, Image, LoadError, RGB};

fn stream(head: &str, pixels: &[u8]) -> Vec<u8> {
    let mut bytes = b"#?RADIANCE".to_vec();
    bytes.extend_from_slice(head.as_bytes());
    bytes.extend_from_slice(pixels);
    bytes
}

fn outcome(bytes: &[u8]) -> Result<Image, LoadError> {
    let mut reader = ByteReader::new(bytes);
    load(&mut reader)
}

fn error(bytes: &[u8]) -> LoadError {
    match outcome(bytes) {
        Ok(image) => panic!("decoded an image of {} by {}", image.width, image.height),
        Err(error) => error,
    }
}

fn px(r: u8, g: u8, b: u8, e: u8) -> RGB {
    RGB { r, g, b, expo: (i32::from(e) - 128) as i8 }
}

const HEAD: &str = "\n# a comment\nFORMAT=32-bit_rle_rgbe\nEXPOSURE=1.0\n\n";

#[test]
fn loads_a_small_image() {
    let pixels = [10, 20, 30, 128, 40, 50, 60, 129, 1, 1, 1, 1, 70, 80, 90, 130, 1, 1, 1, 2];
    let bytes = stream(&format!("{HEAD}-Y 2 +X 3\n"), &pixels);
    let mut reader = ByteReader::new(&bytes);
    let image = load(&mut reader).unwrap();
    assert_eq!((image.width, image.height), (3, 2));
    let (p, q, r) = (px(10, 20, 30, 128), px(40, 50, 60, 129), px(70, 80, 90, 130));
    assert_eq!(image.data, vec![p, q, q, r, r, r]);
    assert_eq!(reader.remaining(), 0);
}

#[test]
fn leaves_what_follows_the_image() {
    let pixels = [10, 20, 30, 128, 0xaa, 0xbb, 0xcc];
    let bytes = stream("\n\n-Y 1 +X 1\n", &pixels);
    let mut reader = ByteReader::new(&bytes);
    let image = load(&mut reader).unwrap();
    assert_eq!(image.data, vec![px(10, 20, 30, 128)]);
    assert_eq!(reader.fill_buf(), &[0xaa, 0xbb, 0xcc]);
}

#[test]
fn rows_may_differ_in_encoding() {
    let mut pixels = vec![2, 2, 0, 8];
    for plane in 0..4u8 {
        pixels.extend_from_slice(&[128 + 8, 100 + plane]);
    }
    pixels.extend_from_slice(&[5, 6, 7, 128, 1, 1, 1, 7]);
    pixels.extend_from_slice(&[2, 2, 0, 8]);
    for plane in 0..4u8 {
        pixels.extend_from_slice(&[128 + 8, 200 + plane]);
    }
    let bytes = stream("\n\n-Y 3 +X 8\n", &pixels);
    let image = outcome(&bytes).unwrap();
    assert_eq!((image.width, image.height), (8, 3));
    let mut expected = vec![RGB { r: 100, g: 101, b: 102, expo: -25 }; 8];
    expected.extend_from_slice(&[px(5, 6, 7, 128); 8]);
    expected.extend_from_slice(&[RGB { r: 200, g: 201, b: 202, expo: 75 }; 8]);
    assert_eq!(image.data, expected);
}

#[test]
fn wrong_magic_is_a_format_error() {
    assert_eq!(error(b"#?RADIANCF\n\n-Y 1 +X 1\n\x01\x02\x03\x04"), LoadError::FileFormat);
    assert_eq!(error(b"#?RGBE\n\n-Y 1 +X 1\n\x01\x02\x03\x04"), LoadError::FileFormat);
}

#[test]
fn wrong_magic_needs_no_byte_after_it() {
    let bytes = b"0123456789";
    let mut reader = ByteReader::new(bytes);
    assert_eq!(load(&mut reader).unwrap_err(), LoadError::FileFormat);
    assert_eq!(reader.remaining(), 0);
}

#[test]
fn wrong_magic_reads_no_byte_after_it() {
    let bytes = b"#!RADIANCE\n\n-Y 1 +X 1\n";
    let mut reader = ByteReader::new(bytes);
    assert_eq!(load(&mut reader).unwrap_err(), LoadError::FileFormat);
    assert_eq!(reader.remaining(), bytes.len() - 10);
}

#[test]
fn short_magic_is_eof() {
    assert_eq!(error(b""), LoadError::Eof);
    assert_eq!(error(b"#?RADIANC"), LoadError::Eof);
    assert_eq!(error(b"XXXXXXXXX"), LoadError::Eof);
}

#[test]
fn image_without_rows_or_columns_is_empty() {
    for head in ["\n\n-Y 0 +X 5\n", "\n\n-Y 5 +X 0\n", "\n\n-Y 0 +X 0\n"] {
        let bytes = stream(head, &[1, 2, 3]);
        let mut reader = ByteReader::new(&bytes);
        let image = load(&mut reader).unwrap();
        assert!(image.data.is_empty());
        assert_eq!(image.width * image.height, 0);
        assert_eq!(reader.fill_buf(), &[1, 2, 3]);
    }
}

#[test]
fn image_without_pixels_keeps_its_size() {
    let image = outcome(&stream("\n\n-Y 0 +X 5\n", &[])).unwrap();
    assert_eq!((image.width, image.height), (5, 0));
    let image = outcome(&stream("\n\n-Y 7 +X 0\n", &[])).unwrap();
    assert_eq!((image.width, image.height), (0, 7));
}

#[test]
fn read_image_without_pixels_reads_nothing() {
    let bytes = [1u8, 2, 3];
    for (width, height) in [(0, 0), (0, 9), (9, 0), (0, usize::MAX), (usize::MAX, 0)] {
        let mut reader = ByteReader::new(&bytes);
        let image = read_image(&mut reader, width, height).unwrap();
        assert_eq!((image.width, image.height), (width, height));
        assert!(image.data.is_empty());
        assert_eq!(reader.remaining(), 3);
    }
}

#[test]
fn size_past_the_machine_word_is_a_format_error() {
    let bytes = [1u8, 2, 3, 4, 5, 6, 7, 8];
    let mut reader = ByteReader::new(&bytes);
    assert_eq!(read_image(&mut reader, usize::MAX, 2).unwrap_err(), LoadError::FileFormat);
    assert_eq!(reader.remaining(), 8);
    assert_eq!(read_image(&mut reader, 2, usize::MAX).unwrap_err(), LoadError::FileFormat);
    let half = 1usize << (usize::BITS / 2);
    assert_eq!(read_image(&mut reader, half, half).unwrap_err(), LoadError::FileFormat);
}

#[test]
fn header_with_size_past_the_machine_word_is_a_format_error() {
    let head = format!("\n\n-Y 2 +X {}\n", usize::MAX);
    assert_eq!(error(&stream(&head, &[1, 2, 3, 4])), LoadError::FileFormat);
}

#[test]
fn header_with_number_past_the_machine_word_is_a_format_error() {
    let head = format!("\n\n-Y 1 +X {}0\n", usize::MAX);
    assert_eq!(error(&stream(&head, &[1, 2, 3, 4])), LoadError::FileFormat);
    let head = format!("\n\n-Y {}1 +X 1\n", usize::MAX);
    assert_eq!(error(&stream(&head, &[1, 2, 3, 4])), LoadError::FileFormat);
    // Found at the digit that is one too many, though the stream ends there.
    let head = format!("\n\n-Y {}1", usize::MAX);
    assert_eq!(error(&stream(&head, &[])), LoadError::FileFormat);
}

#[test]
fn header_gives_width_and_height() {
    let bytes = b"\nSOFTWARE=x\n\n-Y 12 +X 345\nrest";
    let mut reader = ByteReader::new(bytes);
    assert_eq!(parse_header(&mut reader), Ok((345, 12)));
    assert_eq!(reader.fill_buf(), b"rest");
}

#[test]
fn header_numbers_may_start_with_zeros() {
    let bytes = b"\n\n-Y 007 +X 0010\n";
    let mut reader = ByteReader::new(bytes);
    assert_eq!(parse_header(&mut reader), Ok((10, 7)));
}

#[test]
fn header_takes_the_greatest_number() {
    let text = format!("\n\n-Y {} +X {}\n", usize::MAX, usize::MAX - 1);
    let mut reader = ByteReader::new(text.as_bytes());
    assert_eq!(parse_header(&mut reader), Ok((usize::MAX - 1, usize::MAX)));
}

#[test]
fn header_ends_at_the_first_empty_line() {
    // The line feed that ends the signature's line and the one after it make
    // an empty line.
    let bytes = b"\n\n-Y 1 +X 2\n";
    let mut reader = ByteReader::new(bytes);
    assert_eq!(parse_header(&mut reader), Ok((2, 1)));
    // Lines of any content come before it.
    let bytes = b" trailing\n-Y 9 +X 9\nKEY=value\n\n-Y 1 +X 2\n";
    let mut reader = ByteReader::new(bytes);
    assert_eq!(parse_header(&mut reader), Ok((2, 1)));
}

#[test]
fn malformed_resolution_line_is_a_format_error() {
    for line in [
        "+Y 1 +X 1\n",
        "-X 1 +Y 1\n",
        "-Y 1 -X 1\n",
        "-Y  1 +X 1\n",
        "-Y 1  +X 1\n",
        "-Y 1 +X 1 \n",
        "-Y 1 +X 1\r\n",
        "-Y +X 1\n",
        "-Y 1 +X \n",
        "-Y 1 +X\n",
        "-Y -1 +X 1\n",
        "-Y 1 +X 1x\n",
        "-Y 1\n+X 1\n",
        "-y 1 +x 1\n",
        "Y 1 X 1\n",
        "\n-Y 1 +X 1\n",
    ] {
        let bytes = stream(&format!("\n\n{line}"), &[1, 2, 3, 4]);
        assert_eq!(error(&bytes), LoadError::FileFormat, "{line:?}");
    }
}

#[test]
fn truncated_header_is_eof() {
    for head in [
        "",
        "\n",
        "\nFORMAT=32-bit_rle_rgbe\n",
        "\n\n",
        "\n\n-",
        "\n\n-Y",
        "\n\n-Y ",
        "\n\n-Y 1",
        "\n\n-Y 1 ",
        "\n\n-Y 1 +X",
        "\n\n-Y 1 +X ",
        "\n\n-Y 1 +X 1",
    ] {
        assert_eq!(error(&stream(head, &[])), LoadError::Eof, "{head:?}");
    }
}

#[test]
fn header_without_empty_line_is_eof() {
    let bytes = stream("\nFORMAT=32-bit_rle_rgbe\n-Y 1 +X 1\n", &[1, 2, 3, 4]);
    assert_eq!(error(&bytes), LoadError::Eof);
}

#[test]
fn truncated_pixels_are_eof() {
    let bytes = stream("\n\n-Y 2 +X 1\n", &[1, 2, 3, 4]);
    assert_eq!(error(&bytes), LoadError::Eof);
    let bytes = stream("\n\n-Y 1 +X 1\n", &[1, 2, 3]);
    assert_eq!(error(&bytes), LoadError::Eof);
    let bytes = stream("\n\n-Y 1 +X 1\n", &[]);
    assert_eq!(error(&bytes), LoadError::Eof);
}

#[test]
fn bad_run_in_any_row_fails_the_image() {
    let pixels = [10, 20, 30, 128, 1, 1, 1, 1, 10, 20, 30, 128, 1, 1, 1, 2];
    let bytes = stream("\n\n-Y 2 +X 2\n", &pixels);
    assert_eq!(error(&bytes), LoadError::Rle);
}

#[test]
fn every_cut_of_an_image_is_eof() {
    let mut pixels = vec![2, 2, 0, 8];
    pixels.extend_from_slice(&[128 + 8, 10]);
    pixels.extend_from_slice(&[8, 1, 2, 3, 4, 5, 6, 7, 8]);
    pixels.extend_from_slice(&[128 + 3, 200, 5, 21, 22, 23, 24, 25]);
    pixels.extend_from_slice(&[128 + 4, 128, 0, 4, 129, 130, 131, 132]);
    pixels.extend_from_slice(&[5, 6, 7, 128, 1, 1, 1, 3, 9, 9, 9, 9, 1, 1, 1, 3]);
    let bytes = stream(&format!("{HEAD}-Y 2 +X 8\n"), &pixels);
    let image = outcome(&bytes).unwrap();
    assert_eq!(image.data.len(), 16);
    for cut in 0..bytes.len() {
        let mut reader = ByteReader::new(&bytes[..cut]);
        assert_eq!(load(&mut reader).unwrap_err(), LoadError::Eof, "cut at {cut}");
        assert_eq!(reader.remaining(), 0);
    }
}

#[test]
fn every_cut_of_a_bad_stream_is_eof_or_the_same_error() {
    let pixels = [10, 20, 30, 128, 4, 5, 6, 128, 1, 1, 1, 9, 0, 0, 0, 0];
    let bytes = stream("\n\n-Y 1 +X 4\n", &pixels);
    assert_eq!(error(&bytes), LoadError::Rle);
    let found_at = bytes.len() - 4;
    for cut in 0..bytes.len() {
        let expected = if cut < found_at { LoadError::Eof } else { LoadError::Rle };
        assert_eq!(error(&bytes[..cut]), expected, "cut at {cut}");
    }
}

#[test]
fn pixel_is_found_by_column_and_row() {
    let pixels = [10, 20, 30, 128, 40, 50, 60, 129, 70, 80, 90, 130,
                  11, 21, 31, 128, 41, 51, 61, 129, 71, 81, 91, 130];
    let image = outcome(&stream("\n\n-Y 2 +X 3\n", &pixels)).unwrap();
    assert_eq!(image.pixel_offset(0, 0), 0);
    assert_eq!(image.pixel_offset(2, 0), 2);
    assert_eq!(image.pixel_offset(0, 1), 3);
    assert_eq!(image.pixel_offset(2, 1), 5);
    assert_eq!(*image.pixel(0, 0), px(10, 20, 30, 128));
    assert_eq!(*image.pixel(2, 0), px(70, 80, 90, 130));
    assert_eq!(*image.pixel(1, 1), px(41, 51, 61, 129));
    assert_eq!(*image.pixel(2, 1), px(71, 81, 91, 130));
}

#[test]
fn pixel_offset_is_width_times_row_plus_column() {
    let image = Image { width: 7, height: 5, data: vec![RGB { r: 0, g: 0, b: 0, expo: 0 }; 35] };
    assert_eq!(image.pixel_offset(3, 4), 31);
    assert_eq!(image.pixel_offset(6, 4), 34);
    assert_eq!(image.pixel_offset(0, 0), 0);
}

#[test]
fn loads_two_pixels_from_a_run() {
    let bytes = b"#?RADIANCE\n\n-Y 1 +X 2\n\x80\x40\x20\x81\x01\x01\x01\x01";
    let mut reader = ByteReader::new(bytes);
    let image = load(&mut reader).unwrap();
    assert_eq!((image.width, image.height), (2, 1));
    assert_eq!(*image.pixel(0, 0), RGB { r: 128, g: 64, b: 32, expo: 1 });
    assert_eq!(*image.pixel(1, 0), RGB { r: 128, g: 64, b: 32, expo: 1 });
}
