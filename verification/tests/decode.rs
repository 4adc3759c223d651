use ppm_parser::imageio::{parse_header, read_image_data};
use ppm_parser::ppm::{ImageError, NumericField, Pixel, Ppm};

fn parse_all(input: &[u8]) -> Result<(Ppm, usize), ImageError> {
    let mut image = Ppm::new();
    let lines = parse_header(input, &mut image)?;
    read_image_data(input, &mut image, lines)?;
    Ok((image, lines))
}

#[test]
fn end_to_end_scenario() {
    let mut input = b"P6\n2 1\n255\n".to_vec();
    input.extend_from_slice(&[255, 0, 0, 0, 255, 0]);

    let mut image = Ppm::new();
    let lines = parse_header(&input, &mut image).unwrap();
    assert_eq!(lines, 3);
    assert_eq!(image.magic, b"P6".to_vec());
    assert_eq!(image.width, 2);
    assert_eq!(image.height, 1);
    assert_eq!(image.maxc, 255);

    read_image_data(&input, &mut image, lines).unwrap();
    assert_eq!(
        image.pixels,
        vec![Pixel { r: 255, g: 0, b: 0 }, Pixel { r: 0, g: 255, b: 0 }]
    );
}

#[test]
fn sixteen_bit_endianness() {
    let mut input = b"P6\n1 1\n65535\n".to_vec();
    input.extend_from_slice(&[0x01, 0x02, 0x03, 0x04, 0x05, 0x06]);
    let (image, _) = parse_all(&input).unwrap();
    assert_eq!(image.pixels, vec![Pixel { r: 0x0102, g: 0x0304, b: 0x0506 }]);
}

#[test]
fn eight_bit_zero_extension() {
    let mut input = b"P6\n1 1\n255\n".to_vec();
    input.extend_from_slice(&[10, 20, 30]);
    let (image, _) = parse_all(&input).unwrap();
    assert_eq!(image.pixels, vec![Pixel { r: 10, g: 20, b: 30 }]);
}

#[test]
fn truncated_payload_detected() {
    let mut input = b"P6\n2 2\n255\n".to_vec();
    input.extend_from_slice(&[1, 2, 3, 4, 5, 6, 7, 8, 9, 10, 11]); // needs 12
    let mut image = Ppm::new();
    let lines = parse_header(&input, &mut image).unwrap();
    let r = read_image_data(&input, &mut image, lines);
    assert_eq!(r, Err(ImageError::TruncatedPayload));
    assert!(image.pixels.is_empty());
}

#[test]
fn truncated_payload_sixteen_bit() {
    let mut input = b"P6\n1 1\n65535\n".to_vec();
    input.extend_from_slice(&[1, 2, 3, 4, 5]); // needs 6
    let mut image = Ppm::new();
    let lines = parse_header(&input, &mut image).unwrap();
    let r = read_image_data(&input, &mut image, lines);
    assert_eq!(r, Err(ImageError::TruncatedPayload));
    assert!(image.pixels.is_empty());
}

#[test]
fn comments_do_not_change_fields() {
    let mut plain = b"P6\n2\n1\n255\n".to_vec();
    plain.extend_from_slice(&[1, 2, 3, 4, 5, 6]);
    let mut commented = b"# made by nobody\nP6\n# width next\n2\n1\n# almost done\n255\n".to_vec();
    commented.extend_from_slice(&[1, 2, 3, 4, 5, 6]);

    let (a, a_lines) = parse_all(&plain).unwrap();
    let (b, b_lines) = parse_all(&commented).unwrap();
    assert_eq!(a_lines, 4);
    assert_eq!(b_lines, 7);
    assert_eq!(a.magic, b.magic);
    assert_eq!(a.width, b.width);
    assert_eq!(a.height, b.height);
    assert_eq!(a.maxc, b.maxc);
    assert_eq!(a.pixels, b.pixels);
}

#[test]
fn comment_content_is_ignored_whole() {
    let mut input = b"# 9 9 9 9\nP6\n1 1\n255\n".to_vec();
    input.extend_from_slice(&[7, 8, 9]);
    let (image, lines) = parse_all(&input).unwrap();
    assert_eq!(lines, 4);
    assert_eq!(image.width, 1);
    assert_eq!(image.height, 1);
    assert_eq!(image.pixels, vec![Pixel { r: 7, g: 8, b: 9 }]);
}

#[test]
fn multi_field_line_parses_like_one_per_line() {
    let mut one_line = b"P6 2 1 255\n".to_vec();
    one_line.extend_from_slice(&[1, 2, 3, 4, 5, 6]);
    let mut one_per_line = b"P6\n2\n1\n255\n".to_vec();
    one_per_line.extend_from_slice(&[1, 2, 3, 4, 5, 6]);

    let (a, a_lines) = parse_all(&one_line).unwrap();
    let (b, b_lines) = parse_all(&one_per_line).unwrap();
    assert_eq!(a_lines, 1);
    assert_eq!(b_lines, 4);
    assert_eq!(a.magic, b.magic);
    assert_eq!(a.width, b.width);
    assert_eq!(a.height, b.height);
    assert_eq!(a.maxc, b.maxc);
    assert_eq!(a.pixels, b.pixels);
}

#[test]
fn tokens_after_fourth_field_are_payload() {
    // Once the fourth field is assigned the rest of the line is not header
    // data; a line-based skip then starts the payload on the next line.
    let mut input = b"P6 1 1 255 xx\n".to_vec();
    input.extend_from_slice(&[3, 2, 1]);
    let mut image = Ppm::new();
    let lines = parse_header(&input, &mut image).unwrap();
    assert_eq!(lines, 1);
    assert_eq!(image.maxc, 255);
    read_image_data(&input, &mut image, lines).unwrap();
    assert_eq!(image.pixels, vec![Pixel { r: 3, g: 2, b: 1 }]);
}

#[test]
fn unsupported_bit_depth() {
    let mut input = b"P6\n1 1\n100\n".to_vec();
    input.extend_from_slice(&[1, 2, 3]);
    let mut image = Ppm::new();
    let lines = parse_header(&input, &mut image).unwrap();
    let r = read_image_data(&input, &mut image, lines);
    assert_eq!(r, Err(ImageError::UnsupportedBitDepth));
    assert!(image.pixels.is_empty());
}

#[test]
fn unsupported_bit_depth_with_zero_pixels_succeeds() {
    // The depth check guards each record read, and no record is ever read
    // when the declared dimensions call for no pixels, so an unsupported max
    // channel value goes unreported and the decode yields an empty sequence.
    let input = b"P6\n0 3\n42\n".to_vec();
    let mut image = Ppm::new();
    let lines = parse_header(&input, &mut image).unwrap();
    let r = read_image_data(&input, &mut image, lines);
    assert_eq!(r, Ok(()));
    assert!(image.pixels.is_empty());
}

#[test]
fn zero_pixels_decode_to_empty() {
    let input = b"P6\n0 5\n255\n".to_vec();
    let mut image = Ppm::new();
    let lines = parse_header(&input, &mut image).unwrap();
    read_image_data(&input, &mut image, lines).unwrap();
    assert!(image.pixels.is_empty());
}

#[test]
fn truncated_header_empty_input() {
    let mut image = Ppm::new();
    assert_eq!(parse_header(&[], &mut image), Err(ImageError::TruncatedHeader));
}

#[test]
fn truncated_header_missing_field() {
    let mut image = Ppm::new();
    let r = parse_header(b"P6\n2 1\n", &mut image);
    assert_eq!(r, Err(ImageError::TruncatedHeader));
    // the document is untouched on an error
    assert_eq!(image.magic, Vec::<u8>::new());
    assert_eq!(image.width, 0);
    assert_eq!(image.height, 0);
    assert_eq!(image.maxc, 0);
}

#[test]
fn malformed_width() {
    let mut image = Ppm::new();
    let r = parse_header(b"P6\nab 1\n255\n", &mut image);
    assert_eq!(r, Err(ImageError::MalformedNumericField(NumericField::Width)));
}

#[test]
fn malformed_height() {
    let mut image = Ppm::new();
    let r = parse_header(b"P6\n2 x\n255\n", &mut image);
    assert_eq!(r, Err(ImageError::MalformedNumericField(NumericField::Height)));
}

#[test]
fn malformed_max_channel_value() {
    let mut image = Ppm::new();
    let r = parse_header(b"P6\n2 1\nzz\n", &mut image);
    assert_eq!(
        r,
        Err(ImageError::MalformedNumericField(NumericField::MaxChannelValue))
    );
}

#[test]
fn run_of_spaces_makes_empty_token() {
    // Contiguous spaces are not collapsed: "2  1" is the tokens "2", "", "1",
    // and the empty token is a malformed height.
    let mut image = Ppm::new();
    let r = parse_header(b"P6\n2  1 255\n", &mut image);
    assert_eq!(r, Err(ImageError::MalformedNumericField(NumericField::Height)));
}

#[test]
fn leading_plus_sign_parses() {
    let mut image = Ppm::new();
    let lines = parse_header(b"P6\n+2 +1\n+255\n", &mut image).unwrap();
    assert_eq!(lines, 3);
    assert_eq!(image.width, 2);
    assert_eq!(image.height, 1);
    assert_eq!(image.maxc, 255);
}

#[test]
fn sign_alone_or_negative_is_malformed() {
    let mut image = Ppm::new();
    let r = parse_header(b"P6\n+ 1\n255\n", &mut image);
    assert_eq!(r, Err(ImageError::MalformedNumericField(NumericField::Width)));
    let r2 = parse_header(b"P6\n-2 1\n255\n", &mut image);
    assert_eq!(r2, Err(ImageError::MalformedNumericField(NumericField::Width)));
}

#[test]
fn width_out_of_range_is_malformed() {
    let mut image = Ppm::new();
    let r = parse_header(b"P6\n4294967296 1\n255\n", &mut image);
    assert_eq!(r, Err(ImageError::MalformedNumericField(NumericField::Width)));
    let lines = parse_header(b"P6\n4294967295 1\n255\n", &mut image).unwrap();
    assert_eq!(lines, 3);
    assert_eq!(image.width, 4294967295);
}

#[test]
fn crlf_line_breaks() {
    let mut input = b"P6\r\n2 1\r\n255\r\n".to_vec();
    input.extend_from_slice(&[9, 8, 7, 6, 5, 4]);
    let (image, lines) = parse_all(&input).unwrap();
    assert_eq!(lines, 3);
    assert_eq!(image.magic, b"P6".to_vec());
    assert_eq!(image.maxc, 255);
    assert_eq!(
        image.pixels,
        vec![Pixel { r: 9, g: 8, b: 7 }, Pixel { r: 6, g: 5, b: 4 }]
    );
}

#[test]
fn payload_may_contain_line_feeds() {
    let mut input = b"P6\n1 2\n255\n".to_vec();
    input.extend_from_slice(&[10, 10, 10, 0, 10, 0]);
    let (image, _) = parse_all(&input).unwrap();
    assert_eq!(
        image.pixels,
        vec![Pixel { r: 10, g: 10, b: 10 }, Pixel { r: 0, g: 10, b: 0 }]
    );
}

#[test]
fn new_document_is_empty() {
    let image = Ppm::new();
    assert_eq!(image.magic, Vec::<u8>::new());
    assert_eq!(image.width, 0);
    assert_eq!(image.height, 0);
    assert_eq!(image.maxc, 0);
    assert!(image.pixels.is_empty());
    assert_eq!(image.pixel_count(), 0);
}

#[test]
fn pixel_count_is_the_product() {
    let mut image = Ppm::new();
    image.width = 3;
    image.height = 4;
    assert_eq!(image.pixel_count(), 12);
    image.width = 4294967295;
    image.height = 4294967295;
    assert_eq!(image.pixel_count(), 4294967295u64 * 4294967295u64);
}

#[test]
fn bit_depth_labels() {
    let mut image = Ppm::new();
    image.maxc = 255;
    assert_eq!(image.bit_depth_label(), "8-bit");
    image.maxc = 65535;
    assert_eq!(image.bit_depth_label(), "16-bit");
    image.maxc = 1023;
    assert_eq!(image.bit_depth_label(), "Unknown");
}

#[test]
fn error_descriptions_name_the_category() {
    assert_eq!(
        ImageError::TruncatedHeader.describe(),
        "input ended before all header fields were read"
    );
    assert_eq!(
        ImageError::MalformedNumericField(NumericField::Width).describe(),
        "header field for width failed to parse"
    );
    assert_eq!(
        ImageError::MalformedNumericField(NumericField::Height).describe(),
        "header field for height failed to parse"
    );
    assert_eq!(
        ImageError::MalformedNumericField(NumericField::MaxChannelValue).describe(),
        "header field for max channel value failed to parse"
    );
    assert_eq!(
        ImageError::TruncatedPayload.describe(),
        "input ended before all pixel data was read"
    );
    assert_eq!(
        ImageError::UnsupportedBitDepth.describe(),
        "unsupported max channel value for pixel data"
    );
}

#[test]
fn header_without_trailing_line_break() {
    // completion on the very last line, with no line feed after it
    let input = b"P6\n0 0\n255".to_vec();
    let mut image = Ppm::new();
    let lines = parse_header(&input, &mut image).unwrap();
    assert_eq!(lines, 3);
    assert_eq!(image.maxc, 255);
    read_image_data(&input, &mut image, lines).unwrap();
    assert!(image.pixels.is_empty());
}

#[test]
fn leading_zeros_parse() {
    let mut image = Ppm::new();
    let lines = parse_header(b"P6\n0002 001\n00255\n", &mut image).unwrap();
    assert_eq!(lines, 3);
    assert_eq!(image.width, 2);
    assert_eq!(image.height, 1);
    assert_eq!(image.maxc, 255);
}

#[test]
fn non_p6_tag_is_stored_verbatim() {
    let mut image = Ppm::new();
    let lines = parse_header(b"P3\n2 1\n255\n", &mut image).unwrap();
    assert_eq!(lines, 3);
    assert_eq!(image.magic, b"P3".to_vec());
}
