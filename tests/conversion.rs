use ppm_image::args::{handle_conversion, handle_png_to_ppm, validate_ppm_format, Conversion, ConversionError};

#[test]
fn conversion_directions() {
    assert_eq!(handle_conversion("a.ppm", "b.png", None), Ok(Conversion::PpmToPng));
    assert_eq!(handle_conversion("dir.x/a.ppm", "b.jpg", None), Ok(Conversion::PpmToJpeg));
    assert_eq!(handle_conversion("a.ppm", "b.jpeg", Some("P3")), Ok(Conversion::PpmToJpeg));
    assert_eq!(handle_conversion("a.jpg", "b.ppm", Some("P6")), Ok(Conversion::JpegToPpm { binary: true }));
    assert_eq!(handle_conversion("a.jpeg", "b.ppm", Some("P3")), Ok(Conversion::JpegToPpm { binary: false }));
    assert_eq!(handle_conversion("a.png", "b.ppm", Some("P3")), Ok(Conversion::PngToPpm { binary: false }));
    assert_eq!(handle_conversion("a.png", "b.ppm", Some("P6")), Ok(Conversion::PngToPpm { binary: true }));
}

#[test]
fn conversion_errors() {
    assert_eq!(handle_conversion("a.png", "b.ppm", None), Err(ConversionError::InvalidPpmFormat));
    assert_eq!(handle_conversion("a.png", "b.ppm", Some("P5")), Err(ConversionError::InvalidPpmFormat));
    assert_eq!(handle_conversion("a.png", "b.jpg", None), Err(ConversionError::UnsupportedConversion));
    assert_eq!(handle_conversion("a.PPM", "b.png", None), Err(ConversionError::UnsupportedConversion));
    assert_eq!(handle_conversion("ppm", "png", None), Ok(Conversion::PpmToPng));
    assert_eq!(handle_conversion("a.ppm.", "b.png", None), Err(ConversionError::UnsupportedConversion));
}

#[test]
fn jpeg_to_ppm_needs_a_valid_format() {
    assert_eq!(handle_conversion("a.jpg", "b.ppm", None), Err(ConversionError::InvalidPpmFormat));
    assert_eq!(handle_conversion("a.jpeg", "b.ppm", None), Err(ConversionError::InvalidPpmFormat));
    assert_eq!(handle_conversion("a.jpg", "b.ppm", Some("P9")), Err(ConversionError::InvalidPpmFormat));
    assert_eq!(handle_conversion("a.jpeg", "b.ppm", Some("")), Err(ConversionError::InvalidPpmFormat));
}

#[test]
fn ppm_format_names() {
    assert_eq!(validate_ppm_format("P3"), Ok(false));
    assert_eq!(validate_ppm_format("P6"), Ok(true));
    assert_eq!(validate_ppm_format("p3"), Err(ConversionError::InvalidPpmFormat));
    assert_eq!(validate_ppm_format(""), Err(ConversionError::InvalidPpmFormat));
    assert_eq!(handle_png_to_ppm("P6"), Ok(Conversion::PngToPpm { binary: true }));
    assert_eq!(handle_png_to_ppm("P66"), Err(ConversionError::InvalidPpmFormat));
}
