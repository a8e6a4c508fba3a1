use ppm_image::ppm::{decode_ppm, encode_ppm, parse_ppm, read_ppm_header, write_ppm_data, write_ppm_header, PpmError, PpmHeader};
use ppm_image::raster::Raster;

fn raster(width: u32, height: u32, data: Vec<u8>) -> Raster {
    Raster::new(width, height, data).expect("raster of the right size")
}

#[test]
fn binary_round_trip_2x2() {
    let data: Vec<u8> = (0u8..12).map(|v| v * 20).collect();
    let r = raster(2, 2, data.clone());
    let bytes = encode_ppm(&r, 255, true);
    let (header, decoded) = decode_ppm(&bytes).unwrap();
    assert_eq!(header.magic_number, b"P6".to_vec());
    assert_eq!((header.width, header.height, header.max_color_val), (2, 2, 255));
    assert_eq!(decoded, data);
}

#[test]
fn ascii_round_trip_3x1() {
    let data = vec![0, 1, 9, 10, 99, 100, 199, 254, 255];
    let r = raster(3, 1, data.clone());
    let bytes = encode_ppm(&r, 255, false);
    let (header, decoded) = decode_ppm(&bytes).unwrap();
    assert_eq!(header.magic_number, b"P3".to_vec());
    assert_eq!((header.width, header.height, header.max_color_val), (3, 1, 255));
    assert_eq!(decoded, data);
}

#[test]
fn unknown_magic_is_rejected() {
    let input = b"P9\n2 1\n255\n255 0 0\n0 255 0\n";
    let err = decode_ppm(input).unwrap_err();
    assert_eq!(err, PpmError::UnsupportedFormat);
    assert!(err.is_format_error());
}

#[test]
fn header_with_comment_parses_the_same() {
    let plain = b"P3\n2 1\n255\n1 2 3\n4 5 6\n";
    let commented = b"P3\n# made by hand\n2 1\n255\n1 2 3\n4 5 6\n";
    let (h1, d1) = decode_ppm(plain).unwrap();
    let (h2, d2) = decode_ppm(commented).unwrap();
    assert_eq!(h1.magic_number, h2.magic_number);
    assert_eq!((h1.width, h1.height, h1.max_color_val), (h2.width, h2.height, h2.max_color_val));
    assert_eq!(d1, d2);
    assert_eq!(d2, vec![1, 2, 3, 4, 5, 6]);
}

#[test]
fn truncated_binary_body_is_an_io_error() {
    let mut input = b"P6\n2 2\n255\n".to_vec();
    input.extend_from_slice(&[7u8; 10]);
    let err = decode_ppm(&input).unwrap_err();
    assert_eq!(err, PpmError::UnexpectedEof);
    assert!(!err.is_format_error());
}

#[test]
fn ascii_scenario_decodes_and_reencodes() {
    let input = b"P3\n2 1\n255\n255 0 0\n0 255 0\n";
    let (header, data) = decode_ppm(input).unwrap();
    assert_eq!((header.width, header.height), (2, 1));
    assert_eq!(data, vec![255, 0, 0, 0, 255, 0]);
    let r = raster(header.width, header.height, data);
    assert_eq!(encode_ppm(&r, 255, false), input.to_vec());
}

#[test]
fn binary_scenario_bytes() {
    let r = raster(1, 1, vec![10, 20, 30]);
    let mut expected = b"P6\n1 1\n255\n".to_vec();
    expected.extend_from_slice(&[0x0A, 0x14, 0x1E]);
    assert_eq!(encode_ppm(&r, 255, true), expected);
}

#[test]
fn header_and_body_written_in_parts() {
    let r = raster(1, 2, vec![1, 2, 3, 40, 50, 60]);
    let mut out = Vec::new();
    write_ppm_header(&mut out, 1, 2, 255, false);
    assert_eq!(out, b"P3\n1 2\n255\n".to_vec());
    write_ppm_data(&mut out, &r, false);
    assert_eq!(out, b"P3\n1 2\n255\n1 2 3\n40 50 60\n".to_vec());
    let mut bin = Vec::new();
    write_ppm_header(&mut bin, 4294967295, 10, 0, true);
    assert_eq!(bin, b"P6\n4294967295 10\n0\n".to_vec());
}

#[test]
fn header_reports_where_the_body_starts() {
    let input = b"P6\r\n# c\n  3   4 extra\n 255 \nXYZ";
    let (header, start) = read_ppm_header(input).unwrap();
    assert_eq!(header.magic_number, b"P6".to_vec());
    assert_eq!((header.width, header.height, header.max_color_val), (3, 4, 255));
    assert_eq!(&input[start..], b"XYZ");
}

#[test]
fn header_errors() {
    let cases: Vec<(&[u8], PpmError)> = vec![
        (b"", PpmError::MissingMagicNumber),
        (b"P3", PpmError::MissingWidth),
        (b"P3\n# only a comment\n", PpmError::MissingWidth),
        (b"P3\n\n2 1\n255\n", PpmError::MissingWidth),
        (b"P3\n2\n255\n", PpmError::MissingHeight),
        (b"P3\nx 1\n255\n", PpmError::InvalidWidth),
        (b"P3\n0 1\n255\n", PpmError::InvalidWidth),
        (b"P3\n4294967296 1\n255\n", PpmError::InvalidWidth),
        (b"P3\n-1 1\n255\n", PpmError::InvalidWidth),
        (b"P3\n2 y\n255\n", PpmError::InvalidHeight),
        (b"P3\n2 0\n255\n", PpmError::InvalidHeight),
        (b"P3\n2 1\n", PpmError::MissingMaxColorValue),
        (b"P3\n2 1\n# c\n", PpmError::MissingMaxColorValue),
        (b"P3\n2 1\nabc\n", PpmError::InvalidMaxColorValue),
        (b"P3\n2 1\n255 255\n", PpmError::InvalidMaxColorValue),
        (b"P3\n2 1\n\n", PpmError::InvalidMaxColorValue),
    ];
    for (input, expected) in cases {
        match read_ppm_header(input) {
            Err(e) => assert_eq!(e, expected, "input {:?}", input),
            Ok(_) => panic!("accepted {:?}", input),
        }
    }
}

#[test]
fn header_numbers_accept_plus_and_leading_zeros() {
    let (header, _) = read_ppm_header(b"P3\n+2 007\n0255\n").unwrap();
    assert_eq!((header.width, header.height, header.max_color_val), (2, 7, 255));
}

#[test]
fn ascii_body_rules() {
    let header = PpmHeader { magic_number: b"P3".to_vec(), width: 2, height: 1, max_color_val: 255 };
    assert_eq!(parse_ppm(&header, b"1 2\n  # note\n3\t4\r\n5 6").unwrap(), vec![1, 2, 3, 4, 5, 6]);
    assert_eq!(parse_ppm(&header, b"1 2 3\n").unwrap(), vec![1, 2, 3]);
    assert_eq!(parse_ppm(&header, b"").unwrap(), Vec::<u8>::new());
    assert_eq!(parse_ppm(&header, b"1 2 256\n"), Err(PpmError::InvalidPixelValue));
    assert_eq!(parse_ppm(&header, b"1 2 x\n"), Err(PpmError::InvalidPixelValue));
    assert_eq!(parse_ppm(&header, b"1 2 3 # no inline comments\n"), Err(PpmError::InvalidPixelValue));
}

#[test]
fn binary_body_rules() {
    let header = PpmHeader { magic_number: b"P6".to_vec(), width: 1, height: 1, max_color_val: 255 };
    assert_eq!(parse_ppm(&header, b"abcdef").unwrap(), b"abc".to_vec());
    assert_eq!(parse_ppm(&header, b"ab"), Err(PpmError::UnexpectedEof));
    let huge = PpmHeader { magic_number: b"P6".to_vec(), width: u32::MAX, height: u32::MAX, max_color_val: 255 };
    assert_eq!(parse_ppm(&huge, b"abc"), Err(PpmError::UnexpectedEof));
    let other = PpmHeader { magic_number: b"P6 ".to_vec(), width: 1, height: 1, max_color_val: 255 };
    assert_eq!(parse_ppm(&other, b"abc"), Err(PpmError::UnsupportedFormat));
}
