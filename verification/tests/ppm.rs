use lib::ppm::error::Error;
use lib::ppm::parse_ppm;

#[test]
fn read_p6_basic() {
    let mut data = Vec::new();
    data.extend_from_slice(b"P6\n2 2\n255\n");
    data.extend_from_slice(&[255, 0, 0, 0, 255, 0, 0, 0, 255, 128, 128, 128]);
    let img = parse_ppm(&data).unwrap();
    assert_eq!(img.width, 2);
    assert_eq!(img.height, 2);
    assert_eq!(img.data.len(), 12);
    assert_eq!(img.data[0], 255);
}

#[test]
fn read_p3_basic() {
    let data = b"P3\n2 1\n255\n255 0 0 0 255 0\n";
    let img = parse_ppm(data.as_ref()).unwrap();
    assert_eq!(img.width, 2);
    assert_eq!(img.height, 1);
    assert_eq!(img.data, [255, 0, 0, 0, 255, 0]);
}

#[test]
fn read_p3_with_comments() {
    let data = b"P3\n# This is a comment\n2 1\n# Another comment\n255\n100 200 50 10 20 30\n";
    let img = parse_ppm(data.as_ref()).unwrap();
    assert_eq!(img.width, 2);
    assert_eq!(img.height, 1);
    assert_eq!(img.data, [100, 200, 50, 10, 20, 30]);
}

#[test]
fn read_p6_maxval_scaling() {
    let mut data = Vec::new();
    data.extend_from_slice(b"P6\n1 1\n127\n");
    data.extend_from_slice(&[127, 0, 64]);
    let img = parse_ppm(&data).unwrap();
    assert_eq!(img.data[0], 255);
    assert_eq!(img.data[1], 0);
    assert!((img.data[2] as i16 - 128).abs() <= 1);
}

#[test]
fn reject_invalid_magic() {
    let data = b"P5\n1 1\n255\n\x80";
    let result = parse_ppm(data.as_ref());
    assert!(result.is_err());
}

#[test]
fn reject_zero_dimension() {
    let data = b"P3\n0 1\n255\n";
    let result = parse_ppm(data.as_ref());
    assert!(result.is_err());
}

#[test]
fn reject_zero_maxval() {
    let data = b"P3\n1 1\n0\n0 0 0\n";
    let result = parse_ppm(data.as_ref());
    assert!(result.is_err());
}

#[test]
fn reject_sample_exceeding_maxval() {
    let data = b"P3\n1 1\n100\n101 0 0\n";
    let result = parse_ppm(data.as_ref());
    assert!(result.is_err());
}

#[test]
fn read_p6_16bit_maxval() {
    let mut data = Vec::new();
    data.extend_from_slice(b"P6\n1 1\n1000\n");
    data.extend_from_slice(&[0x01, 0xF4, 0x00, 0x00, 0x03, 0xE8]);
    let img = parse_ppm(&data).unwrap();
    assert_eq!(img.data.len(), 3);
    assert!((img.data[0] as i16 - 128).abs() <= 1);
    assert_eq!(img.data[1], 0);
    assert_eq!(img.data[2], 255);
}

fn message_of(data: &[u8]) -> String {
    match parse_ppm(data) {
        Err(e) => e.message(),
        Ok(_) => panic!("expected an error"),
    }
}

#[test]
fn error_messages() {
    assert_eq!(message_of(b"P5 1 1 255 "), "invalid format: expected P3 or P6, got 'P5'");
    assert_eq!(message_of(b""), "invalid format: unexpected end of file");
    assert_eq!(message_of(b"P3 0 1 255"), "invalid format: zero dimension: 0x1");
    assert_eq!(message_of(b"P3 70000 1 255"), "invalid format: dimensions too large: 70000x1");
    assert_eq!(message_of(b"P3 1 1 0"), "value out of range: maxval must be 1..=65535, got 0");
    assert_eq!(message_of(b"P3 1 1 100 101 0 0"), "value out of range: sample 101 exceeds maxval 100");
    assert_eq!(message_of(b"P3 1 1 255 1 x 0"), "invalid format: bad sample: invalid digit found in string");
    assert_eq!(message_of(b"P3 w 1 255"), "invalid format: bad width: invalid digit found in string");
    assert_eq!(message_of(b"P3 1 1 99999999999"), "invalid format: bad maxval: number too large to fit in target type");
    assert_eq!(message_of(b"P3 1 1 255 1 2"), "invalid format: unexpected end of file");
}

#[test]
fn p6_missing_data_is_an_io_error() {
    let result = parse_ppm(b"P6\n2 1\n255\n\x01\x02\x03");
    assert!(matches!(result, Err(Error::Io(_))));
}

#[test]
fn p6_trailing_data_is_ignored() {
    let img = parse_ppm(b"P6 1 1 255 \x01\x02\x03\x04\x05").unwrap();
    assert_eq!(img.data, [1, 2, 3]);
}

#[test]
fn comment_inside_a_token_joins_its_parts() {
    let img = parse_ppm(b"P3 1#c\n 1 255 +7 8 9").unwrap();
    assert_eq!((img.width, img.height), (1, 1));
    assert_eq!(img.data, [7, 8, 9]);
}

#[test]
fn p3_rescales_to_255() {
    let img = parse_ppm(b"P3 1 1 2 0 1 2").unwrap();
    // (1 * 255 + 1) / 2 = 128
    assert_eq!(img.data, [0, 128, 255]);
}

#[test]
fn p6_file_reads_back_its_header_and_samples() {
    for (w, h) in [(1u32, 1u32), (3, 2), (10, 1), (17, 33)] {
        let samples: Vec<u8> = (0..w * h * 3).map(|i| (i * 37 % 256) as u8).collect();
        let mut file = format!("P6\n{} {}\n255\n", w, h).into_bytes();
        file.extend_from_slice(&samples);
        file.extend_from_slice(&[1, 2, 3]);
        let img = parse_ppm(&file).unwrap();
        assert_eq!((img.width, img.height), (w, h));
        assert_eq!(img.data, samples);
    }
}

#[test]
fn p3_file_reads_back_its_header_and_samples() {
    for (w, h) in [(1u32, 1u32), (2, 3), (5, 1)] {
        let samples: Vec<u8> = (0..w * h * 3).map(|i| (i * 53 % 256) as u8).collect();
        let mut text = format!("P3\n{} {}\n255\n", w, h);
        for s in &samples {
            text.push_str(&format!("{} ", s));
        }
        let img = parse_ppm(text.as_bytes()).unwrap();
        assert_eq!((img.width, img.height), (w, h));
        assert_eq!(img.data, samples);
    }
}
