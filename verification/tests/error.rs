use lib::error::Error;

#[test]
fn display_invalid_dimensions() {
    let e = Error::InvalidDimensions { width: 0, height: 100 };
    let msg = e.message();
    assert!(msg.contains("0x100"));
    assert!(msg.contains("T.81"));
}

#[test]
fn display_invalid_quality() {
    let e = Error::InvalidQuality(0);
    let msg = e.message();
    assert!(msg.contains("1..=100"));
    assert!(msg.contains("0"));
}

#[test]
fn display_buffer_mismatch() {
    let e = Error::BufferSizeMismatch { expected: 300, actual: 100 };
    let msg = e.message();
    assert!(msg.contains("300"));
    assert!(msg.contains("100"));
}

#[test]
fn display_missing_huffman() {
    let e = Error::MissingHuffmanCode { symbol: 0xF0, context: "AC ZRL".to_string() };
    let msg = e.message();
    assert!(msg.contains("00F0"));
    assert!(msg.contains("AC ZRL"));
}

#[test]
fn display_bitstream_error() {
    let e = Error::BitstreamError("unflushed bits".to_string());
    let msg = e.message();
    assert!(msg.contains("bitstream error"));
    assert!(msg.contains("unflushed bits"));
}

#[test]
fn display_internal() {
    let e = Error::Internal("something broke".to_string());
    assert!(e.message().contains("something broke"));
}

#[test]
fn error_implements_std_error() {
    let e = Error::InvalidQuality(42);
    assert!(e.message().contains("42"));
}

#[test]
fn error_is_eq() {
    assert_eq!(Error::InvalidQuality(50), Error::InvalidQuality(50));
    assert_ne!(Error::InvalidQuality(50), Error::InvalidQuality(60));
}

#[test]
fn messages_are_exact() {
    assert_eq!(
        Error::InvalidDimensions { width: 0, height: 100 }.message(),
        "invalid image dimensions: 0x100 (each must be 1..=65535, per T.81 §B.2.2)"
    );
    assert_eq!(Error::InvalidQuality(7).message(), "quality must be 1..=100, got 7");
    assert_eq!(
        Error::BufferSizeMismatch { expected: 300, actual: 100 }.message(),
        "buffer size mismatch: expected 300 bytes, got 100"
    );
    assert_eq!(
        Error::MissingHuffmanCode { symbol: 0xABCD, context: "x".to_string() }.message(),
        "no Huffman code assigned for symbol 0xABCD (x)"
    );
    assert_eq!(Error::Internal("y".to_string()).message(), "internal encoder error: y");
}
