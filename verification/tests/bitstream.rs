use lib::bitstream::BitWriter;
use lib::error::Error;

#[test]
fn write_single_byte() {
    let mut w = BitWriter::with_capacity(16);
    w.write_bits(0xAB, 8).unwrap();
    let data = w.into_bytes();
    assert_eq!(data, [0xAB]);
}

#[test]
fn byte_stuffing_on_ff() {
    let mut w = BitWriter::with_capacity(16);
    w.write_bits(0xFF, 8).unwrap();
    let data = w.into_bytes();
    assert_eq!(data, [0xFF, 0x00]);
}

#[test]
fn no_stuffing_on_raw_byte() {
    let mut w = BitWriter::with_capacity(16);
    w.write_raw_byte(0xFF).unwrap();
    let data = w.into_bytes();
    assert_eq!(data, [0xFF]);
}

#[test]
fn flush_pads_with_ones() {
    let mut w = BitWriter::with_capacity(16);
    w.write_bits(0b1010, 4).unwrap();
    w.flush_with_ones().unwrap();
    let data = w.into_bytes();
    assert_eq!(data, [0xAF]);
}

#[test]
fn flush_noop_when_aligned() {
    let mut w = BitWriter::with_capacity(16);
    w.write_bits(0x42, 8).unwrap();
    w.flush_with_ones().unwrap();
    let data = w.into_bytes();
    assert_eq!(data, [0x42]);
}

#[test]
fn write_u16_be() {
    let mut w = BitWriter::with_capacity(16);
    w.write_u16_be(0xFFD8).unwrap();
    let data = w.into_bytes();
    assert_eq!(data, [0xFF, 0xD8]);
}

#[test]
fn write_bits_spanning_bytes() {
    let mut w = BitWriter::with_capacity(16);
    w.write_bits(0xABC, 12).unwrap();
    w.flush_with_ones().unwrap();
    let data = w.into_bytes();
    assert_eq!(data, [0xAB, 0xCF]);
}

#[test]
fn write_zero_bits_is_noop() {
    let mut w = BitWriter::with_capacity(16);
    w.write_bits(0xFFFF, 0).unwrap();
    assert!(w.is_empty());
}

#[test]
fn len_and_is_empty() {
    let mut w = BitWriter::with_capacity(16);
    assert!(w.is_empty());
    assert_eq!(w.len(), 0);
    w.write_bits(0xFF, 8).unwrap();
    assert!(!w.is_empty());
    assert_eq!(w.len(), 2);
}

#[test]
fn multiple_ff_bytes_each_stuffed() {
    let mut w = BitWriter::with_capacity(16);
    w.write_bits(0xFF, 8).unwrap();
    w.write_bits(0xFF, 8).unwrap();
    let data = w.into_bytes();
    assert_eq!(data, [0xFF, 0x00, 0xFF, 0x00]);
}

#[test]
fn write_raw_bytes_slice() {
    let mut w = BitWriter::with_capacity(16);
    w.write_raw_bytes(&[0x4A, 0x46, 0x49, 0x46, 0x00]).unwrap();
    let data = w.into_bytes();
    assert_eq!(data, [0x4A, 0x46, 0x49, 0x46, 0x00]);
}

#[test]
fn write_bits_count_too_large_returns_error() {
    let mut w = BitWriter::with_capacity(16);
    let result = w.write_bits(0, 17);
    assert!(result.is_err());
    assert!(w.is_empty(), "no bytes should have been written");
}

#[test]
fn write_raw_byte_with_pending_bits_returns_error() {
    let mut w = BitWriter::with_capacity(16);
    w.write_bits(0b1010, 4).unwrap();
    let result = w.write_raw_byte(0x42);
    assert!(result.is_err());
}

#[test]
fn write_raw_bytes_with_pending_bits_returns_error() {
    let mut w = BitWriter::with_capacity(16);
    w.write_bits(0b1010, 4).unwrap();
    let result = w.write_raw_bytes(&[0x42]);
    assert!(result.is_err());
}

#[test]
fn write_u16_be_with_pending_bits_returns_error() {
    let mut w = BitWriter::with_capacity(16);
    w.write_bits(0b1010, 4).unwrap();
    let result = w.write_u16_be(0xFFD8);
    assert!(result.is_err());
}

#[test]
fn count_error_message_names_the_count() {
    let mut w = BitWriter::with_capacity(16);
    match w.write_bits(0, 17) {
        Err(Error::BitstreamError(m)) => assert_eq!(m, "write_bits: count must be in 0..=16, got 17"),
        other => panic!("unexpected result {:?}", other),
    }
}

#[test]
fn unaligned_error_message_names_pending_bits() {
    let mut w = BitWriter::with_capacity(16);
    w.write_bits(0b101, 3).unwrap();
    match w.write_raw_byte(0) {
        Err(Error::BitstreamError(m)) => {
            assert_eq!(m, "cannot write raw bytes with 3 unflushed bits in the accumulator")
        }
        other => panic!("unexpected result {:?}", other),
    }
}

#[test]
fn stuffed_ff_is_always_followed_by_zero() {
    let mut w = BitWriter::with_capacity(16);
    w.write_bits(0x7, 3).unwrap();
    w.write_bits(0x1FFF, 13).unwrap();
    w.write_bits(0xFF, 8).unwrap();
    w.flush_with_ones().unwrap();
    let data = w.into_bytes();
    for i in 0..data.len() {
        if data[i] == 0xFF {
            assert!(i + 1 < data.len());
            assert_eq!(data[i + 1], 0x00);
        }
    }
}

#[test]
fn two_writes_equal_one_concatenated_write() {
    let mut a = BitWriter::with_capacity(16);
    a.write_bits(0b101, 3).unwrap();
    a.write_bits(0b11001, 5).unwrap();
    let mut b = BitWriter::with_capacity(16);
    b.write_bits(0b10111001, 8).unwrap();
    assert_eq!(a.into_bytes(), b.into_bytes());
}

#[test]
fn decoding_the_output_gives_back_the_written_bits() {
    let writes: [(u32, u8); 9] =
        [(0x1FF, 9), (0, 3), (0xFFFF, 16), (5, 3), (0x7F, 7), (1, 1), (0xABCD, 16), (0, 0), (3, 2)];
    let mut w = BitWriter::with_capacity(64);
    let mut expected: Vec<bool> = Vec::new();
    for (value, count) in writes {
        w.write_bits(value, count).unwrap();
        for i in (0..count).rev() {
            expected.push((value >> i) & 1 == 1);
        }
    }
    w.flush_with_ones().unwrap();
    while expected.len() % 8 != 0 {
        expected.push(true);
    }
    let data = w.into_bytes();
    // Remove the 0x00 stuffed after each 0xFF, then unpack the bits.
    let mut unstuffed = Vec::new();
    let mut i = 0;
    while i < data.len() {
        unstuffed.push(data[i]);
        if data[i] == 0xFF {
            assert_eq!(data[i + 1], 0x00);
            i += 1;
        }
        i += 1;
    }
    let bits: Vec<bool> = unstuffed.iter().flat_map(|&b| (0..8).rev().map(move |i| (b >> i) & 1 == 1)).collect();
    assert_eq!(bits, expected);
}

#[test]
fn a_sequence_of_writes_is_one_write_of_the_concatenated_bits() {
    // 3 + 8 + 7 + 4 = 22 bits: 101 11111111 0000001 1010.
    let mut w = BitWriter::with_capacity(16);
    w.write_bits(0b101, 3).unwrap();
    w.write_bits(0xFF, 8).unwrap();
    w.write_bits(0b0000001, 7).unwrap();
    w.write_bits(0b1010, 4).unwrap();
    // Bytes 10111111 11100000 are complete (0xBF, 0xE0); 011010 is pending,
    // padded with ones on flush to 01101011 (0x6B).
    w.flush_with_ones().unwrap();
    assert_eq!(w.into_bytes(), [0xBF, 0xE0, 0x6B]);
}

#[test]
fn complete_bytes_of_the_concatenation_are_stuffed() {
    let mut w = BitWriter::with_capacity(16);
    w.write_bits(0xF, 4).unwrap();
    w.write_bits(0xF, 4).unwrap();
    w.write_bits(0x3, 2).unwrap();
    assert_eq!(w.into_bytes(), [0xFF, 0x00]);
}
