//! Errors reported by the encoder.
use vstd::prelude::*;

use crate::text::{decimal_string, hex_string, spec_decimal, spec_hex};

verus! {

/// All errors that may occur during JPEG encoding.
///
/// Validation errors (bad dimensions, quality, buffer size) come from the
/// caller's input; the others signal an internal inconsistency (a missing
/// Huffman code, a misuse of the bit writer).
#[derive(Debug, Clone, PartialEq, Eq)]
pub enum Error {
    /// Width or height outside 1..=65535.
    InvalidDimensions { width: u32, height: u32 },
    /// Quality outside 1..=100.
    InvalidQuality(u8),
    /// The pixel buffer does not hold width * height * components bytes.
    BufferSizeMismatch { expected: usize, actual: usize },
    /// A symbol that must be coded has no Huffman code.
    MissingHuffmanCode { symbol: u16, context: String },
    /// The bit writer was used with invalid parameters or in an invalid state.
    BitstreamError(String),
    /// Any other internal invariant violation.
    Internal(String),
}

impl Error {
    /// The human-readable description of the error.
    pub open spec fn spec_message(&self) -> Seq<char> {
        match self {
            Error::InvalidDimensions { width, height } => "invalid image dimensions: "@ + spec_decimal(*width as nat)
                + "x"@ + spec_decimal(*height as nat) + " (each must be 1..=65535, per T.81 §B.2.2)"@,
            Error::InvalidQuality(q) => "quality must be 1..=100, got "@ + spec_decimal(*q as nat),
            Error::BufferSizeMismatch { expected, actual } => "buffer size mismatch: expected "@ + spec_decimal(
                *expected as nat,
            ) + " bytes, got "@ + spec_decimal(*actual as nat),
            Error::MissingHuffmanCode { symbol, context } => "no Huffman code assigned for symbol 0x"@ + spec_hex(
                *symbol as nat,
                4,
            ) + " ("@ + context@ + ")"@,
            Error::BitstreamError(msg) => "bitstream error: "@ + msg@,
            Error::Internal(msg) => "internal encoder error: "@ + msg@,
        }
    }

    /// The human-readable description of the error: the dimensions, the
    /// quality, the two sizes, the symbol in four hexadecimal digits with
    /// its context, or the message, after a fixed prefix.
    pub fn message(&self) -> (s: String)
        ensures
            s@ == self.spec_message(),
    {
        match self {
            Error::InvalidDimensions { width, height } => String::from_str("invalid image dimensions: ").concat(
                decimal_string(*width as u64).as_str(),
            ).concat("x").concat(decimal_string(*height as u64).as_str()).concat(
                " (each must be 1..=65535, per T.81 §B.2.2)",
            ),
            Error::InvalidQuality(q) => String::from_str("quality must be 1..=100, got ").concat(
                decimal_string(*q as u64).as_str(),
            ),
            Error::BufferSizeMismatch { expected, actual } => String::from_str("buffer size mismatch: expected ").concat(
                decimal_string(*expected as u64).as_str(),
            ).concat(" bytes, got ").concat(decimal_string(*actual as u64).as_str()),
            Error::MissingHuffmanCode { symbol, context } => String::from_str("no Huffman code assigned for symbol 0x").concat(
                hex_string(*symbol as u32, 4).as_str(),
            ).concat(" (").concat(context.as_str()).concat(")"),
            Error::BitstreamError(msg) => String::from_str("bitstream error: ").concat(msg.as_str()),
            Error::Internal(msg) => String::from_str("internal encoder error: ").concat(msg.as_str()),
        }
    }
}

} // verus!
