//! Errors of image readers.
use vstd::prelude::*;

verus! {

/// `std::io::Error`, carried through opaquely.
#[verifier::external_type_specification]
#[verifier::external_body]
pub struct ExIoError(std::io::Error);

/// Errors that may occur while reading an image file.
#[derive(Debug)]
pub enum Error {
    /// The underlying reader failed, or the data ended early.
    Io(std::io::Error),
    /// The file does not follow the format.
    InvalidFormat(String),
    /// A header value or sample is outside its allowed range.
    ValueOutOfRange(String),
}

/// The text of an I/O error, as its `Display` renders it.
///
/// Calls `<std::io::Error as ToString>::to_string`; nothing is claimed of
/// the text.
#[verifier::external_body]
fn io_error_text(e: &std::io::Error) -> String {
    e.to_string()
}

/// The I/O error reported when the data ends before a read is complete.
///
/// Calls `std::io::Error::new` with kind `UnexpectedEof`, the error that
/// `Read::read_exact` reports in that case; nothing is claimed of the value.
#[verifier::external_body]
pub(crate) fn unexpected_eof() -> std::io::Error {
    std::io::Error::new(std::io::ErrorKind::UnexpectedEof, "failed to fill whole buffer")
}

impl Error {
    /// An invalid-format error with message `msg`.
    pub open spec fn is_format(&self, msg: Seq<char>) -> bool {
        match self {
            Error::InvalidFormat(m) => m@ == msg,
            _ => false,
        }
    }

    /// A value-out-of-range error with message `msg`.
    pub open spec fn is_out_of_range(&self, msg: Seq<char>) -> bool {
        match self {
            Error::ValueOutOfRange(m) => m@ == msg,
            _ => false,
        }
    }

    /// The human-readable description: "I/O error: ", "invalid format: "
    /// or "value out of range: " before the inner error or message.
    pub fn message(&self) -> (s: String)
        ensures
            self matches Error::InvalidFormat(m) ==> s@ == "invalid format: "@ + m@,
            self matches Error::ValueOutOfRange(m) ==> s@ == "value out of range: "@ + m@,
            self is Io ==> s@.len() >= "I/O error: "@.len() && s@.subrange(0, "I/O error: "@.len() as int) == "I/O error: "@,
    {
        match self {
            Error::Io(e) => {
                let s = String::from_str("I/O error: ").concat(io_error_text(e).as_str());
                proof {
                    assert(s@.subrange(0, "I/O error: "@.len() as int) =~= "I/O error: "@);
                }
                s
            },
            Error::InvalidFormat(msg) => String::from_str("invalid format: ").concat(msg.as_str()),
            Error::ValueOutOfRange(msg) => String::from_str("value out of range: ").concat(msg.as_str()),
        }
    }

    /// The underlying I/O error, if this is one.
    pub fn source(&self) -> (r: Option<&std::io::Error>)
        ensures
            r is Some <==> self is Io,
            self matches Error::Io(e) ==> r matches Some(x) && *x == e,
    {
        match self {
            Error::Io(e) => Some(e),
            _ => None,
        }
    }
}

impl From<std::io::Error> for Error {
    fn from(e: std::io::Error) -> (r: Self) {
        Error::Io(e)
    }
}

impl vstd::std_specs::convert::FromSpecImpl<std::io::Error> for Error {
    open spec fn obeys_from_spec() -> bool {
        true
    }

    open spec fn from_spec(e: std::io::Error) -> Self {
        Error::Io(e)
    }
}

} // verus!
