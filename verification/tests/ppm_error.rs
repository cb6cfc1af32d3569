use lib::ppm::error::Error;
use std::io;

#[test]
fn display_io_error() {
    let inner = io::Error::new(io::ErrorKind::NotFound, "file gone");
    let e = Error::Io(inner);
    let msg = e.message();
    assert!(msg.contains("file gone"));
}

#[test]
fn display_invalid_format() {
    let e = Error::InvalidFormat("bad magic".into());
    let msg = e.message();
    assert!(msg.contains("bad magic"));
}

#[test]
fn display_value_out_of_range() {
    let e = Error::ValueOutOfRange("maxval 99999".into());
    let msg = e.message();
    assert!(msg.contains("maxval 99999"));
}

#[test]
fn source_returns_inner_io_error() {
    let inner = io::Error::new(io::ErrorKind::BrokenPipe, "broken");
    let e = Error::Io(inner);
    let src = e.source();
    assert!(src.is_some());
}

#[test]
fn source_returns_none_for_non_io() {
    let e = Error::InvalidFormat("x".into());
    assert!(e.source().is_none());
    let e = Error::ValueOutOfRange("y".into());
    assert!(e.source().is_none());
}

#[test]
fn from_io_error() {
    let io_err = io::Error::new(io::ErrorKind::PermissionDenied, "nope");
    let e: Error = io_err.into();
    assert!(matches!(e, Error::Io(_)));
}

#[test]
fn message_prefixes() {
    assert_eq!(Error::InvalidFormat("a".into()).message(), "invalid format: a");
    assert_eq!(Error::ValueOutOfRange("b".into()).message(), "value out of range: b");
    let e = Error::Io(io::Error::new(io::ErrorKind::Other, "c"));
    assert_eq!(e.message(), "I/O error: c");
}
