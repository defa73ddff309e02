use cadrum::common::error::{decimal_string, Error};
use cadrum::error::Error as OcctError;

#[test]
fn error_messages_read_like_display() {
    assert_eq!(Error::Tesselation.message(), "Tesselation failed");
    assert_eq!(Error::Boolean.message(), "Boolean operation failed");
    assert_eq!(Error::OneFailed(12).message(), "Expected exactly one resulting Solid, got 12");
    assert_eq!(Error::Validation("bad colour".to_string()).message(), "Validation failed: bad colour");
    assert_eq!(Error::Sweep("open".to_string()).message(), "Sweep failed: open");
    assert_eq!(Error::Clean.message(), "Clean failed");
}

#[test]
fn io_error_message_is_prefixed() {
    let e: Error = std::io::Error::new(std::io::ErrorKind::NotFound, "gone").into();
    assert!(matches!(&e, Error::Io(inner) if inner.kind() == std::io::ErrorKind::NotFound));
    assert!(e.message().starts_with("I/O error: "));
    assert_eq!(e.message(), "I/O error: gone");
}

#[test]
fn decimal_string_writes_digits() {
    assert_eq!(decimal_string(0), "0");
    assert_eq!(decimal_string(7), "7");
    assert_eq!(decimal_string(1090), "1090");
}

#[test]
fn occt_error_messages() {
    assert_eq!(OcctError::StepReadFailed.message(), "STEP read failed");
    assert_eq!(OcctError::BrepReadFailed.message(), "BRep read failed");
    assert_eq!(OcctError::StepWriteFailed.message(), "STEP write failed");
    assert_eq!(OcctError::BrepWriteFailed.message(), "BRep write failed");
    assert_eq!(OcctError::TriangulationFailed.message(), "Triangulation failed");
}
