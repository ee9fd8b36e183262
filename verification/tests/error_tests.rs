use reto_core::{demo_function, Error};
use std::io;

#[test]
fn test_error_from_io() {
    let io_error = io::Error::new(io::ErrorKind::NotFound, "test error");
    let error: Error = io_error.into();
    assert!(matches!(error, Error::Io(_)));
    assert!(error.to_string().contains("IO error: test error"));
}

#[test]
fn test_error_unknown() {
    let error = Error::Unknown("test message".to_string());
    assert_eq!(error.to_string(), "Unknown error: test message");
}

#[test]
fn test_error_splitting_message() {
    let error = Error::Splitting("no frames".to_string());
    assert_eq!(error.to_string(), "Splitting error: no frames");
}

#[test]
fn test_demo_function_ok() {
    assert!(demo_function().is_ok());
}
