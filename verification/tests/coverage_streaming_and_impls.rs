//! `ParseFailure`, `ParseError` and `Input`: clone, equality, debug output,
//! conversion and text.

use lib::cursor::Cursor;
use lib::failure::{Needed, ParseError, ParseFailure};
use lib::stream::Partial;
use lib::typed::{literal, Input, Parser};

#[test]
fn parse_failure_clone_and_eq() {
    let err1 = literal("x").parse("y").unwrap_err();
    let err2 = err1.clone();
    assert_eq!(err1, err2);
    // Different failures are !=
    let err3 = literal("z").parse("y").unwrap_err();
    assert_ne!(err1, err3);
}

#[test]
fn parse_failure_debug_format() {
    let err = literal("x").parse("y").unwrap_err();
    let s = format!("{:?}", err);
    assert!(s.contains("ParseFailure"));
    assert!(s.contains("reason"));
}

#[test]
fn parse_error_from_parse_failure() {
    let failure: ParseFailure<&str> =
        ParseFailure::expecting("test".to_string(), "", Cursor::default());
    let error: ParseError<&str> = ParseError::from(failure.clone());
    assert!(matches!(error, ParseError::Failure(_)));
    // Round-trip through Into
    let error2: ParseError<&str> = failure.into();
    assert!(matches!(error2, ParseError::Failure(_)));
}

#[test]
fn parse_error_clone_failure_variant() {
    let err = literal("x").parse_partial("y").unwrap_err();
    let cloned = err.clone();
    assert_eq!(err, cloned);
}

#[test]
fn parse_error_debug_failure_variant() {
    let err = literal("x").parse_partial("y").unwrap_err();
    let s = format!("{:?}", err);
    assert!(s.contains("Failure"));
}

#[test]
fn parse_error_debug_incomplete_variant() {
    let err: ParseError<Partial<&str>> = ParseError::Incomplete(Needed::Unknown);
    let s = format!("{:?}", err);
    assert!(s.contains("Incomplete"));
}

#[test]
fn input_clone_and_debug() {
    let input = Input::new("hello world");
    let cloned = input.clone();
    let s = format!("{:?}", cloned);
    assert!(s.contains("Input"));
}

#[test]
fn parse_error_display_failure_variant() {
    // The text of a `Failure` is the text of the failure it holds.
    let failure = ParseFailure::expecting("expected 'x'".to_string(), "", Cursor::default());
    let err: ParseError<&str> = ParseError::from(failure);
    let s = err.to_string();
    assert!(s.contains("expected 'x'"), "got: {s}");
}

#[test]
fn parse_error_clone_incomplete_variant() {
    let err: ParseError<Partial<&str>> = ParseError::Incomplete(Needed::Unknown);
    let cloned = err.clone();
    assert_eq!(err, cloned);

    let err2: ParseError<Partial<&str>> = ParseError::Incomplete(Needed::Size(3));
    let cloned2 = err2.clone();
    assert_eq!(err2, cloned2);
}

#[test]
fn parse_error_partial_eq_same_variants() {
    // Failure == Failure
    let e1: ParseError<&str> =
        ParseError::Failure(ParseFailure::expecting("x".to_string(), "", Cursor::default()));
    let e2: ParseError<&str> =
        ParseError::Failure(ParseFailure::expecting("x".to_string(), "", Cursor::default()));
    assert_eq!(e1, e2);

    // Incomplete == Incomplete
    let i1: ParseError<Partial<&str>> = ParseError::Incomplete(Needed::Unknown);
    let i2: ParseError<Partial<&str>> = ParseError::Incomplete(Needed::Unknown);
    assert_eq!(i1, i2);
}

#[test]
fn parse_error_partial_eq_different_variants() {
    let fail: ParseError<Partial<&str>> = ParseError::Failure(ParseFailure::expecting(
        "x".to_string(),
        "",
        Cursor::default(),
    ));
    let inc: ParseError<Partial<&str>> = ParseError::Incomplete(Needed::Unknown);
    assert_ne!(fail, inc);
}

#[test]
fn parse_error_display_incomplete_unknown() {
    let err: ParseError<Partial<&str>> = ParseError::Incomplete(Needed::Unknown);
    let s = err.to_string();
    assert_eq!(s, "incomplete input (need more data)");
}

#[test]
fn parse_error_display_incomplete_size() {
    let err: ParseError<Partial<&str>> = ParseError::Incomplete(Needed::Size(7));
    let s = err.to_string();
    assert!(s.contains("7"), "got: {s}");
    assert!(s.contains("base units"), "got: {s}");
}
