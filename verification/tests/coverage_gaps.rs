//! Failure text and the `Input` accessors.

use lib::typed::{literal, Input, Parser};

#[test]
fn parse_failure_display_format() {
    let err = literal("foo").parse("bar").unwrap_err();
    let displayed = err.to_string();
    assert!(
        displayed.contains("expected \"foo\""),
        "display should include the reason; got: {displayed}"
    );
    assert!(
        displayed.contains("line 1"),
        "display should include the line number; got: {displayed}"
    );
    assert!(
        displayed.contains("byte offset 0"),
        "display should include the byte offset; got: {displayed}"
    );
}

#[test]
fn input_rest_and_cursor_accessors() {
    let input = Input::new("hello");
    assert_eq!(input.rest(), "hello");
    assert_eq!(input.cursor().byte_offset, 0);
    assert_eq!(input.cursor().line, 1);
    assert_eq!(input.cursor().line_start_offset, 0);
}

#[test]
fn input_new_empty_string() {
    let input = Input::new("");
    assert_eq!(input.rest(), "");
    assert_eq!(input.cursor().byte_offset, 0);
}
