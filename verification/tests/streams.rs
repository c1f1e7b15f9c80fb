//! Streams, patterns, cursors and failure values.

use lib::cursor::Cursor;
use lib::failure::{Needed, ParseError, ParseFailure, DEFAULT_MAX_RECURSION_DEPTH};
use lib::stream::{Compare, Partial, Stream, StreamIsPartial};
use lib::typed::Input;

#[test]
fn text_stream_reports_first_char_and_its_width() {
    assert_eq!(Stream::first("héllo"), Some(('h', 1)));
    assert_eq!(Stream::first("éa"), Some(('é', 2)));
    assert_eq!(Stream::first(""), None);
}

#[test]
fn text_stream_splits_on_char_boundaries_only() {
    assert_eq!(Stream::split_at("héllo", 3), ("hé", "llo"));
    assert!(!Stream::is_valid_split("é", 1));
    assert!(Stream::is_valid_split("é", 2));
    assert!(!Stream::is_valid_split("é", 3));
    assert_eq!(Stream::len("héllo"), 6);
    assert!(Stream::is_empty(""));
    assert_eq!(Stream::as_slice("abc"), "abc");
}

#[test]
fn byte_stream_units_are_bytes() {
    let bytes: &[u8] = b"ab\n";
    assert_eq!(Stream::first(bytes), Some((b'a', 1)));
    assert_eq!(Stream::split_at(bytes, 1), (&b"a"[..], &b"b\n"[..]));
    assert!(Stream::is_valid_split(bytes, 3));
    assert!(!Stream::is_valid_split(bytes, 4));
    assert_eq!(
        Stream::advance_cursor(bytes, Cursor::default(), 3),
        Cursor { line: 2, line_start_offset: 3, byte_offset: 3 }
    );
}

#[test]
fn previews_show_leading_tokens() {
    assert_eq!(Stream::preview("hello", 3), "hel");
    assert_eq!(Stream::preview("hé", 10), "hé");
    let bytes: &[u8] = &[0x41, 0x00, 0xff, 0x20, 0x7e];
    assert_eq!(Stream::preview(bytes, 10), "A\\x00\\xff ~");
    assert_eq!(Stream::preview(bytes, 1), "A");
}

#[test]
fn patterns_match_the_front_of_the_stream() {
    assert_eq!("hello".starts_with_pat("he"), Some(2));
    assert_eq!("héllo".starts_with_pat("hé"), Some(3));
    assert_eq!("hello".starts_with_pat("lo"), None);
    let bytes: &[u8] = b"abc";
    assert_eq!(bytes.starts_with_pat(&b"ab"[..]), Some(2));
    assert_eq!(bytes.starts_with_pat(&b"b"[..]), None);
    assert_eq!(bytes.starts_with_pat(b'a'), Some(1));
    assert_eq!(bytes.starts_with_pat(b'c'), None);
}

#[test]
fn partial_streams_declare_themselves_partial_and_delegate() {
    assert!(<Partial<&str> as StreamIsPartial>::PARTIAL);
    assert!(!<&str as StreamIsPartial>::PARTIAL);
    assert!(!<&[u8] as StreamIsPartial>::PARTIAL);
    let p = Partial("ab\nc");
    assert_eq!(Stream::first(p), Some(('a', 1)));
    assert_eq!(Stream::split_at(p, 1), ("a", Partial("b\nc")));
    assert_eq!(Stream::len(p), 4);
    assert_eq!(p.starts_with_pat("ab"), Some(2));
    assert_eq!(Stream::preview(p, 2), "ab");
    assert_eq!(
        Stream::advance_cursor(p, Cursor::default(), 4),
        Cursor { line: 2, line_start_offset: 3, byte_offset: 4 }
    );
}

#[test]
fn failures_carry_reason_expectations_and_position() {
    let at = Cursor { line: 2, line_start_offset: 4, byte_offset: 6 };
    let f: ParseFailure<&str> = ParseFailure::expecting("expected \"x\"".to_string(), "rest", at);
    assert_eq!(f.reason, "expected \"x\"");
    assert_eq!(f.expected, vec!["expected \"x\"".to_string()]);
    assert_eq!(f.rest, "rest");
    assert_eq!(f.cursor, at);
    let g: ParseFailure<&str> = ParseFailure::rejected("too deep".to_string(), "", at);
    assert_eq!(g.reason, "too deep");
    assert!(g.expected.is_empty());
    let e: ParseError<&str> = ParseError::from(f.clone());
    assert_eq!(e, ParseError::Failure(f));
    assert_ne!(Needed::Size(3), Needed::Unknown);
}

#[test]
fn input_starts_at_line_one_with_the_default_budget() {
    let input = Input::new("abc");
    assert_eq!(input.rest(), "abc");
    assert_eq!(input.cursor(), Cursor { line: 1, line_start_offset: 0, byte_offset: 0 });
    assert_eq!(Cursor::default(), input.cursor());
    assert_eq!(DEFAULT_MAX_RECURSION_DEPTH, 256);
}

#[test]
fn failures_and_errors_read_as_text() {
    let at = Cursor { line: 2, line_start_offset: 4, byte_offset: 1234567 };
    let f: ParseFailure<&str> = ParseFailure::expecting("expected \"x\"".to_string(), "", at);
    assert_eq!(f.to_string(), "expected \"x\" (line 2, byte offset 1234567)");
    let start: ParseFailure<&str> =
        ParseFailure::rejected("no".to_string(), "", Cursor::default());
    assert_eq!(start.to_string(), "no (line 1, byte offset 0)");
    assert_eq!(ParseError::Failure(f.clone()).to_string(), f.to_string());
    let unknown: ParseError<&str> = ParseError::Incomplete(Needed::Unknown);
    assert_eq!(unknown.to_string(), "incomplete input (need more data)");
    let sized: ParseError<&[u8]> = ParseError::Incomplete(Needed::Size(10));
    assert_eq!(sized.to_string(), "incomplete input (need at least 10 more base units)");
}

#[test]
fn expected_message_prefixes_the_quoted_text() {
    assert_eq!(lib::typed::expected_message("\"x\""), "expected \"x\"");
    assert_eq!(lib::typed::expected_message(""), "expected ");
}
