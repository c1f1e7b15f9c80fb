//! Tests for the top-level expression splitter.

use lib::np_expr::scan_top_level;
use lib::np_expr::Tok;
use lib::np_expr::Tok::{Colon, Comma, Pipe, Reserved, Text, Ws};

fn text(s: &str) -> Tok {
    Text(s.to_string())
}

#[test]
fn splits_pipes_and_whitespace() {
    assert_eq!(
        scan_top_level("name | upcase"),
        vec![text("name"), Ws(' '), Pipe, Ws(' '), text("upcase")]
    );
}

#[test]
fn reserved_operators_are_maximal_munch_but_lone_amp_is_text() {
    assert_eq!(
        scan_top_level("a || b"),
        vec![text("a"), Ws(' '), Reserved("||"), Ws(' '), text("b")]
    );
    assert_eq!(
        scan_top_level("a&&b"),
        vec![text("a"), Reserved("&&"), text("b")]
    );
    // A lone `&` (not `&&`) is ordinary text.
    assert_eq!(
        scan_top_level("a & b"),
        vec![text("a"), Ws(' '), text("&"), Ws(' '), text("b")]
    );
}

#[test]
fn quotes_parens_brackets_are_atomic() {
    // Separators inside quoted/paren/bracket chunks are part of the text.
    assert_eq!(
        scan_top_level("default 'a b' c"),
        vec![text("default"), Ws(' '), text("'a b'"), Ws(' '), text("c")]
    );
    assert_eq!(scan_top_level("[first-name]"), vec![text("[first-name]")]);
    assert_eq!(
        scan_top_level("upcase (trim name)"),
        vec![text("upcase"), Ws(' '), text("(trim name)")]
    );
    assert_eq!(scan_top_level("[a|b]"), vec![text("[a|b]")]);
}

#[test]
fn keyword_argument_separators() {
    assert_eq!(
        scan_top_level("t key=value"),
        vec![text("t"), Ws(' '), text("key"), Tok::Eq, text("value")]
    );
    assert_eq!(scan_top_level("a:b"), vec![text("a"), Colon, text("b")]);
    assert_eq!(scan_top_level("a,b"), vec![text("a"), Comma, text("b")]);
}

#[test]
fn empty_input_yields_no_tokens() {
    assert!(scan_top_level("").is_empty());
}

// ── Edge cases ───────────────────────────────────────────────────────────────

#[test]
fn triple_pipe_is_reserved_then_pipe() {
    assert_eq!(
        scan_top_level("a|||b"),
        vec![text("a"), Reserved("||"), Pipe, text("b")]
    );
}

#[test]
fn escaped_quote_stays_inside_the_quoted_chunk() {
    assert_eq!(
        scan_top_level("'a\\' b' c"),
        vec![text("'a\\' b'"), Ws(' '), text("c")]
    );
    // A backslash at the very end is kept as text.
    assert_eq!(scan_top_level("\"x\\"), vec![text("\"x\\")]);
}

#[test]
fn unterminated_chunks_run_to_the_end() {
    assert_eq!(scan_top_level("'abc d"), vec![text("'abc d")]);
    assert_eq!(scan_top_level("[a b"), vec![text("[a b")]);
    assert_eq!(scan_top_level("(a | b"), vec![text("(a | b")]);
}

#[test]
fn nested_parens_and_closers_are_text() {
    assert_eq!(
        scan_top_level("f (a (b, c) 'd)') x"),
        vec![text("f"), Ws(' '), text("(a (b, c) 'd)')"), Ws(' '), text("x")]
    );
    assert_eq!(scan_top_level(")]"), vec![text(")]")]);
}

#[test]
fn every_whitespace_character_is_its_own_token() {
    assert_eq!(
        scan_top_level("a \t\n\rb"),
        vec![text("a"), Ws(' '), Ws('\t'), Ws('\n'), Ws('\r'), text("b")]
    );
}

#[test]
fn trailing_ampersand_is_text() {
    assert_eq!(scan_top_level("a&"), vec![text("a&")]);
    assert_eq!(scan_top_level("&&&"), vec![Reserved("&&"), text("&")]);
}

#[test]
fn nesting_beyond_the_recursion_cap_stays_one_text_run() {
    let deep = format!("{}{}", "(".repeat(300), ")".repeat(300));
    assert_eq!(scan_top_level(&deep), vec![text(&deep)]);
}

#[test]
fn non_ascii_text_is_kept_whole() {
    assert_eq!(
        scan_top_level("héllo|wörld"),
        vec![text("héllo"), Pipe, text("wörld")]
    );
}
