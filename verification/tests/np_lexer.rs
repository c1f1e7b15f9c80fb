//! Tests for the lexical pass of the template lexer.

use lib::np_lexer::{raw_lex, LexKind};

fn kinds(source: &str) -> Vec<(&'static str, usize)> {
    raw_lex(source)
        .unwrap()
        .iter()
        .map(|l| {
            let tag = match l.kind {
                LexKind::Text(_) => "text",
                LexKind::BlockComment => "block_comment",
                LexKind::InlineComment => "inline_comment",
                LexKind::RawBlock(_) => "raw_block",
                LexKind::RawTag(_) => "raw_tag",
                LexKind::StandardTag(_) => "standard_tag",
            };
            (tag, l.end)
        })
        .collect()
}

#[test]
fn lexes_text_tags_and_comments_with_end_offsets() {
    // The units tile the source; the recorded ends are the unit boundaries.
    assert_eq!(
        kinds("Hi {{name}}!"),
        vec![("text", 3), ("standard_tag", 11), ("text", 12)]
    );
    assert_eq!(kinds("{{{raw}}}"), vec![("raw_tag", 9)]);
    assert_eq!(
        kinds("a{{!-- c --}}b{{! d }}e"),
        vec![
            ("text", 1),
            ("block_comment", 13),
            ("text", 14),
            ("inline_comment", 22),
            ("text", 23),
        ]
    );
    assert_eq!(kinds("{{{{#raw}}}}x{{{{/raw}}}}"), vec![("raw_block", 25)]);
}

#[test]
fn unterminated_tag_reports_its_offset() {
    let err = raw_lex("Hi {{name").unwrap_err();
    assert_eq!(err.start, 3);
}

// ── Edge cases ───────────────────────────────────────────────────────────────

use lib::np_lexer::{is_name_char, trailing_backslashes};

#[test]
fn mismatched_raw_block_names_fall_back_to_raw_tags() {
    assert_eq!(
        kinds("{{{{#a}}}}x{{{{/b}}}}"),
        vec![("raw_tag", 9), ("text", 11), ("raw_tag", 20), ("text", 21)]
    );
}

#[test]
fn raw_block_keeps_its_content_verbatim() {
    let units = raw_lex("{{{{#r}}}}{{x}}{{{{/r}}}}").unwrap();
    assert_eq!(units.len(), 1);
    match &units[0].kind {
        LexKind::RawBlock(content) => assert_eq!(content, "{{x}}"),
        other => panic!("unexpected unit {other:?}"),
    }
    assert_eq!(units[0].end, 25);
}

#[test]
fn tags_keep_their_inner_text() {
    let units = raw_lex("{{ a }}{{{ b }}}").unwrap();
    match (&units[0].kind, &units[1].kind) {
        (LexKind::StandardTag(a), LexKind::RawTag(b)) => {
            assert_eq!(a, " a ");
            assert_eq!(b, " b ");
        }
        other => panic!("unexpected units {other:?}"),
    }
}

#[test]
fn unclosed_block_comment_opener_is_an_inline_comment() {
    assert_eq!(kinds("{{!-- x }}"), vec![("inline_comment", 10)]);
}

#[test]
fn unterminated_comment_is_an_error_spanning_to_the_end() {
    let err = raw_lex("ab{{!-- x").unwrap_err();
    assert_eq!(err.message, "unterminated tag while lexing template");
    assert_eq!(err.file, "");
    assert_eq!(err.start, 2);
    assert_eq!(err.end, 9);
}

#[test]
fn end_offsets_count_bytes() {
    assert_eq!(kinds("é{{x}}ü"), vec![("text", 2), ("standard_tag", 7), ("text", 9)]);
}

#[test]
fn empty_template_has_no_units() {
    assert!(raw_lex("").unwrap().is_empty());
}

#[test]
fn lone_brace_is_text() {
    assert_eq!(kinds("a{b}}c"), vec![("text", 6)]);
}

#[test]
fn name_characters_are_ascii_alphanumerics_underscore_and_hyphen() {
    for c in ['a', 'Z', '0', '9', '_', '-'] {
        assert!(is_name_char(c));
    }
    for c in [' ', '#', '}', 'é', '.'] {
        assert!(!is_name_char(c));
    }
}

#[test]
fn trailing_backslashes_are_counted() {
    assert_eq!(trailing_backslashes("a\\\\"), 2);
    assert_eq!(trailing_backslashes("\\a"), 0);
    assert_eq!(trailing_backslashes(""), 0);
    assert_eq!(trailing_backslashes("é\\"), 1);
}

// ── Assembly ─────────────────────────────────────────────────────────────────

use lib::np_lexer::{assemble, Piece};

fn pieces(source: &str) -> Vec<Piece> {
    assemble(&raw_lex(source).unwrap(), source.len())
}

fn text_piece(text: &str, start: usize, end: usize) -> Piece {
    Piece::Text { text: text.to_string(), start, end }
}

fn tag_piece(inner: &str, triple: bool, start: usize, end: usize) -> Piece {
    Piece::Tag { inner: inner.to_string(), triple, start, end }
}

#[test]
fn assembly_flushes_text_before_each_tag_and_at_the_end() {
    assert_eq!(
        pieces("Hi {{name}}!"),
        vec![text_piece("Hi ", 0, 3), tag_piece("name", false, 3, 11), text_piece("!", 11, 12)]
    );
    assert_eq!(
        pieces("{{{r}}}"),
        vec![text_piece("", 0, 0), tag_piece("r", true, 0, 7), text_piece("", 0, 7)]
    );
}

#[test]
fn assembly_merges_text_across_comments_and_raw_blocks() {
    assert_eq!(pieces("a{{!-- c --}}b{{! d }}e"), vec![text_piece("abe", 0, 23)]);
    assert_eq!(pieces("x{{{{#a}}}}{{y}}{{{{/a}}}}z"), vec![text_piece("x{{y}}z", 0, 27)]);
}

#[test]
fn one_backslash_escapes_a_tag_and_more_keep_all_but_one() {
    assert_eq!(pieces("a\\{{x}}b"), vec![text_piece("a{{x}}b", 0, 8)]);
    assert_eq!(
        pieces("a\\\\{{x}}"),
        vec![text_piece("a\\", 0, 3), tag_piece("x", false, 3, 8), text_piece("", 0, 8)]
    );
    // A raw tag is never escaped.
    assert_eq!(
        pieces("\\{{{x}}}"),
        vec![text_piece("\\", 0, 1), tag_piece("x", true, 1, 8), text_piece("", 0, 8)]
    );
}
