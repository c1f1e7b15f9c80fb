//! The library's laws, checked on concrete values.

use lib::cursor::Cursor;
use lib::np_expr::{scan_top_level, Tok};
use lib::np_lexer::raw_lex;
use lib::stream::Stream;
use lib::typed::{any, eof, literal, satisfy, take_while, take_while1, Input, Parser};

fn tok_text(t: &Tok) -> String {
    match t {
        Tok::Text(s) => s.clone(),
        Tok::Ws(c) => c.to_string(),
        Tok::Pipe => "|".to_string(),
        Tok::Comma => ",".to_string(),
        Tok::Eq => "=".to_string(),
        Tok::Colon => ":".to_string(),
        Tok::Reserved(r) => r.to_string(),
    }
}

const EXPRESSIONS: [&str; 8] = [
    "",
    "name | upcase",
    "a||b&&c & d",
    "default 'a, b' (f x=1) [k|v]:z",
    "'open quote",
    "((nested (deep)) 'q\\'' [x",
    "t key=value,other:thing\t\n",
    "héllo | wörld",
];

#[test]
fn scanning_loses_no_character() {
    for source in EXPRESSIONS {
        let joined: String = scan_top_level(source).iter().map(tok_text).collect();
        assert_eq!(joined, source);
    }
}

#[test]
fn text_runs_are_nonempty_and_never_adjacent() {
    for source in EXPRESSIONS {
        let toks = scan_top_level(source);
        for t in &toks {
            if let Tok::Text(s) = t {
                assert!(!s.is_empty());
            }
        }
        for pair in toks.windows(2) {
            assert!(!(matches!(pair[0], Tok::Text(_)) && matches!(pair[1], Tok::Text(_))));
        }
    }
}

#[test]
fn lexical_units_tile_the_template() {
    for source in ["Hi {{name}}!", "a{{!-- c --}}b{{! d }}e{{{r}}}", "é{{{{#x}}}}y{{{{/x}}}}ü", ""] {
        let units = raw_lex(source).unwrap();
        let mut prev = 0;
        for u in &units {
            assert!(u.end > prev);
            prev = u.end;
        }
        assert_eq!(prev, source.len());
    }
}

#[test]
fn cursor_column_stays_defined_while_advancing() {
    let text = "ab\ncd\n\nxyz";
    let start = Cursor::default();
    let mut last = start;
    for n in 0..=text.len() {
        let c = Stream::advance_cursor(text, start, n);
        assert!(c.line_start_offset <= c.byte_offset);
        assert!(c.line >= last.line);
        assert!(c.line_start_offset >= last.line_start_offset);
        last = c;
    }
    assert_eq!(
        last,
        Cursor { line: 4, line_start_offset: 7, byte_offset: 10 }
    );
}

#[test]
fn alternation_retries_the_second_literal_from_the_same_place() {
    let p = literal("ab").or(literal("ac"));
    assert_eq!(p.parse_partial("acx").unwrap(), ("ac", "x"));
    assert_eq!(p.parse_partial("abx").unwrap(), ("ab", "x"));
    assert!(p.parse_partial("ad").is_err());
}

#[test]
fn repeating_any_takes_the_whole_input() {
    assert_eq!(
        any().repeated().parse("héllo").unwrap(),
        vec!['h', 'é', 'l', 'l', 'o']
    );
    assert_eq!(any().repeated().parse("").unwrap(), Vec::<char>::new());
}

#[test]
fn repetition_honours_its_minimum_on_matches_that_consume_nothing() {
    let err = take_while(|c: char| c == 'a')
        .repeated_at_least(2)
        .parse_partial("b")
        .unwrap_err();
    assert_eq!(err.reason, "repeated parser matched without consuming input");
    assert!(err.expected.is_empty());
    assert_eq!(err.rest, "b");
    // Once the minimum is met, the consuming-nothing match just ends the run.
    assert_eq!(
        take_while(|c: char| c == 'a').repeated_at_least(1).parse_partial("aab").unwrap(),
        (vec!["aa"], "b")
    );
    assert_eq!(
        take_while(|c: char| c.is_ascii_digit()).repeated().parse_partial("b").unwrap(),
        (Vec::<&str>::new(), "b")
    );
}

#[test]
fn failing_leaves_and_alternations_leave_the_input_where_it_was() {
    let text = "ad\nx";
    let mut input = Input::new(text);
    assert!(literal("ab").or(literal("ac")).parse_next(&mut input).is_err());
    assert_eq!(input.rest(), text);
    assert!(literal("x").parse_next(&mut input).is_err());
    assert!(satisfy("a digit", |c: char| c.is_ascii_digit()).parse_next(&mut input).is_err());
    assert!(take_while1(|c: char| c.is_ascii_digit()).parse_next(&mut input).is_err());
    assert!(eof().parse_next(&mut input).is_err());
    assert_eq!(input.rest(), text);
    assert_eq!(input.cursor(), Cursor::default());
    let mut empty = Input::new("");
    assert!(any().parse_next(&mut empty).is_err());
    assert_eq!(empty.rest(), "");
}

#[test]
fn parse_and_parse_partial_agree_on_a_single_outcome_parser() {
    for text in ["", "a", "ab"] {
        match any().parse_partial(text) {
            Ok((c, rest)) if rest.is_empty() => assert_eq!(any().parse(text).unwrap(), c),
            Ok((_, rest)) => {
                let err = any().parse(text).unwrap_err();
                assert_eq!(err.reason, "expected end of input");
                assert_eq!(err.rest, rest);
            }
            Err(e) => assert_eq!(any().parse(text).unwrap_err(), e),
        }
    }
}
