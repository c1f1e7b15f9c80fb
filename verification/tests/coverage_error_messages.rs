//! The failure messages of the leaves and combinators.

use lib::typed::{any, eof, literal, satisfy, take_while1, Parser};

#[test]
fn literal_error_message_format() {
    let err = literal("foo").parse("bar").unwrap_err();
    assert_eq!(err.reason, "expected \"foo\"");
    assert_eq!(err.expected, vec!["expected \"foo\""]);
    // The rest is the full unmodified input (no consumption on failure).
    assert_eq!(err.rest, "bar");
}

#[test]
fn any_on_empty_string() {
    let err = any().parse("").unwrap_err();
    assert_eq!(err.reason, "expected any token");
    assert_eq!(err.expected, vec!["expected any token"]);
}

#[test]
fn satisfy_uses_its_label_as_full_reason() {
    // The label passed to `satisfy` IS the full error reason — it does NOT get
    // wrapped in "expected …".
    let err = satisfy("a digit", |c: char| c.is_ascii_digit())
        .parse("x")
        .unwrap_err();
    assert_eq!(err.reason, "a digit");
    assert_eq!(err.expected, vec!["a digit"]);
}

#[test]
fn take_while1_on_empty_fails() {
    let err = take_while1(|c: char| c.is_alphabetic())
        .parse("")
        .unwrap_err();
    assert_eq!(err.reason, "expected at least one matching token");
    assert_eq!(err.expected, vec!["expected at least one matching token"]);
}

#[test]
fn take_while1_on_nonmatch_fails() {
    // Characters present but none satisfy the predicate → same message.
    let err = take_while1(|c: char| c.is_alphabetic())
        .parse("123")
        .unwrap_err();
    assert_eq!(err.reason, "expected at least one matching token");
}

#[test]
fn eof_when_input_remains() {
    let err = eof().parse("x").unwrap_err();
    assert_eq!(err.reason, "expected end of input");
    assert_eq!(err.expected, vec!["expected end of input"]);
}

#[test]
fn parse_requires_all_input_consumed() {
    // `parse` succeeds only when the full string is consumed; leftover text
    // triggers an "expected end of input" error carrying the remainder.
    let err = literal("foo").parse("foobar").unwrap_err();
    assert_eq!(err.reason, "expected end of input");
    assert_eq!(err.rest, "bar");

    // `parse_partial` succeeds and hands back the rest.
    assert_eq!(
        literal("foo").parse_partial("foobar").unwrap(),
        ("foo", "bar")
    );
}

#[test]
fn or_joins_two_branch_reasons() {
    let err = literal("a").or(literal("b")).parse("c").unwrap_err();
    assert_eq!(err.reason, "expected \"a\" or expected \"b\"");
    assert_eq!(err.expected, vec!["expected \"a\"", "expected \"b\""]);
}

#[test]
fn or_joins_three_branch_reasons() {
    // `a.or(b).or(c)` nests as `Or<Or<A,B>, C>`.  The inner Or produces
    // `"expected \"a\" or expected \"b\""` as its reason, which becomes the
    // first argument to the outer join.
    let err = literal("a")
        .or(literal("b"))
        .or(literal("c"))
        .parse("x")
        .unwrap_err();
    assert_eq!(
        err.reason,
        "expected \"a\" or expected \"b\" or expected \"c\""
    );
    assert_eq!(
        err.expected,
        vec!["expected \"a\"", "expected \"b\"", "expected \"c\""]
    );
}
