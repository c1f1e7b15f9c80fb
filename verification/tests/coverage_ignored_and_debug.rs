//! `ignored` in sequences.

use lib::typed::{digits, literal, Parser};

#[test]
fn ignored_propagates_failure() {
    // On failure the inner error reason is kept unchanged.
    let err = literal("x").ignored().parse("y").unwrap_err();
    assert_eq!(err.reason, "expected \"x\"");
}

#[test]
fn ignored_then_pair() {
    // `literal("(").ignored()` has Output=(); `.then(digits())` pairs it.
    let p = literal("(").ignored().then(digits());
    assert_eq!(p.parse("(42").unwrap(), ((), "42"));
}

#[test]
fn then_with_ignored_second() {
    // Ignore the second element of a `.then` pair.
    let p = literal("a").then(literal("b").ignored());
    assert_eq!(p.parse("ab").unwrap(), ("a", ()));
}

#[test]
fn ignored_then_ignore_then_sequence() {
    // Three-combinator chain where the middle element is discarded.
    let p = literal("a").then_ignore(literal(",")).then(literal("b"));
    assert_eq!(p.parse("a,b").unwrap(), ("a", "b"));
}

#[test]
fn ignored_returns_unit_on_success() {
    // The output of an ignored parser is `()`.
    assert_eq!(literal("x").ignored().parse("x").unwrap(), ());
}
