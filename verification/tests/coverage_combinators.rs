//! Labels over composite parsers.

use lib::typed::{literal, Parser};

#[test]
fn labelled_on_sequence_wraps_mid_failure() {
    // The label wraps the entire sequence combinator; mid-sequence failures
    // (second literal fails) are reported under the outer label.
    let err = literal("a")
        .then(literal("b"))
        .labelled("pair ab")
        .parse("ax")
        .unwrap_err();
    assert_eq!(err.reason, "pair ab");
    assert_eq!(err.expected, vec!["pair ab"]);
}

#[test]
fn labelled_success_does_not_alter_output() {
    // On success, `labelled` is transparent.
    let result = literal("ok").labelled("the word ok").parse("ok").unwrap();
    assert_eq!(result, "ok");
}

#[test]
fn labelled_on_or_chain_replaces_error() {
    // The label completely replaces the compound `or`-joined reason.
    let err = literal("a")
        .or(literal("b"))
        .labelled("a or b")
        .parse("c")
        .unwrap_err();
    assert_eq!(err.reason, "a or b");
    assert_eq!(err.expected, vec!["a or b"]);
}
