//! Failure values: [`ParseFailure`], [`ParseError`] and [`Needed`].
use vstd::prelude::*;

use crate::cursor::Cursor;
use crate::stream::{hex_digit, hex_digit_char, Stream};
use crate::text::push_char;

verus! {

broadcast use vstd::string::group_string_axioms;

/// How much more input a streaming parse needs to make progress.
#[derive(Clone, Copy, Debug, PartialEq, Eq)]
pub enum Needed {
    /// The parser cannot determine the exact amount needed.
    Unknown,
    /// At least this many additional base units are needed.
    Size(usize),
}

/// A failed parse: why it failed, what was expected, where it failed, and
/// what remained in the input at that point.
#[derive(Clone, Debug, PartialEq)]
pub struct ParseFailure<S: Stream> {
    /// Human-readable failure message.
    pub reason: String,
    /// Structured set of what the parser expected at [`cursor`](Self::cursor).
    pub expected: Vec<String>,
    /// The remaining input at the point of failure.
    pub rest: S::Slice,
    /// Position at the point of failure.
    pub cursor: Cursor,
}

impl<S: Stream> ParseFailure<S> {
    /// Builds a failure where the parser expected a specific token or character
    /// class. `what` becomes both the [`reason`](Self::reason) and the single
    /// entry of [`expected`](Self::expected).
    pub fn expecting(what: String, rest: S::Slice, cursor: Cursor) -> (r: Self)
        ensures
            r.reason@ == what@,
            r.expected.deep_view() == seq![what@],
            r.rest == rest,
            r.cursor == cursor,
    {
        let reason = what.clone();
        let expected = vec![what];
        proof {
            assert(expected.deep_view() =~= seq![what@]);
        }
        ParseFailure { reason, expected, rest, cursor }
    }

    /// Builds a failure that is not a simple token expectation — a negative
    /// assertion, a semantic rejection, or a structural limit. Its
    /// [`expected`](Self::expected) set is empty.
    pub fn rejected(reason: String, rest: S::Slice, cursor: Cursor) -> (r: Self)
        ensures
            r.reason@ == reason@,
            r.expected.deep_view() == Seq::<Seq<char>>::empty(),
            r.rest == rest,
            r.cursor == cursor,
    {
        let expected: Vec<String> = Vec::new();
        proof {
            assert(expected.deep_view() =~= Seq::<Seq<char>>::empty());
        }
        ParseFailure { reason, expected, rest, cursor }
    }
}

/// The error type for a streaming or complete-input parse step.
/// Complete-input parses never produce [`Incomplete`](ParseError::Incomplete).
#[derive(Clone, Debug, PartialEq)]
pub enum ParseError<S: Stream> {
    /// A hard parse failure (wrong token, failed predicate, end of complete input, …).
    Failure(ParseFailure<S>),
    /// The current buffer ended before the parser could finish. The caller
    /// should append more data and retry from a saved checkpoint.
    Incomplete(Needed),
}

impl<S: Stream> From<ParseFailure<S>> for ParseError<S> {
    fn from(f: ParseFailure<S>) -> (r: Self) {
        ParseError::Failure(f)
    }
}

impl<S: Stream> vstd::std_specs::convert::FromSpecImpl<ParseFailure<S>> for ParseError<S> {
    open spec fn obeys_from_spec() -> bool {
        true
    }

    open spec fn from_spec(f: ParseFailure<S>) -> Self {
        ParseError::Failure(f)
    }
}

/// Default cap on parser recursion depth (the number of [`crate::typed::recursive`]
/// crossings on a single parse path). Reaching it yields a [`ParseFailure`]
/// rather than overflowing the native call stack on pathologically nested input.
pub const DEFAULT_MAX_RECURSION_DEPTH: usize = 256;


// ── Text of failures ─────────────────────────────────────────────────────────
/// The decimal digits of `n`, most significant first, with no leading zero.
pub open spec fn decimal(n: nat) -> Seq<char>
    decreases n,
{
    if n < 10 {
        seq![hex_digit(n as u8)]
    } else {
        decimal(n / 10).push(hex_digit((n % 10) as u8))
    }
}

/// Appends the decimal digits of `n` to `out`.
fn push_decimal(out: &mut String, n: usize)
    ensures
        final(out)@ == old(out)@ + decimal(n as nat),
    decreases n,
{
    if n >= 10 {
        push_decimal(out, n / 10);
    }
    let d: u8 = (n % 10) as u8;
    push_char(out, hex_digit_char(d));
    proof {
        assert(out@ =~= old(out)@ + decimal(n as nat));
    }
}

/// How a failure reads as text: its reason, then the line and byte offset
/// where it happened.
pub open spec fn failure_text(reason: Seq<char>, cursor: Cursor) -> Seq<char> {
    reason + " (line "@ + decimal(cursor.line as nat) + ", byte offset "@ + decimal(
        cursor.byte_offset as nat,
    ) + ")"@
}

/// How a parse error reads as text.
pub open spec fn error_text<S: Stream>(e: ParseError<S>) -> Seq<char> {
    match e {
        ParseError::Failure(f) => failure_text(f.reason@, f.cursor),
        ParseError::Incomplete(Needed::Unknown) => "incomplete input (need more data)"@,
        ParseError::Incomplete(Needed::Size(n)) => "incomplete input (need at least "@ + decimal(
            n as nat,
        ) + " more base units)"@,
    }
}

impl<S: Stream> ParseFailure<S> {
    /// The failure as text: the reason, then `(line L, byte offset B)`.
    pub fn to_string(&self) -> (r: String)
        ensures
            r@ == failure_text(self.reason@, self.cursor),
    {
        let mut out = self.reason.clone();
        out.append(" (line ");
        push_decimal(&mut out, self.cursor.line);
        out.append(", byte offset ");
        push_decimal(&mut out, self.cursor.byte_offset);
        out.append(")");
        out
    }
}

impl<S: Stream> ParseError<S> {
    /// The error as text: a failure as [`ParseFailure::to_string`] writes it,
    /// or what an incomplete input still needs.
    pub fn to_string(&self) -> (r: String)
        ensures
            r@ == error_text(*self),
    {
        match self {
            ParseError::Failure(f) => f.to_string(),
            ParseError::Incomplete(Needed::Unknown) => "incomplete input (need more data)".to_string(),
            ParseError::Incomplete(Needed::Size(n)) => {
                let mut out = "incomplete input (need at least ".to_string();
                push_decimal(&mut out, *n);
                out.append(" more base units)");
                out
            },
        }
    }
}

} // verus!
