//! Typed parser combinators: the [`Parser`] trait, its combinators and leaves.
//!
//! A [`Parser`] is generic over its `Output`, so combinators compose and
//! type-check at compile time: [`literal`] yields `&str`, [`Parser::then`]
//! yields a tuple, [`Parser::repeated`] yields a `Vec`, and [`Parser::map`]
//! threads any output type through.
//!
//! Each parser carries a specification: [`Parser::accepts`] relates the input
//! state before a successful step, its output and the state after it, and
//! [`Parser::rejects`] relates the state before a failed step to the failure
//! it reports. Every `parse_next` only moves the input forward
//! ([`advances`]) and is proved against these two relations.
use std::marker::PhantomData;
use std::rc::Rc;
use vstd::prelude::*;
use vstd::string::*;
use vstd::utf8::*;

use crate::cursor::{
    advance, cursor_advanced, lemma_cursor_advanced_concat, lemma_newline_count_bound,
    start_cursor, Cursor,
};
use crate::failure::{ParseFailure, DEFAULT_MAX_RECURSION_DEPTH};
use crate::text::{
    char_utf8_width, debug_quoted, debug_str, has_prefix, lemma_encode_concat,
    lemma_utf8_len_bounds, lemma_utf8_len_split, lemma_utf8_len_take_mono, split_at_char,
    split_first, str_byte_len, str_has_prefix, utf8_len,
};

verus! {

broadcast use vstd::string::group_string_axioms;

/// The result of a typed parse step.
pub type PResult<'i, O> = Result<O, ParseFailure<&'i str>>;

// ── Abstract states ──────────────────────────────────────────────────────────
/// What a parse step sees of its [`Input`]: the unconsumed characters, the
/// position, and the remaining recursion budget.
pub struct InputView {
    /// The characters still to be consumed.
    pub rest: Seq<char>,
    /// The position of the first of them.
    pub cursor: Cursor,
    /// How many more [`recursive`] crossings this parse path may make.
    pub budget: usize,
}

/// What a [`ParseFailure`] on text says, with its strings as characters.
pub struct FailureView {
    /// The failure message.
    pub reason: Seq<char>,
    /// The expectations, in order.
    pub expected: Seq<Seq<char>>,
    /// The input that remained where the parse failed.
    pub rest: Seq<char>,
    /// The position where the parse failed.
    pub cursor: Cursor,
}

/// The abstract content of a failure on text.
pub open spec fn failure_view(f: ParseFailure<&str>) -> FailureView {
    FailureView {
        reason: f.reason@,
        expected: f.expected.deep_view(),
        rest: f.rest@,
        cursor: f.cursor,
    }
}

/// A failure that expected `what` at `at`: `what` is both the reason and the
/// single expectation.
pub open spec fn expecting_at(what: Seq<char>, at: InputView) -> FailureView {
    FailureView { reason: what, expected: seq![what], rest: at.rest, cursor: at.cursor }
}

/// A failure rejected for `why` at `at`, with no expectation.
pub open spec fn rejected_at(why: Seq<char>, at: InputView) -> FailureView {
    FailureView { reason: why, expected: Seq::empty(), rest: at.rest, cursor: at.cursor }
}

/// The state in which a parse of `text` starts.
pub open spec fn start_view(text: Seq<char>) -> InputView {
    InputView { rest: text, cursor: start_cursor(), budget: DEFAULT_MAX_RECURSION_DEPTH }
}

/// A state whose positions cannot overflow while its input is consumed.
pub open spec fn valid_input(v: InputView) -> bool {
    &&& v.cursor.byte_offset + utf8_len(v.rest) <= usize::MAX
    &&& v.cursor.line + utf8_len(v.rest) <= usize::MAX
}

/// The number of characters consumed going from `pre` to `post`.
pub open spec fn consumed_len(pre: InputView, post: InputView) -> int {
    pre.rest.len() - post.rest.len()
}

/// `post` is `pre` moved forward over a prefix of its input: the rest is a
/// suffix, the cursor has moved over the bytes of the consumed prefix, and
/// the recursion budget is unchanged.
pub open spec fn advances(pre: InputView, post: InputView) -> bool {
    &&& post.rest.len() <= pre.rest.len()
    &&& post.rest == pre.rest.skip(consumed_len(pre, post))
    &&& cursor_advanced(
        pre.cursor,
        encode_utf8(pre.rest.take(consumed_len(pre, post))),
        post.cursor,
    )
    &&& post.budget == pre.budget
}

/// `post` is `pre` moved forward over exactly `k` characters.
pub open spec fn consumes(pre: InputView, post: InputView, k: int) -> bool {
    advances(pre, post) && consumed_len(pre, post) == k
}

/// `pre` with its recursion budget replaced by `budget`.
pub open spec fn with_budget(pre: InputView, budget: usize) -> InputView {
    InputView { rest: pre.rest, cursor: pre.cursor, budget }
}

/// Staying in place is moving forward over nothing.
pub proof fn lemma_advances_refl(v: InputView)
    ensures
        advances(v, v),
{
    assert(v.rest.skip(0) =~= v.rest);
    assert(v.rest.take(0) =~= Seq::<char>::empty());
    assert(encode_utf8(Seq::<char>::empty()) =~= Seq::<u8>::empty());
}

/// Moving forward twice is moving forward once.
pub proof fn lemma_advances_trans(a: InputView, b: InputView, c: InputView)
    requires
        advances(a, b),
        advances(b, c),
    ensures
        advances(a, c),
{
    let d1 = consumed_len(a, b);
    let d2 = consumed_len(b, c);
    assert(c.rest =~= a.rest.skip(d1 + d2));
    assert(a.rest.take(d1 + d2) =~= a.rest.take(d1) + b.rest.take(d2));
    lemma_encode_concat(a.rest.take(d1), b.rest.take(d2));
    lemma_cursor_advanced_concat(
        a.cursor,
        encode_utf8(a.rest.take(d1)),
        b.cursor,
        encode_utf8(b.rest.take(d2)),
        c.cursor,
    );
}

/// Consuming input shrinks its byte length; consuming none keeps it.
pub proof fn lemma_advances_bytes(pre: InputView, post: InputView)
    requires
        advances(pre, post),
    ensures
        utf8_len(post.rest) + consumed_len(pre, post) <= utf8_len(pre.rest),
        (utf8_len(post.rest) == utf8_len(pre.rest)) == (post.rest.len() == pre.rest.len()),
{
    let k = consumed_len(pre, post);
    lemma_utf8_len_split(pre.rest, k);
    lemma_utf8_len_bounds(pre.rest.take(k));
}

// ── Input ────────────────────────────────────────────────────────────────────
/// Parser input: the unconsumed text and the current position. It is `Copy`,
/// so a combinator snapshots it before a fallible attempt and restores it on
/// failure — the backtracking primitive the alternation/repetition
/// combinators rely on.
///
/// It also carries the recursion budget of the parse path it is on: the
/// number of further [`recursive`] crossings allowed before the parse fails
/// with "maximum recursion depth exceeded".
#[derive(Clone, Copy, Debug)]
pub struct Input<'i> {
    rest: &'i str,
    cursor: Cursor,
    budget: usize,
}

impl<'i> View for Input<'i> {
    type V = InputView;

    closed spec fn view(&self) -> InputView {
        InputView { rest: self.rest@, cursor: self.cursor, budget: self.budget }
    }
}

impl<'i> Input<'i> {
    #[verifier::type_invariant]
    spec fn inv(&self) -> bool {
        valid_input(self@)
    }

    /// Wraps `text`, positioned at its start, with the default recursion budget.
    pub fn new(text: &'i str) -> (r: Self)
        requires
            utf8_len(text@) < usize::MAX,
        ensures
            r@ == start_view(text@),
    {
        Input { rest: text, cursor: Cursor::default(), budget: DEFAULT_MAX_RECURSION_DEPTH }
    }

    /// The still-unconsumed input.
    pub fn rest(&self) -> (r: &'i str)
        ensures
            r@ == self@.rest,
    {
        self.rest
    }

    /// The current position.
    pub fn cursor(&self) -> (r: Cursor)
        ensures
            r == self@.cursor,
    {
        self.cursor
    }

    /// Advances past `consumed`, which must be the current prefix of
    /// [`rest`](Self::rest).
    fn bump(&mut self, consumed: &'i str)
        requires
            has_prefix(old(self)@.rest, consumed@),
        ensures
            consumes(old(self)@, final(self)@, consumed@.len() as int),
    {
        proof {
            use_type_invariant(&*self);
        }
        let ghost k = consumed@.len() as int;
        let ghost old_rest = self.rest@;
        let n = str_byte_len(consumed);
        let bytes = consumed.as_bytes();
        proof {
            lemma_utf8_len_split(old_rest, k);
            lemma_newline_count_bound(bytes@);
        }
        let cursor = advance(self.cursor, bytes);
        let (_, rest) = split_at_char(self.rest, n, Ghost(k));
        let budget = self.budget;
        *self = Input { rest, cursor, budget };
    }

    /// Replaces the recursion budget.
    fn set_budget(&mut self, budget: usize)
        ensures
            final(self)@ == with_budget(old(self)@, budget),
    {
        proof {
            use_type_invariant(&*self);
        }
        let rest = self.rest;
        let cursor = self.cursor;
        *self = Input { rest, cursor, budget };
    }

    /// The remaining recursion budget.
    fn budget(&self) -> (r: usize)
        ensures
            r == self@.budget,
    {
        self.budget
    }
}

// ── Whole-text outcomes ──────────────────────────────────────────────────────
/// What [`Parser::parse`] may return for `text` (its `ensures`, stated of `p`): an output that `p` accepts
/// from the start while consuming all of `text`; `p`'s own failure; or, when
/// `p` stops early, "expected end of input" where it stopped.
pub open spec fn parse_outcome<'i, P: Parser<'i>>(
    p: P,
    text: Seq<char>,
    r: PResult<'i, P::Output>,
) -> bool {
    match r {
        Ok(o) => exists|post: InputView|
            #[trigger] p.accepts(start_view(text), o, post) && post.rest.len() == 0 && advances(
                start_view(text),
                post,
            ),
        Err(e) => p.rejects(start_view(text), failure_view(e)) || exists|
            o: P::Output,
            post: InputView,
        |
            #[trigger] p.accepts(start_view(text), o, post) && post.rest.len() > 0 && advances(
                start_view(text),
                post,
            ) && failure_view(e) == expecting_at("expected end of input"@, post),
    }
}

/// What [`Parser::parse_partial`] may return for `text` (its `ensures`,
/// stated of `p`): an output that `p`
/// accepts from the start together with the text that remains, a suffix of
/// `text`; or `p`'s own failure.
pub open spec fn partial_outcome<'i, P: Parser<'i>>(
    p: P,
    text: Seq<char>,
    r: Result<(P::Output, &'i str), ParseFailure<&'i str>>,
) -> bool {
    match r {
        Ok(found) => exists|post: InputView|
            #[trigger] p.accepts(start_view(text), found.0, post) && post.rest == found.1@
                && advances(start_view(text), post),
        Err(e) => p.rejects(start_view(text), failure_view(e)),
    }
}

/// `p`'s step from `pre` has a single outcome: at most one success, at most
/// one failure, and never both.
pub open spec fn deterministic_at<'i, P: Parser<'i>>(p: P, pre: InputView) -> bool {
    &&& forall|o1: P::Output, q1: InputView, o2: P::Output, q2: InputView|
        #[trigger] p.accepts(pre, o1, q1) && #[trigger] p.accepts(pre, o2, q2) ==> o1 == o2 && q1
            == q2
    &&& forall|e1: FailureView, e2: FailureView|
        #[trigger] p.rejects(pre, e1) && #[trigger] p.rejects(pre, e2) ==> e1 == e2
    &&& forall|o: P::Output, q: InputView, e: FailureView|
        #[trigger] p.accepts(pre, o, q) && #[trigger] p.rejects(pre, e) ==> false
}

// ── The Parser trait ─────────────────────────────────────────────────────────
/// A parser producing a typed `Output` from [`Input`].
///
/// Implement [`parse_next`](Parser::parse_next) (advance the input, or return
/// a [`ParseFailure`] leaving it for the caller to restore); the composition
/// methods are provided.
pub trait Parser<'i>: Sized {
    /// The value this parser produces on success.
    type Output;

    /// The conditions under which [`parse_next`](Parser::parse_next) may be
    /// called: the closures inside accept every argument.
    spec fn wf(&self) -> bool;

    /// A step from `pre` may succeed with `out`, leaving `post`.
    spec fn accepts(&self, pre: InputView, out: Self::Output, post: InputView) -> bool;

    /// A step from `pre` may fail with `err`.
    spec fn rejects(&self, pre: InputView, err: FailureView) -> bool;

    /// Parses from the front of `input`, advancing it past what was consumed.
    /// On failure the input is left as the implementation chose to leave it,
    /// but never behind where it started; backtracking combinators snapshot
    /// and restore it themselves.
    fn parse_next(&self, input: &mut Input<'i>) -> (r: PResult<'i, Self::Output>)
        requires
            self.wf(),
        ensures
            advances(old(input)@, final(input)@),
            match r {
                Ok(o) => self.accepts(old(input)@, o, final(input)@),
                Err(e) => self.rejects(old(input)@, failure_view(e)),
            },
    ;

    /// Runs the parser over the whole `text`, requiring all input to be consumed.
    fn parse(&self, text: &'i str) -> (r: PResult<'i, Self::Output>)
        requires
            self.wf(),
            utf8_len(text@) < usize::MAX,
        ensures
            match r {
                Ok(o) => exists|post: InputView|
                    #[trigger] self.accepts(start_view(text@), o, post) && post.rest.len() == 0
                        && advances(start_view(text@), post),
                Err(e) => self.rejects(start_view(text@), failure_view(e)) || exists|
                    o: Self::Output,
                    post: InputView,
                |
                    #[trigger] self.accepts(start_view(text@), o, post) && post.rest.len() > 0
                        && advances(start_view(text@), post) && failure_view(e) == expecting_at(
                        "expected end of input"@,
                        post,
                    ),
            },
    {
        let mut input = Input::new(text);
        let ghost pre = input@;
        let result = self.parse_next(&mut input);
        match result {
            Err(e) => Err(e),
            Ok(output) => {
                let rest = input.rest();
                if rest.is_empty() {
                    Ok(output)
                } else {
                    proof {
                        assert(self.accepts(pre, output, input@));
                    }
                    Err(
                        ParseFailure::expecting(
                            "expected end of input".to_owned(),
                            rest,
                            input.cursor(),
                        ),
                    )
                }
            },
        }
    }

    /// Runs the parser, returning the output and the unconsumed remainder
    /// rather than requiring all input to be consumed.
    fn parse_partial(&self, text: &'i str) -> (r: Result<
        (Self::Output, &'i str),
        ParseFailure<&'i str>,
    >)
        requires
            self.wf(),
            utf8_len(text@) < usize::MAX,
        ensures
            match r {
                Ok(found) => exists|post: InputView|
                    #[trigger] self.accepts(start_view(text@), found.0, post) && post.rest
                        == found.1@ && advances(start_view(text@), post),
                Err(e) => self.rejects(start_view(text@), failure_view(e)),
            },
    {
        let mut input = Input::new(text);
        let ghost pre = input@;
        let result = self.parse_next(&mut input);
        match result {
            Err(e) => Err(e),
            Ok(output) => {
                let rest = input.rest();
                let ghost post = input@;
                proof {
                    assert(self.accepts(pre, output, post) && post.rest == rest@);
                }
                let r: Result<(Self::Output, &'i str), ParseFailure<&'i str>> = Ok((output, rest));
                assert(r matches Ok(found) ==> self.accepts(start_view(text@), found.0, post)
                    && post.rest == found.1@ && advances(start_view(text@), post));
                r
            },
        }
    }

    /// Transforms the output with `f`.
    fn map<U, F>(self, f: F) -> (r: Mapped<Self, F>) where F: Fn(Self::Output) -> U
        ensures
            r.inner == self,
            r.f == f,
    {
        Mapped { inner: self, f }
    }

    /// Discards the output (keeps only the fact that it matched).
    fn ignored(self) -> (r: Ignored<Self>)
        ensures
            r.inner == self,
    {
        Ignored { inner: self }
    }

    /// Sequences `self` then `next`, yielding both outputs as a tuple.
    fn then<P>(self, next: P) -> (r: Then<Self, P>)
        ensures
            r.first == self,
            r.second == next,
    {
        Then { first: self, second: next }
    }

    /// Sequences `self` then `next`, keeping only `next`'s output.
    fn ignore_then<P>(self, next: P) -> (r: IgnoreThen<Self, P>)
        ensures
            r.first == self,
            r.second == next,
    {
        IgnoreThen { first: self, second: next }
    }

    /// Sequences `self` then `next`, keeping only `self`'s output.
    fn then_ignore<P>(self, next: P) -> (r: ThenIgnore<Self, P>)
        ensures
            r.first == self,
            r.second == next,
    {
        ThenIgnore { first: self, second: next }
    }

    /// Tries `self`; if it fails, tries `alt` from the same place. Both
    /// branches produce the same output type.
    fn or<P>(self, alt: P) -> (r: Or<Self, P>)
        ensures
            r.a == self,
            r.b == alt,
    {
        Or { a: self, b: alt }
    }

    /// Makes `self` optional, yielding `None` (and consuming nothing) on failure.
    fn optional(self) -> (r: Opt<Self>)
        ensures
            r.inner == self,
    {
        Opt { inner: self }
    }

    /// Repeats `self` zero or more times, collecting the outputs.
    fn repeated(self) -> (r: Repeated<Self>)
        ensures
            r.inner == self,
            r.min == 0,
    {
        Repeated { inner: self, min: 0 }
    }

    /// Repeats `self` at least `min` times, collecting the outputs.
    fn repeated_at_least(self, min: usize) -> (r: Repeated<Self>)
        ensures
            r.inner == self,
            r.min == min,
    {
        Repeated { inner: self, min }
    }

    /// Overrides the failure message (and the structured expectation) with `label`.
    fn labelled(self, label: &'static str) -> (r: Labelled<Self>)
        ensures
            r.inner == self,
            r.label == label,
    {
        Labelled { inner: self, label }
    }
}

// ── Combinators ──────────────────────────────────────────────────────────────
/// [`Parser::map`].
pub struct Mapped<P, F> {
    /// The parser whose output is transformed.
    pub inner: P,
    /// The transformation.
    pub f: F,
}

impl<'i, P, F, U> Parser<'i> for Mapped<P, F> where P: Parser<'i>, F: Fn(P::Output) -> U {
    type Output = U;

    open spec fn wf(&self) -> bool {
        &&& self.inner.wf()
        &&& forall|o: P::Output| call_requires(self.f, (o,))
    }

    open spec fn accepts(&self, pre: InputView, out: U, post: InputView) -> bool {
        exists|o: P::Output|
            #[trigger] self.inner.accepts(pre, o, post) && call_ensures(self.f, (o,), out)
    }

    open spec fn rejects(&self, pre: InputView, err: FailureView) -> bool {
        self.inner.rejects(pre, err)
    }

    fn parse_next(&self, input: &mut Input<'i>) -> (r: PResult<'i, U>) {
        let ghost pre = input@;
        let out = match self.inner.parse_next(input) {
            Ok(o) => o,
            Err(e) => return Err(e),
        };
        let u = (self.f)(out);
        proof {
            assert(self.inner.accepts(pre, out, input@));
        }
        Ok(u)
    }
}

/// [`Parser::ignored`].
pub struct Ignored<P> {
    /// The parser whose output is discarded.
    pub inner: P,
}

impl<'i, P: Parser<'i>> Parser<'i> for Ignored<P> {
    type Output = ();

    open spec fn wf(&self) -> bool {
        self.inner.wf()
    }

    open spec fn accepts(&self, pre: InputView, out: (), post: InputView) -> bool {
        exists|o: P::Output| #[trigger] self.inner.accepts(pre, o, post)
    }

    open spec fn rejects(&self, pre: InputView, err: FailureView) -> bool {
        self.inner.rejects(pre, err)
    }

    fn parse_next(&self, input: &mut Input<'i>) -> (r: PResult<'i, ()>) {
        let ghost pre = input@;
        match self.inner.parse_next(input) {
            Ok(o) => {
                proof {
                    assert(self.inner.accepts(pre, o, input@));
                }
                Ok(())
            },
            Err(e) => Err(e),
        }
    }
}

/// [`Parser::then`].
pub struct Then<A, B> {
    /// The parser that runs first.
    pub first: A,
    /// The parser that runs where the first stopped.
    pub second: B,
}

/// `first` then `second` succeed from `pre` with `a` and `b`, ending at `post`.
pub open spec fn seq_accepts<'i, A: Parser<'i>, B: Parser<'i>>(
    first: A,
    second: B,
    pre: InputView,
    a: A::Output,
    b: B::Output,
    post: InputView,
) -> bool {
    exists|mid: InputView|
        #[trigger] first.accepts(pre, a, mid) && #[trigger] second.accepts(mid, b, post)
}

/// `first` then `second` fail from `pre` with `err`: the first fails, or it
/// succeeds and the second fails where it stopped.
pub open spec fn seq_rejects<'i, A: Parser<'i>, B: Parser<'i>>(
    first: A,
    second: B,
    pre: InputView,
    err: FailureView,
) -> bool {
    ||| first.rejects(pre, err)
    ||| exists|a: A::Output, mid: InputView|
        #[trigger] first.accepts(pre, a, mid) && #[trigger] second.rejects(mid, err)
}

impl<'i, A: Parser<'i>, B: Parser<'i>> Parser<'i> for Then<A, B> {
    type Output = (A::Output, B::Output);

    open spec fn wf(&self) -> bool {
        self.first.wf() && self.second.wf()
    }

    open spec fn accepts(
        &self,
        pre: InputView,
        out: (A::Output, B::Output),
        post: InputView,
    ) -> bool {
        seq_accepts(self.first, self.second, pre, out.0, out.1, post)
    }

    open spec fn rejects(&self, pre: InputView, err: FailureView) -> bool {
        seq_rejects(self.first, self.second, pre, err)
    }

    fn parse_next(&self, input: &mut Input<'i>) -> (r: PResult<'i, (A::Output, B::Output)>) {
        let ghost pre = input@;
        let a = match self.first.parse_next(input) {
            Ok(a) => a,
            Err(e) => return Err(e),
        };
        let ghost mid = input@;
        let rb = self.second.parse_next(input);
        proof {
            lemma_advances_trans(pre, mid, input@);
        }
        match rb {
            Ok(b) => {
                proof {
                    assert(self.first.accepts(pre, a, mid) && self.second.accepts(mid, b, input@));
                }
                Ok((a, b))
            },
            Err(e) => {
                proof {
                    assert(self.first.accepts(pre, a, mid) && self.second.rejects(
                        mid,
                        failure_view(e),
                    ));
                }
                Err(e)
            },
        }
    }
}

/// [`Parser::ignore_then`].
pub struct IgnoreThen<A, B> {
    /// The parser that runs first; its output is discarded.
    pub first: A,
    /// The parser that runs where the first stopped.
    pub second: B,
}

impl<'i, A: Parser<'i>, B: Parser<'i>> Parser<'i> for IgnoreThen<A, B> {
    type Output = B::Output;

    open spec fn wf(&self) -> bool {
        self.first.wf() && self.second.wf()
    }

    open spec fn accepts(&self, pre: InputView, out: B::Output, post: InputView) -> bool {
        exists|a: A::Output| #[trigger] seq_accepts(self.first, self.second, pre, a, out, post)
    }

    open spec fn rejects(&self, pre: InputView, err: FailureView) -> bool {
        seq_rejects(self.first, self.second, pre, err)
    }

    fn parse_next(&self, input: &mut Input<'i>) -> (r: PResult<'i, B::Output>) {
        let ghost pre = input@;
        let a = match self.first.parse_next(input) {
            Ok(a) => a,
            Err(e) => return Err(e),
        };
        let ghost mid = input@;
        let rb = self.second.parse_next(input);
        proof {
            lemma_advances_trans(pre, mid, input@);
        }
        match rb {
            Ok(b) => {
                proof {
                    assert(self.first.accepts(pre, a, mid) && self.second.accepts(mid, b, input@));
                    assert(seq_accepts(self.first, self.second, pre, a, b, input@));
                }
                Ok(b)
            },
            Err(e) => {
                proof {
                    assert(self.first.accepts(pre, a, mid) && self.second.rejects(
                        mid,
                        failure_view(e),
                    ));
                }
                Err(e)
            },
        }
    }
}

/// [`Parser::then_ignore`].
pub struct ThenIgnore<A, B> {
    /// The parser that runs first.
    pub first: A,
    /// The parser that runs where the first stopped; its output is discarded.
    pub second: B,
}

impl<'i, A: Parser<'i>, B: Parser<'i>> Parser<'i> for ThenIgnore<A, B> {
    type Output = A::Output;

    open spec fn wf(&self) -> bool {
        self.first.wf() && self.second.wf()
    }

    open spec fn accepts(&self, pre: InputView, out: A::Output, post: InputView) -> bool {
        exists|b: B::Output| #[trigger] seq_accepts(self.first, self.second, pre, out, b, post)
    }

    open spec fn rejects(&self, pre: InputView, err: FailureView) -> bool {
        seq_rejects(self.first, self.second, pre, err)
    }

    fn parse_next(&self, input: &mut Input<'i>) -> (r: PResult<'i, A::Output>) {
        let ghost pre = input@;
        let a = match self.first.parse_next(input) {
            Ok(a) => a,
            Err(e) => return Err(e),
        };
        let ghost mid = input@;
        let rb = self.second.parse_next(input);
        proof {
            lemma_advances_trans(pre, mid, input@);
        }
        match rb {
            Ok(b) => {
                proof {
                    assert(self.first.accepts(pre, a, mid) && self.second.accepts(mid, b, input@));
                    assert(seq_accepts(self.first, self.second, pre, a, b, input@));
                }
                Ok(a)
            },
            Err(e) => {
                proof {
                    assert(self.first.accepts(pre, a, mid) && self.second.rejects(
                        mid,
                        failure_view(e),
                    ));
                }
                Err(e)
            },
        }
    }
}

/// Witness that a type is `T` itself: implemented only by `T`. It lets
/// [`Or`] state that both branches produce the same output type.
pub trait SameAs<T> {
    /// `self`, seen as a `T`.
    spec fn same(self) -> T;

    /// `self`, as a `T`.
    fn cast(self) -> (r: T)
        ensures
            r == self.same(),
    ;
}

impl<T> SameAs<T> for T {
    open spec fn same(self) -> T {
        self
    }

    fn cast(self) -> (r: T) {
        self
    }
}

/// [`Parser::or`].
pub struct Or<A, B> {
    /// The branch tried first.
    pub a: A,
    /// The branch tried, from the same place, when the first fails.
    pub b: B,
}

/// The failure of an alternation whose branches failed with `first` and
/// `second`, reported at `at`: the reasons joined with `" or "`, the
/// expectations of both, in order.
pub open spec fn or_failure(first: FailureView, second: FailureView, at: InputView) -> FailureView {
    FailureView {
        reason: first.reason + " or "@ + second.reason,
        expected: first.expected + second.expected,
        rest: at.rest,
        cursor: at.cursor,
    }
}

impl<'i, A: Parser<'i>, B: Parser<'i>> Parser<'i> for Or<A, B> where B::Output: SameAs<A::Output> {
    type Output = A::Output;

    open spec fn wf(&self) -> bool {
        self.a.wf() && self.b.wf()
    }

    open spec fn accepts(&self, pre: InputView, out: A::Output, post: InputView) -> bool {
        ||| self.a.accepts(pre, out, post)
        ||| (exists|e1: FailureView| #[trigger] self.a.rejects(pre, e1)) && exists|
            ob: B::Output,
        | #[trigger] self.b.accepts(pre, ob, post) && ob.same() == out
    }

    open spec fn rejects(&self, pre: InputView, err: FailureView) -> bool {
        exists|e1: FailureView, e2: FailureView|
            #[trigger] self.a.rejects(pre, e1) && #[trigger] self.b.rejects(pre, e2) && err
                == or_failure(e1, e2, pre)
    }

    fn parse_next(&self, input: &mut Input<'i>) -> (r: PResult<'i, A::Output>)
        ensures
            r is Err ==> final(input)@ == old(input)@,
    {
        let start = *input;
        let ghost pre = input@;
        match self.a.parse_next(input) {
            Ok(o) => Ok(o),
            Err(first) => {
                *input = start;
                proof {
                    assert(self.a.rejects(pre, failure_view(first)));
                }
                match self.b.parse_next(input) {
                    Ok(o) => {
                        let ghost post = input@;
                        let out = o.cast();
                        proof {
                            assert(self.b.accepts(pre, o, post));
                        }
                        Ok(out)
                    },
                    Err(second) => {
                        *input = start;
                        proof {
                            lemma_advances_refl(pre);
                            assert(self.b.rejects(pre, failure_view(second)));
                        }
                        let ghost e1 = failure_view(first);
                        let ghost e2 = failure_view(second);
                        let mut expected = first.expected;
                        let mut second_expected = second.expected;
                        let ghost ex1 = expected@;
                        let ghost ex2 = second_expected@;
                        expected.append(&mut second_expected);
                        proof {
                            assert(expected@ =~= ex1 + ex2);
                            assert(expected.deep_view() =~= e1.expected + e2.expected);
                        }
                        let mut reason = first.reason;
                        reason.append(" or ");
                        reason.append(second.reason.as_str());
                        let failure = ParseFailure {
                            reason,
                            expected,
                            rest: start.rest(),
                            cursor: start.cursor(),
                        };
                        proof {
                            assert(failure_view(failure) == or_failure(e1, e2, pre));
                        }
                        Err(failure)
                    },
                }
            },
        }
    }
}

/// [`Parser::optional`].
pub struct Opt<P> {
    /// The parser made optional.
    pub inner: P,
}

impl<'i, P: Parser<'i>> Parser<'i> for Opt<P> {
    type Output = Option<P::Output>;

    open spec fn wf(&self) -> bool {
        self.inner.wf()
    }

    open spec fn accepts(&self, pre: InputView, out: Option<P::Output>, post: InputView) -> bool {
        match out {
            Some(o) => self.inner.accepts(pre, o, post),
            None => post == pre && exists|e: FailureView| #[trigger] self.inner.rejects(pre, e),
        }
    }

    open spec fn rejects(&self, pre: InputView, err: FailureView) -> bool {
        false
    }

    fn parse_next(&self, input: &mut Input<'i>) -> (r: PResult<'i, Option<P::Output>>) {
        let start = *input;
        let ghost pre = input@;
        match self.inner.parse_next(input) {
            Ok(out) => Ok(Some(out)),
            Err(e) => {
                *input = start;
                proof {
                    lemma_advances_refl(pre);
                    assert(self.inner.rejects(pre, failure_view(e)));
                }
                Ok(None)
            },
        }
    }
}

/// [`Parser::repeated`] / [`Parser::repeated_at_least`].
pub struct Repeated<P> {
    /// The parser repeated.
    pub inner: P,
    /// The fewest matches for the repetition to succeed.
    pub min: usize,
}

/// Step `i` of a repetition: `p` matches `items[i]` from `states[i]`, ends
/// at `states[i + 1]`, and consumes input doing so.
pub open spec fn repeat_step<'i, P: Parser<'i>>(
    p: P,
    items: Seq<P::Output>,
    states: Seq<InputView>,
    i: int,
) -> bool {
    p.accepts(states[i], items[i], states[i + 1]) && states[i + 1].rest.len() < states[i].rest.len()
}

/// `p` matches `items` one after the other, going through `states`.
pub open spec fn repeat_chain<'i, P: Parser<'i>>(
    p: P,
    items: Seq<P::Output>,
    states: Seq<InputView>,
) -> bool {
    &&& states.len() == items.len() + 1
    &&& forall|i: int| 0 <= i < items.len() ==> #[trigger] repeat_step(p, items, states, i)
}

/// `p` matches `items` one after the other from `pre`, each match consuming
/// input, and ends at `post`.
pub open spec fn repeat_run<'i, P: Parser<'i>>(
    p: P,
    pre: InputView,
    items: Seq<P::Output>,
    post: InputView,
) -> bool {
    exists|states: Seq<InputView>|
        #[trigger] repeat_chain(p, items, states) && states[0] == pre && states.last() == post
}

/// The next attempt of `p` at `at` matches without consuming input.
pub open spec fn stalls<'i, P: Parser<'i>>(p: P, at: InputView) -> bool {
    exists|o: P::Output, q: InputView|
        #[trigger] p.accepts(at, o, q) && q.rest.len() == at.rest.len()
}

/// The message of a repetition whose parser matched without consuming input
/// before the minimum was reached.
pub open spec fn stall_message() -> Seq<char> {
    "repeated parser matched without consuming input"@
}

/// The repetition of `p` stops at `at` after `count` matches and succeeds:
/// the minimum is met, and the next attempt fails or matches without
/// consuming input (that match is dropped).
pub open spec fn repeat_stops<'i, P: Parser<'i>>(p: P, at: InputView, count: nat, min: nat) -> bool {
    &&& count >= min
    &&& (exists|e: FailureView| #[trigger] p.rejects(at, e)) || stalls(p, at)
}

impl<'i, P: Parser<'i>> Parser<'i> for Repeated<P> {
    type Output = Vec<P::Output>;

    open spec fn wf(&self) -> bool {
        self.inner.wf()
    }

    open spec fn accepts(&self, pre: InputView, out: Vec<P::Output>, post: InputView) -> bool {
        repeat_run(self.inner, pre, out@, post) && repeat_stops(
            self.inner,
            post,
            out@.len(),
            self.min as nat,
        )
    }

    open spec fn rejects(&self, pre: InputView, err: FailureView) -> bool {
        exists|items: Seq<P::Output>, end: InputView|
            #[trigger] repeat_run(self.inner, pre, items, end) && items.len() < self.min && (
            self.inner.rejects(end, err) || (stalls(self.inner, end) && err == rejected_at(
                stall_message(),
                end,
            )))
    }

    fn parse_next(&self, input: &mut Input<'i>) -> (r: PResult<'i, Vec<P::Output>>) {
        let ghost pre = input@;
        let mut out: Vec<P::Output> = Vec::new();
        let ghost mut states: Seq<InputView> = seq![pre];
        proof {
            lemma_advances_refl(pre);
            assert(repeat_chain(self.inner, out@, states));
        }
        loop
            invariant
                self.wf(),
                pre == old(input)@,
                repeat_chain(self.inner, out@, states),
                states[0] == pre,
                states.last() == input@,
                advances(pre, input@),
            decreases input@.rest.len(),
        {
            let start = *input;
            let ghost at = input@;
            match self.inner.parse_next(input) {
                Ok(item) => {
                    let ghost after = input@;
                    proof {
                        lemma_advances_bytes(at, after);
                        use_type_invariant(&*input);
                        use_type_invariant(&start);
                    }
                    if str_byte_len(input.rest()) == str_byte_len(start.rest()) {
                        *input = start;
                        proof {
                            assert(self.inner.accepts(at, item, after) && after.rest.len()
                                == at.rest.len());
                            assert(stalls(self.inner, at));
                            assert(repeat_chain(self.inner, out@, states));
                            assert(repeat_run(self.inner, pre, out@, at));
                        }
                        if out.len() < self.min {
                            return Err(
                                ParseFailure::rejected(
                                    "repeated parser matched without consuming input".to_owned(),
                                    start.rest(),
                                    start.cursor(),
                                ),
                            );
                        }
                        return Ok(out);
                    }
                    let ghost before = out@;
                    out.push(item);
                    proof {
                        let old_states = states;
                        states = states.push(after);
                        assert(after.rest.len() < at.rest.len());
                        assert forall|i: int| 0 <= i < out@.len() implies #[trigger] repeat_step(
                            self.inner,
                            out@,
                            states,
                            i,
                        ) by {
                            if i < before.len() {
                                assert(repeat_step(self.inner, before, old_states, i));
                            }
                        }
                        lemma_advances_trans(pre, at, after);
                    }
                },
                Err(err) => {
                    *input = start;
                    proof {
                        assert(self.inner.rejects(at, failure_view(err)));
                        assert(repeat_chain(self.inner, out@, states));
                        assert(repeat_run(self.inner, pre, out@, at));
                    }
                    if out.len() < self.min {
                        return Err(err);
                    }
                    return Ok(out);
                },
            }
        }
    }
}

/// [`Parser::labelled`].
pub struct Labelled<P> {
    /// The parser whose failures are relabelled.
    pub inner: P,
    /// The message that replaces theirs.
    pub label: &'static str,
}

impl<'i, P: Parser<'i>> Parser<'i> for Labelled<P> {
    type Output = P::Output;

    open spec fn wf(&self) -> bool {
        self.inner.wf()
    }

    open spec fn accepts(&self, pre: InputView, out: P::Output, post: InputView) -> bool {
        self.inner.accepts(pre, out, post)
    }

    open spec fn rejects(&self, pre: InputView, err: FailureView) -> bool {
        exists|e0: FailureView|
            #[trigger] self.inner.rejects(pre, e0) && err == FailureView {
                reason: self.label@,
                expected: seq![self.label@],
                rest: e0.rest,
                cursor: e0.cursor,
            }
    }

    fn parse_next(&self, input: &mut Input<'i>) -> (r: PResult<'i, P::Output>) {
        let ghost pre = input@;
        match self.inner.parse_next(input) {
            Ok(o) => Ok(o),
            Err(err) => {
                proof {
                    assert(self.inner.rejects(pre, failure_view(err)));
                }
                Err(ParseFailure::expecting(self.label.to_owned(), err.rest, err.cursor))
            },
        }
    }
}

// ── Leaves ───────────────────────────────────────────────────────────────────
/// [`literal`].
pub struct Literal {
    /// The text to match.
    pub lit: &'static str,
}

/// The failure message of a [`literal`] that did not match: `expected`
/// followed by the literal in `Debug` notation.
pub open spec fn literal_message(lit: Seq<char>) -> Seq<char> {
    "expected "@ + debug_quoted(lit)
}

impl<'i> Parser<'i> for Literal {
    type Output = &'i str;

    open spec fn wf(&self) -> bool {
        true
    }

    open spec fn accepts(&self, pre: InputView, out: &'i str, post: InputView) -> bool {
        &&& has_prefix(pre.rest, self.lit@)
        &&& out@ == self.lit@
        &&& consumes(pre, post, self.lit@.len() as int)
    }

    open spec fn rejects(&self, pre: InputView, err: FailureView) -> bool {
        &&& !has_prefix(pre.rest, self.lit@)
        &&& err == expecting_at(literal_message(self.lit@), pre)
    }

    fn parse_next(&self, input: &mut Input<'i>) -> (r: PResult<'i, &'i str>)
        ensures
            r is Err ==> final(input)@ == old(input)@,
    {
        proof {
            lemma_advances_refl(input@);
        }
        let rest = input.rest();
        if str_has_prefix(rest, self.lit) {
            let n = str_byte_len(self.lit);
            let (consumed, _) = split_at_char(rest, n, Ghost(self.lit@.len() as int));
            input.bump(consumed);
            Ok(consumed)
        } else {
            let quoted = debug_str(self.lit);
            let reason = expected_message(quoted.as_str());
            Err(ParseFailure::expecting(reason, rest, input.cursor()))
        }
    }
}

/// The message of a failure that expected `quoted`: `expected ` followed by it.
pub fn expected_message(quoted: &str) -> (r: String)
    ensures
        r@ == "expected "@ + quoted@,
{
    let mut reason = "expected ".to_owned();
    reason.append(quoted);
    reason
}

/// What a step of `satisfy(label, pred)` does, for any predicate: it takes
/// the first character when `pred` holds of it, and otherwise fails with the
/// label where it stands.
pub proof fn lemma_satisfy_steps<'i, F: Fn(char) -> bool>(
    p: Satisfy<F>,
    pre: InputView,
    out: char,
    post: InputView,
    err: FailureView,
)
    ensures
        <Satisfy<F> as Parser<'i>>::accepts(&p, pre, out, post) <==> (pre.rest.len() > 0 && out
            == pre.rest[0] && call_ensures(p.pred, (out,), true) && consumes(pre, post, 1)),
        <Satisfy<F> as Parser<'i>>::rejects(&p, pre, err) <==> ((pre.rest.len() == 0
            || call_ensures(p.pred, (pre.rest[0],), false)) && err == expecting_at(p.label@, pre)),
{
}

/// What a step of `take_while(pred)` / `take_while1(pred)` does, for any
/// predicate: it takes the maximal run of characters that pass `pred` when
/// the run is long enough, and otherwise fails where it stands.
pub proof fn lemma_take_while_steps<'i, F: Fn(char) -> bool>(
    p: TakeWhile<F>,
    pre: InputView,
    out: &'i str,
    post: InputView,
    err: FailureView,
)
    ensures
        <TakeWhile<F> as Parser<'i>>::accepts(&p, pre, out, post) <==> (is_maximal_run(
            p.pred,
            pre.rest,
            out@.len() as int,
        ) && out@.len() >= p.min && out@ == pre.rest.take(out@.len() as int) && consumes(
            pre,
            post,
            out@.len() as int,
        )),
        <TakeWhile<F> as Parser<'i>>::rejects(&p, pre, err) <==> ((exists|n: int|
            #[trigger] is_maximal_run(p.pred, pre.rest, n) && n < p.min) && err == expecting_at(
            "expected at least one matching token"@,
            pre,
        )),
{
}

/// Matches the exact string `lit`, yielding the consumed slice.
pub fn literal(lit: &'static str) -> (r: Literal)
    ensures
        r.lit == lit,
{
    Literal { lit }
}

/// [`any`].
pub struct AnyChar;

impl<'i> Parser<'i> for AnyChar {
    type Output = char;

    open spec fn wf(&self) -> bool {
        true
    }

    open spec fn accepts(&self, pre: InputView, out: char, post: InputView) -> bool {
        &&& pre.rest.len() > 0
        &&& out == pre.rest[0]
        &&& consumes(pre, post, 1)
    }

    open spec fn rejects(&self, pre: InputView, err: FailureView) -> bool {
        &&& pre.rest.len() == 0
        &&& err == expecting_at("expected any token"@, pre)
    }

    fn parse_next(&self, input: &mut Input<'i>) -> (r: PResult<'i, char>)
        ensures
            r is Err ==> final(input)@ == old(input)@,
    {
        proof {
            lemma_advances_refl(input@);
        }
        let rest = input.rest();
        match split_first(rest) {
            Some((c, _)) => {
                bump_char(input, rest, c);
                Ok(c)
            },
            None => Err(
                ParseFailure::expecting("expected any token".to_owned(), rest, input.cursor()),
            ),
        }
    }
}

/// Consumes the first character `c` of `rest`, the input's remaining text.
fn bump_char<'i>(input: &mut Input<'i>, rest: &'i str, c: char)
    requires
        rest@ == old(input)@.rest,
        rest@.len() > 0,
        c == rest@[0],
    ensures
        consumes(old(input)@, final(input)@, 1),
{
    let w = char_utf8_width(c);
    proof {
        assert(rest@.take(1) =~= seq![c]);
        crate::text::lemma_encode_single(c);
    }
    let (consumed, _) = split_at_char(rest, w, Ghost(1));
    input.bump(consumed);
}

/// Matches any single character.
pub fn any() -> (r: AnyChar) {
    AnyChar
}

/// [`satisfy`].
pub struct Satisfy<F> {
    /// The test a character must pass.
    pub pred: F,
    /// What the failure reports as expected.
    pub label: &'static str,
}

impl<'i, F: Fn(char) -> bool> Parser<'i> for Satisfy<F> {
    type Output = char;

    open spec fn wf(&self) -> bool {
        forall|c: char| call_requires(self.pred, (c,))
    }

    open spec fn accepts(&self, pre: InputView, out: char, post: InputView) -> bool {
        &&& pre.rest.len() > 0
        &&& out == pre.rest[0]
        &&& call_ensures(self.pred, (out,), true)
        &&& consumes(pre, post, 1)
    }

    open spec fn rejects(&self, pre: InputView, err: FailureView) -> bool {
        &&& pre.rest.len() == 0 || call_ensures(self.pred, (pre.rest[0],), false)
        &&& err == expecting_at(self.label@, pre)
    }

    fn parse_next(&self, input: &mut Input<'i>) -> (r: PResult<'i, char>)
        ensures
            r is Err ==> final(input)@ == old(input)@,
    {
        proof {
            lemma_advances_refl(input@);
        }
        let rest = input.rest();
        match split_first(rest) {
            Some((c, _)) => {
                if (self.pred)(c) {
                    bump_char(input, rest, c);
                    Ok(c)
                } else {
                    Err(ParseFailure::expecting(self.label.to_owned(), rest, input.cursor()))
                }
            },
            None => Err(ParseFailure::expecting(self.label.to_owned(), rest, input.cursor())),
        }
    }
}

/// Matches a single character satisfying `pred`; `label` describes it on failure.
pub fn satisfy<F: Fn(char) -> bool>(label: &'static str, pred: F) -> (r: Satisfy<F>)
    ensures
        r.pred == pred,
        r.label == label,
{
    Satisfy { pred, label }
}

/// [`take_while`] / [`take_while1`].
pub struct TakeWhile<F> {
    /// The test each consumed character passes.
    pub pred: F,
    /// The fewest characters for the match to succeed.
    pub min: usize,
}

/// The first `n` characters of `s` pass `pred` and the next one, if any,
/// does not: `n` is the length of the maximal run.
pub open spec fn is_maximal_run<F: Fn(char) -> bool>(pred: F, s: Seq<char>, n: int) -> bool {
    &&& 0 <= n <= s.len()
    &&& forall|i: int| 0 <= i < n ==> call_ensures(pred, (#[trigger] s[i],), true)
    &&& n == s.len() || call_ensures(pred, (s[n],), false)
}

impl<'i, F: Fn(char) -> bool> Parser<'i> for TakeWhile<F> {
    type Output = &'i str;

    open spec fn wf(&self) -> bool {
        forall|c: char| call_requires(self.pred, (c,))
    }

    open spec fn accepts(&self, pre: InputView, out: &'i str, post: InputView) -> bool {
        &&& is_maximal_run(self.pred, pre.rest, out@.len() as int)
        &&& out@.len() >= self.min
        &&& out@ == pre.rest.take(out@.len() as int)
        &&& consumes(pre, post, out@.len() as int)
    }

    open spec fn rejects(&self, pre: InputView, err: FailureView) -> bool {
        &&& exists|n: int| #[trigger] is_maximal_run(self.pred, pre.rest, n) && n < self.min
        &&& err == expecting_at("expected at least one matching token"@, pre)
    }

    fn parse_next(&self, input: &mut Input<'i>) -> (r: PResult<'i, &'i str>)
        ensures
            r is Err ==> final(input)@ == old(input)@,
    {
        proof {
            lemma_advances_refl(input@);
        }
        let rest = input.rest();
        let total = str_byte_len(rest);
        proof {
            lemma_utf8_len_bounds(rest@);
        }
        let mut scan = rest;
        let mut end: usize = 0;
        let mut count: usize = 0;
        loop
            invariant_except_break
                self.wf(),
                total == utf8_len(rest@),
                rest@.len() <= total,
                count <= rest@.len(),
                scan@ == rest@.skip(count as int),
                end == utf8_len(rest@.take(count as int)),
                forall|i: int|
                    0 <= i < count ==> call_ensures(self.pred, (#[trigger] rest@[i],), true),
            ensures
                total == utf8_len(rest@),
                end == utf8_len(rest@.take(count as int)),
                is_maximal_run(self.pred, rest@, count as int),
            decreases scan@.len(),
        {
            match split_first(scan) {
                None => {
                    break ;
                },
                Some((c, tail)) => {
                    if (self.pred)(c) {
                        let w = char_utf8_width(c);
                        proof {
                            assert(rest@.take(count + 1) =~= rest@.take(count as int) + seq![c]);
                            lemma_encode_concat(rest@.take(count as int), seq![c]);
                            crate::text::lemma_encode_single(c);
                            lemma_utf8_len_split(rest@, count + 1);
                            assert(scan@.drop_first() =~= rest@.skip(count + 1));
                        }
                        end = end + w;
                        count = count + 1;
                        scan = tail;
                    } else {
                        break ;
                    }
                },
            }
        }
        if count < self.min {
            proof {
                assert(is_maximal_run(self.pred, rest@, count as int));
            }
            return Err(
                ParseFailure::expecting(
                    "expected at least one matching token".to_owned(),
                    rest,
                    input.cursor(),
                ),
            );
        }
        let (consumed, _) = split_at_char(rest, end, Ghost(count as int));
        input.bump(consumed);
        Ok(consumed)
    }
}

/// Consumes the maximal run of characters satisfying `pred` (possibly empty),
/// yielding the consumed slice.
pub fn take_while<F: Fn(char) -> bool>(pred: F) -> (r: TakeWhile<F>)
    ensures
        r.pred == pred,
        r.min == 0,
{
    TakeWhile { pred, min: 0 }
}

/// Like [`take_while`], but requires at least one character.
pub fn take_while1<F: Fn(char) -> bool>(pred: F) -> (r: TakeWhile<F>)
    ensures
        r.pred == pred,
        r.min == 1,
{
    TakeWhile { pred, min: 1 }
}

/// `c` is one of the ASCII digits `0`–`9`.
pub open spec fn is_ascii_digit(c: char) -> bool {
    '0' <= c <= '9'
}

/// A run of one or more ASCII digits, yielding the consumed slice.
pub fn digits() -> (r: TakeWhile<impl Fn(char) -> bool>)
    ensures
        r.min == 1,
        forall|c: char| call_requires(r.pred, (c,)),
        forall|c: char, b: bool| call_ensures(r.pred, (c,), b) ==> b == is_ascii_digit(c),
{
    let pred = |c: char| -> (b: bool)
        ensures
            b == is_ascii_digit(c),
        { '0' <= c && c <= '9' };
    TakeWhile { pred, min: 1 }
}

/// [`eof`].
pub struct Eof;

impl<'i> Parser<'i> for Eof {
    type Output = ();

    open spec fn wf(&self) -> bool {
        true
    }

    open spec fn accepts(&self, pre: InputView, out: (), post: InputView) -> bool {
        pre.rest.len() == 0 && post == pre
    }

    open spec fn rejects(&self, pre: InputView, err: FailureView) -> bool {
        &&& pre.rest.len() > 0
        &&& err == expecting_at("expected end of input"@, pre)
    }

    fn parse_next(&self, input: &mut Input<'i>) -> (r: PResult<'i, ()>)
        ensures
            r is Err ==> final(input)@ == old(input)@,
    {
        proof {
            lemma_advances_refl(input@);
        }
        let rest = input.rest();
        if rest.is_empty() {
            Ok(())
        } else {
            Err(ParseFailure::expecting("expected end of input".to_owned(), rest, input.cursor()))
        }
    }
}

/// Matches only at the end of input.
pub fn eof() -> (r: Eof) {
    Eof
}

// ── Recursion ────────────────────────────────────────────────────────────────
/// The definition behind a [`Recursive`] handle: a parser for `O` that the
/// handle runs at each crossing.
pub trait RecDef<'i, O> {
    /// A step of the definition from `pre` may succeed with `out`, leaving `post`.
    spec fn def_accepts(&self, pre: InputView, out: O, post: InputView) -> bool;

    /// A step of the definition from `pre` may fail with `err`.
    spec fn def_rejects(&self, pre: InputView, err: FailureView) -> bool;

    /// Runs the definition from `input`.
    fn parse_def(&self, input: &mut Input<'i>) -> (r: PResult<'i, O>)
        ensures
            advances(old(input)@, final(input)@),
            match r {
                Ok(o) => self.def_accepts(old(input)@, o, final(input)@),
                Err(e) => self.def_rejects(old(input)@, failure_view(e)),
            },
    ;
}

/// A forward-declared, self-referential parser, enabling recursive grammars.
/// Built by [`recursive`]; cloning shares the same definition, and each
/// crossing runs the grammar built around this same handle. Recursion depth
/// is bounded by the input's budget ([`DEFAULT_MAX_RECURSION_DEPTH`] per
/// parse): each crossing spends one unit, and a crossing with none left
/// returns a [`ParseFailure`] rather than overflowing the stack.
#[verifier::reject_recursive_types(O)]
pub struct Recursive<'i, O> {
    def: Rc<Box<dyn RecDef<'i, O> + 'i>>,
}

/// Shares `rc` with `Rc::clone`, which std documents as making another
/// pointer to the same allocation: the result is the same value.
#[verifier::external_body]
fn rc_clone<T: ?Sized>(rc: &Rc<T>) -> (r: Rc<T>)
    ensures
        r == *rc,
{
    Rc::clone(rc)
}

impl<'i, O> Clone for Recursive<'i, O> {
    fn clone(&self) -> (r: Self)
        ensures
            r == *self,
    {
        Recursive { def: rc_clone(&self.def) }
    }
}

/// The message of a parse that ran out of recursion budget.
pub open spec fn depth_message() -> Seq<char> {
    "maximum recursion depth exceeded"@
}

impl<'i, O> Parser<'i> for Recursive<'i, O> {
    type Output = O;

    open spec fn wf(&self) -> bool {
        true
    }

    closed spec fn accepts(&self, pre: InputView, out: O, post: InputView) -> bool {
        &&& pre.budget > 0
        &&& post.budget == pre.budget
        &&& self.def.def_accepts(
            with_budget(pre, (pre.budget - 1) as usize),
            out,
            with_budget(post, (pre.budget - 1) as usize),
        )
    }

    closed spec fn rejects(&self, pre: InputView, err: FailureView) -> bool {
        ||| pre.budget == 0 && err == rejected_at(depth_message(), pre)
        ||| pre.budget > 0 && self.def.def_rejects(
            with_budget(pre, (pre.budget - 1) as usize),
            err,
        )
    }

    fn parse_next(&self, input: &mut Input<'i>) -> (r: PResult<'i, O>)
        ensures
            old(input)@.budget == 0 ==> r is Err && final(input)@ == old(input)@,
    {
        let ghost pre = input@;
        let budget = input.budget();
        if budget == 0 {
            proof {
                lemma_advances_refl(pre);
            }
            return Err(
                ParseFailure::rejected(
                    "maximum recursion depth exceeded".to_owned(),
                    input.rest(),
                    input.cursor(),
                ),
            );
        }
        input.set_budget(budget - 1);
        let ghost inner_pre = input@;
        let result = self.def.parse_def(input);
        let ghost inner_post = input@;
        input.set_budget(budget);
        proof {
            assert(inner_post == with_budget(input@, (budget - 1) as usize));
        }
        result
    }
}

/// A definition given by a function that builds the grammar around a handle.
#[verifier::reject_recursive_types(P)]
#[verifier::reject_recursive_types(F)]
struct FnDef<'i, P: Parser<'i>, F: Fn(Recursive<'i, P::Output>) -> P> {
    build: Rc<F>,
    marker: PhantomData<(&'i (), P)>,
}

impl<'i, P: Parser<'i>, F: Fn(Recursive<'i, P::Output>) -> P> FnDef<'i, P, F> {
    #[verifier::type_invariant]
    spec fn inv(&self) -> bool {
        builds_well_formed(*self.build)
    }
}

/// `build` accepts every handle and builds only well-formed parsers.
pub open spec fn builds_well_formed<'i, P: Parser<'i>, F: Fn(Recursive<'i, P::Output>) -> P>(
    build: F,
) -> bool {
    &&& forall|h: Recursive<'i, P::Output>| call_requires(build, (h,))
    &&& forall|h: Recursive<'i, P::Output>, p: P| call_ensures(build, (h,), p) ==> p.wf()
}

/// The handle whose crossings run the definition `d`.
spec fn handle_of<'i, P: Parser<'i> + 'i, F: Fn(Recursive<'i, P::Output>) -> P + 'i>(
    d: FnDef<'i, P, F>,
) -> Recursive<'i, P::Output> {
    Recursive { def: Rc::new(Box::new(d)) }
}

/// Some parser that `build` makes around `handle` accepts the step.
pub open spec fn built_accepts<'i, P: Parser<'i>, F: Fn(Recursive<'i, P::Output>) -> P>(
    build: F,
    handle: Recursive<'i, P::Output>,
    pre: InputView,
    out: P::Output,
    post: InputView,
) -> bool {
    exists|p: P| #[trigger] call_ensures(build, (handle,), p) && #[trigger] p.accepts(pre, out, post)
}

/// Some parser that `build` makes around `handle` rejects the step.
pub open spec fn built_rejects<'i, P: Parser<'i>, F: Fn(Recursive<'i, P::Output>) -> P>(
    build: F,
    handle: Recursive<'i, P::Output>,
    pre: InputView,
    err: FailureView,
) -> bool {
    exists|p: P| #[trigger] call_ensures(build, (handle,), p) && #[trigger] p.rejects(pre, err)
}

impl<'i, P: Parser<'i> + 'i, F: Fn(Recursive<'i, P::Output>) -> P + 'i> RecDef<
    'i,
    P::Output,
> for FnDef<'i, P, F> {
    closed spec fn def_accepts(&self, pre: InputView, out: P::Output, post: InputView) -> bool {
        built_accepts(*self.build, handle_of(*self), pre, out, post)
    }

    closed spec fn def_rejects(&self, pre: InputView, err: FailureView) -> bool {
        built_rejects(*self.build, handle_of(*self), pre, err)
    }

    fn parse_def(&self, input: &mut Input<'i>) -> (r: PResult<'i, P::Output>) {
        proof {
            use_type_invariant(self);
        }
        let ghost pre = input@;
        let again: FnDef<'i, P, F> = FnDef { build: rc_clone(&self.build), marker: PhantomData };
        assert(again == *self);
        let boxed: Box<dyn RecDef<'i, P::Output> + 'i> = Box::new(again);
        let ghost bx = boxed;
        let rc = Rc::new(boxed);
        proof {
            let bx2: Box<dyn RecDef<'i, P::Output> + 'i> = Box::new(again);
            assert(bx == bx2);
        }
        let handle: Recursive<'i, P::Output> = Recursive { def: rc };
        assert(handle == handle_of(*self));
        let ghost h = handle;
        let p: P = (self.build)(handle);
        let r: PResult<'i, P::Output> = p.parse_next(input);
        proof {
            if r is Ok {
                assert(call_ensures(*self.build, (h,), p) && p.accepts(pre, r->Ok_0, input@));
            } else {
                assert(call_ensures(*self.build, (h,), p) && p.rejects(
                    pre,
                    failure_view(r->Err_0),
                ));
            }
        }
        r
    }
}

/// Builds a recursive parser. `build` receives a handle usable within the
/// definition it returns; each crossing of the handle runs the grammar that
/// `build` makes around that same handle.
pub fn recursive<'i, P, F>(build: F) -> (r: Recursive<'i, P::Output>) where
    P: Parser<'i> + 'i,
    F: Fn(Recursive<'i, P::Output>) -> P + 'i,

    requires
        builds_well_formed(build),
    ensures
        forall|pre: InputView, out: P::Output, post: InputView|
            #[trigger] r.accepts(pre, out, post) <==> pre.budget > 0 && post.budget == pre.budget
                && built_accepts(
                build,
                r,
                with_budget(pre, (pre.budget - 1) as usize),
                out,
                with_budget(post, (pre.budget - 1) as usize),
            ),
        forall|pre: InputView, err: FailureView|
            #[trigger] r.rejects(pre, err) <==> (pre.budget == 0 && err == rejected_at(
                depth_message(),
                pre,
            )) || (pre.budget > 0 && built_rejects(
                build,
                r,
                with_budget(pre, (pre.budget - 1) as usize),
                err,
            )),
{
    let ghost f = build;
    let definition: FnDef<'i, P, F> = FnDef { build: Rc::new(build), marker: PhantomData };
    let ghost d = definition;
    assert(*d.build == f);
    let boxed: Box<dyn RecDef<'i, P::Output> + 'i> = Box::new(definition);
    assert(forall|pre: InputView, out: P::Output, post: InputView|
        boxed.def_accepts(pre, out, post) == d.def_accepts(pre, out, post));
    assert(forall|pre: InputView, err: FailureView|
        boxed.def_rejects(pre, err) == d.def_rejects(pre, err));
    let ghost b = boxed;
    let shared = Rc::new(boxed);
    assert(*shared == b);
    let r = Recursive { def: shared };
    assert(r == handle_of(d));
    r
}

// ── Laws ─────────────────────────────────────────────────────────────────────
/// The recursion cap: with no budget left, a recursive parser never
/// succeeds, and it fails exactly with "maximum recursion depth exceeded"
/// where it was tried.
pub proof fn lemma_recursion_capped<'i, O>(r: Recursive<'i, O>, pre: InputView)
    requires
        pre.budget == 0,
    ensures
        forall|out: O, post: InputView| !r.accepts(pre, out, post),
        forall|err: FailureView| r.rejects(pre, err) <==> err == rejected_at(depth_message(), pre),
{
}

/// What `literal(a).or(literal(b))` builds.
pub open spec fn literal_or(a: &'static str, b: &'static str) -> Or<Literal, Literal> {
    Or { a: Literal { lit: a }, b: Literal { lit: b } }
}

/// What `any().repeated()` builds.
pub open spec fn any_repeated() -> Repeated<AnyChar> {
    Repeated { inner: AnyChar, min: 0 }
}

/// Alternation backtracks: `literal(a).or(literal(b))` matches `a` when the
/// input starts with it, and otherwise tries `b` from the same place.
pub proof fn lemma_or_of_literals<'i>(
    a: &'static str,
    b: &'static str,
    pre: InputView,
    out: &'i str,
    post: InputView,
)
    ensures
        <Or<Literal, Literal> as Parser<'i>>::accepts(&literal_or(a, b), pre, out, post) <==> (
        has_prefix(pre.rest, a@) && out@ == a@ && consumes(pre, post, a@.len() as int)) || (
        !has_prefix(pre.rest, a@) && has_prefix(pre.rest, b@) && out@ == b@ && consumes(
            pre,
            post,
            b@.len() as int,
        )),
{
    let p = literal_or(a, b);
    if !has_prefix(pre.rest, a@) {
        let e1 = expecting_at(literal_message(a@), pre);
        assert(<Literal as Parser<'i>>::rejects(&p.a, pre, e1));
        if has_prefix(pre.rest, b@) && out@ == b@ && consumes(pre, post, b@.len() as int) {
            assert(<Literal as Parser<'i>>::accepts(&p.b, pre, out, post));
        }
    }
}

/// Along a chain of `any` matches, item `k` is character `k` of the input
/// and each state has consumed one more character than the one before.
proof fn lemma_any_chain<'i>(items: Seq<char>, states: Seq<InputView>, i: int)
    requires
        repeat_chain::<'i, AnyChar>(AnyChar, items, states),
        0 <= i <= items.len(),
    ensures
        i <= states[0].rest.len(),
        states[i].rest == states[0].rest.skip(i),
        forall|k: int| 0 <= k < i ==> items[k] == #[trigger] states[0].rest[k],
    decreases i,
{
    if i > 0 {
        lemma_any_chain(items, states, i - 1);
        assert(repeat_step::<'i, AnyChar>(AnyChar, items, states, i - 1));
        assert(states[i].rest =~= states[0].rest.skip(i));
        assert(states[i - 1].rest[0] == states[0].rest[i - 1]);
    } else {
        assert(states[0].rest.skip(0) =~= states[0].rest);
    }
}

/// Repeating `any` takes the whole input, one character per item.
pub proof fn lemma_any_repeated_takes_everything<'i>(
    pre: InputView,
    out: Vec<char>,
    post: InputView,
)
    requires
        <Repeated<AnyChar> as Parser<'i>>::accepts(&any_repeated(), pre, out, post),
    ensures
        out@ == pre.rest,
        post.rest.len() == 0,
{
    let states = choose|states: Seq<InputView>|
        #[trigger] repeat_chain::<'i, AnyChar>(AnyChar, out@, states) && states[0] == pre
            && states.last() == post;
    lemma_any_chain(out@, states, out@.len() as int);
    assert(post.rest.len() == 0);
    assert(out@ =~= pre.rest);
}




/// Moving forward over the same number of characters lands in one place.
proof fn lemma_consumes_unique(pre: InputView, q1: InputView, q2: InputView, k: int)
    requires
        consumes(pre, q1, k),
        consumes(pre, q2, k),
    ensures
        q1 == q2,
{
    assert(q1.rest =~= q2.rest);
    assert(q1.cursor == q2.cursor);
}

/// `any` has a single outcome from every state.
pub proof fn lemma_any_deterministic<'i>(pre: InputView)
    ensures
        deterministic_at::<'i, AnyChar>(AnyChar, pre),
{
    assert forall|o1: char, q1: InputView, o2: char, q2: InputView|
        #[trigger] <AnyChar as Parser<'i>>::accepts(&AnyChar, pre, o1, q1)
            && #[trigger] <AnyChar as Parser<'i>>::accepts(&AnyChar, pre, o2, q2) implies o1 == o2
        && q1 == q2 by {
        lemma_consumes_unique(pre, q1, q2, 1);
    }
}

/// `eof` has a single outcome from every state.
pub proof fn lemma_eof_deterministic<'i>(pre: InputView)
    ensures
        deterministic_at::<'i, Eof>(Eof, pre),
{
}

/// For a parser whose step from the start of `text` has a single outcome,
/// `parse` is `parse_partial` insisting on an empty remainder: the same
/// output when nothing remains, "expected end of input" at the remainder
/// otherwise, and the same failure when the parser fails.
pub proof fn lemma_parse_agrees_with_partial<'i, P: Parser<'i>>(
    p: P,
    text: Seq<char>,
    whole: PResult<'i, P::Output>,
    part: Result<(P::Output, &'i str), ParseFailure<&'i str>>,
)
    requires
        deterministic_at(p, start_view(text)),
        parse_outcome(p, text, whole),
        partial_outcome(p, text, part),
    ensures
        match part {
            Ok(found) => if found.1@.len() == 0 {
                whole == Ok::<P::Output, ParseFailure<&'i str>>(found.0)
            } else {
                &&& whole is Err
                &&& failure_view(whole->Err_0).reason == "expected end of input"@
                &&& failure_view(whole->Err_0).expected == seq!["expected end of input"@]
                &&& failure_view(whole->Err_0).rest == found.1@
            },
            Err(e) => whole is Err && failure_view(whole->Err_0) == failure_view(e),
        },
{
    let s = start_view(text);
    match part {
        Ok(found) => {
            let post1 = choose|post: InputView|
                #[trigger] p.accepts(s, found.0, post) && post.rest == found.1@ && advances(
                    s,
                    post,
                );
            match whole {
                Ok(o) => {
                    let post2 = choose|post: InputView|
                        #[trigger] p.accepts(s, o, post) && post.rest.len() == 0 && advances(
                            s,
                            post,
                        );
                    assert(p.accepts(s, o, post2) && p.accepts(s, found.0, post1));
                },
                Err(e) => {
                    if p.rejects(s, failure_view(e)) {
                        assert(p.accepts(s, found.0, post1) && p.rejects(s, failure_view(e)));
                    } else {
                        let (o, post2) = choose|o: P::Output, post: InputView|
                            #[trigger] p.accepts(s, o, post) && post.rest.len() > 0 && advances(
                                s,
                                post,
                            ) && failure_view(e) == expecting_at("expected end of input"@, post);
                        assert(p.accepts(s, o, post2) && p.accepts(s, found.0, post1));
                    }
                },
            }
        },
        Err(e) => {
            match whole {
                Ok(o) => {
                    let post2 = choose|post: InputView|
                        #[trigger] p.accepts(s, o, post) && post.rest.len() == 0 && advances(
                            s,
                            post,
                        );
                    assert(p.accepts(s, o, post2) && p.rejects(s, failure_view(e)));
                },
                Err(e2) => {
                    if p.rejects(s, failure_view(e2)) {
                        assert(p.rejects(s, failure_view(e2)) && p.rejects(s, failure_view(e)));
                    } else {
                        let (o, post2) = choose|o: P::Output, post: InputView|
                            #[trigger] p.accepts(s, o, post) && post.rest.len() > 0 && advances(
                                s,
                                post,
                            ) && failure_view(e2) == expecting_at("expected end of input"@, post);
                        assert(p.accepts(s, o, post2) && p.rejects(s, failure_view(e)));
                    }
                },
            }
        },
    }
}

/// Alternation backtracks: when the first branch has a single outcome, a
/// success of the first branch is the alternation's success and the second
/// branch is not consulted; a failure of the first branch hands the step,
/// from the same place, to the second. When both branches have a single
/// outcome, so does the alternation.
pub proof fn lemma_or_backtracks<'i, A: Parser<'i>, B: Parser<'i>>(p: Or<A, B>, pre: InputView)
    where B::Output: SameAs<A::Output>
    requires
        deterministic_at(p.a, pre),
    ensures
        (exists|o: A::Output, q: InputView| #[trigger] p.a.accepts(pre, o, q)) ==> forall|
            out: A::Output,
            post: InputView,
        | #[trigger] p.accepts(pre, out, post) <==> p.a.accepts(pre, out, post),
        (exists|e: FailureView| #[trigger] p.a.rejects(pre, e)) ==> forall|
            out: A::Output,
            post: InputView,
        |
            #[trigger] p.accepts(pre, out, post) <==> exists|ob: B::Output|
                #[trigger] p.b.accepts(pre, ob, post) && ob.same() == out,
        deterministic_at(p.b, pre) ==> deterministic_at(p, pre),
{
    if exists|o: A::Output, q: InputView| #[trigger] p.a.accepts(pre, o, q) {
        let (o, q) = choose|o: A::Output, q: InputView| #[trigger] p.a.accepts(pre, o, q);
        assert forall|e: FailureView| !p.a.rejects(pre, e) by {
            if p.a.rejects(pre, e) {
                assert(p.a.accepts(pre, o, q) && p.a.rejects(pre, e));
            }
        }
    }
    if exists|e: FailureView| #[trigger] p.a.rejects(pre, e) {
        let e = choose|e: FailureView| #[trigger] p.a.rejects(pre, e);
        assert forall|o: A::Output, q: InputView| !p.a.accepts(pre, o, q) by {
            if p.a.accepts(pre, o, q) {
                assert(p.a.accepts(pre, o, q) && p.a.rejects(pre, e));
            }
        }
    }
    if deterministic_at(p.b, pre) {
        assert forall|o1: A::Output, q1: InputView, o2: A::Output, q2: InputView|
            #[trigger] p.accepts(pre, o1, q1) && #[trigger] p.accepts(pre, o2, q2) implies o1 == o2
            && q1 == q2 by {
            if p.a.accepts(pre, o1, q1) && p.a.accepts(pre, o2, q2) {
            } else if p.a.accepts(pre, o1, q1) {
                let e = choose|e: FailureView| #[trigger] p.a.rejects(pre, e);
                assert(p.a.accepts(pre, o1, q1) && p.a.rejects(pre, e));
            } else if p.a.accepts(pre, o2, q2) {
                let e = choose|e: FailureView| #[trigger] p.a.rejects(pre, e);
                assert(p.a.accepts(pre, o2, q2) && p.a.rejects(pre, e));
            } else {
                let b1 = choose|ob: B::Output| #[trigger] p.b.accepts(pre, ob, q1) && ob.same() == o1;
                let b2 = choose|ob: B::Output| #[trigger] p.b.accepts(pre, ob, q2) && ob.same() == o2;
                assert(p.b.accepts(pre, b1, q1) && p.b.accepts(pre, b2, q2));
            }
        }
        assert forall|e1: FailureView, e2: FailureView|
            #[trigger] p.rejects(pre, e1) && #[trigger] p.rejects(pre, e2) implies e1 == e2 by {
            let (a1, b1) = choose|x: FailureView, y: FailureView|
                #[trigger] p.a.rejects(pre, x) && #[trigger] p.b.rejects(pre, y) && e1 == or_failure(
                    x,
                    y,
                    pre,
                );
            let (a2, b2) = choose|x: FailureView, y: FailureView|
                #[trigger] p.a.rejects(pre, x) && #[trigger] p.b.rejects(pre, y) && e2 == or_failure(
                    x,
                    y,
                    pre,
                );
            assert(p.a.rejects(pre, a1) && p.a.rejects(pre, a2));
            assert(p.b.rejects(pre, b1) && p.b.rejects(pre, b2));
        }
        assert forall|o: A::Output, q: InputView, e: FailureView|
            #[trigger] p.accepts(pre, o, q) && #[trigger] p.rejects(pre, e) implies false by {
            let (a1, b1) = choose|x: FailureView, y: FailureView|
                #[trigger] p.a.rejects(pre, x) && #[trigger] p.b.rejects(pre, y) && e == or_failure(
                    x,
                    y,
                    pre,
                );
            if p.a.accepts(pre, o, q) {
                assert(p.a.accepts(pre, o, q) && p.a.rejects(pre, a1));
            } else {
                let ob = choose|ob: B::Output| #[trigger] p.b.accepts(pre, ob, q) && ob.same() == o;
                assert(p.b.accepts(pre, ob, q) && p.b.rejects(pre, b1));
            }
        }
    }
}


/// The digit test is std's ASCII-digit test: it holds of exactly the
/// characters whose code lies between 0x30 and 0x39.
pub proof fn lemma_ascii_digit_codes(c: char)
    ensures
        is_ascii_digit(c) <==> 0x30 <= (c as u32) && (c as u32) <= 0x39,
{
}

/// A run of ASCII digits parses whole with a parser built like [`digits`]
/// (the digit test as its predicate, at least one character): whatever such
/// a `parse` returns on a non-empty text of characters with codes 0x30 to
/// 0x39 is that text.
pub proof fn lemma_digit_run_parses_whole<'i, F: Fn(char) -> bool>(
    p: TakeWhile<F>,
    text: Seq<char>,
    r: PResult<'i, &'i str>,
)
    requires
        p.min == 1,
        forall|c: char, b: bool| call_ensures(p.pred, (c,), b) ==> b == is_ascii_digit(c),
        text.len() > 0,
        forall|i: int| 0 <= i < text.len() ==> 0x30 <= (#[trigger] text[i] as u32) && (text[i] as u32) <= 0x39,
        parse_outcome(p, text, r),
    ensures
        r is Ok,
        r->Ok_0@ == text,
{
    let s = start_view(text);
    assert forall|i: int| 0 <= i < text.len() implies is_ascii_digit(#[trigger] text[i]) by {
        lemma_ascii_digit_codes(text[i]);
    }
    match r {
        Ok(o) => {
            let post = choose|post: InputView|
                #[trigger] <TakeWhile<F> as Parser<'i>>::accepts(&p, s, o, post) && post.rest.len() == 0
                    && advances(s, post);
            assert(o@ =~= text.take(o@.len() as int));
            assert(o@ =~= text);
        },
        Err(e) => {
            if <TakeWhile<F> as Parser<'i>>::rejects(&p, s, failure_view(e)) {
                let n = choose|n: int| #[trigger] is_maximal_run(p.pred, text, n) && n < p.min;
                assert(call_ensures(p.pred, (text[0],), false));
            } else {
                let (o, post) = choose|o: &'i str, post: InputView|
                    #[trigger] <TakeWhile<F> as Parser<'i>>::accepts(&p, s, o, post) && post.rest.len()
                        > 0 && advances(s, post) && failure_view(e) == expecting_at(
                        "expected end of input"@,
                        post,
                    );
                let n = o@.len() as int;
                assert(n < text.len());
                assert(call_ensures(p.pred, (text[n],), false));
            }
        },
    }
}

} // verus!
