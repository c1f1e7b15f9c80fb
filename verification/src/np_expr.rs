//! The top-level splitter for the expression inside a template tag.
//!
//! [`scan_top_level`] cuts a tag's inner text into [`Tok`]s: runs of text and
//! the separators `|`, `||`, `&&`, `,`, `=`, `:` and whitespace. Quoted
//! strings, parenthesised sub-expressions and bracketed keys are atomic: a
//! separator inside one of them belongs to the surrounding text run.
//!
//! The grammar is stated over the characters of the input by the spec
//! functions below; [`scan_top_level`] is proved to return exactly the tokens
//! that [`top_level_tokens`] describes.
use vstd::prelude::*;

use crate::failure::DEFAULT_MAX_RECURSION_DEPTH;
use crate::text::{chars_of, collect_string};

verus! {

/// One top-level token of an expression.
#[derive(Debug, PartialEq)]
pub enum Tok {
    /// A maximal run of text, atomic chunks included, as it stands in the source.
    Text(String),
    /// One whitespace character.
    Ws(char),
    /// `|`
    Pipe,
    /// `,`
    Comma,
    /// `=`
    Eq,
    /// `:`
    Colon,
    /// A reserved two-character operator: `||` or `&&`.
    Reserved(&'static str),
}

/// A [`Tok`] with its strings taken as characters.
pub enum TokView {
    Text(Seq<char>),
    Ws(char),
    Pipe,
    Comma,
    Eq,
    Colon,
    Reserved(Seq<char>),
}

impl View for Tok {
    type V = TokView;

    open spec fn view(&self) -> TokView {
        match self {
            Tok::Text(t) => TokView::Text(t@),
            Tok::Ws(c) => TokView::Ws(*c),
            Tok::Pipe => TokView::Pipe,
            Tok::Comma => TokView::Comma,
            Tok::Eq => TokView::Eq,
            Tok::Colon => TokView::Colon,
            Tok::Reserved(r) => TokView::Reserved(r@),
        }
    }
}

// ── The grammar ──────────────────────────────────────────────────────────────
/// The whitespace characters that separate tokens.
pub open spec fn is_ws(c: char) -> bool {
    c == ' ' || c == '\t' || c == '\n' || c == '\r'
}

/// The recursion budget a top-level parenthesised chunk starts with.
pub open spec fn paren_budget() -> nat {
    DEFAULT_MAX_RECURSION_DEPTH as nat
}

/// Where the body of a quoted chunk ends when scanned from `j`: a backslash
/// takes the next character with it, and the body stops before the closing
/// delimiter `d` or at the end of the input.
pub open spec fn quoted_body_end(s: Seq<char>, j: int, d: char) -> int
    decreases s.len() - j,
{
    if j >= s.len() {
        j
    } else if s[j] == '\\' {
        if j + 1 < s.len() {
            quoted_body_end(s, j + 2, d)
        } else {
            j + 1
        }
    } else if s[j] == d {
        j
    } else {
        quoted_body_end(s, j + 1, d)
    }
}

/// Where the quoted chunk opened by `d` at `i` ends: after its closing
/// delimiter, or at the end of the input when the quote is never closed.
pub open spec fn quoted_end(s: Seq<char>, i: int, d: char) -> int {
    let b = quoted_body_end(s, i + 1, d);
    if b < s.len() && s[b] == d {
        b + 1
    } else {
        b
    }
}

/// The first `]` at or after `j`, or the end of the input.
pub open spec fn bracket_body_end(s: Seq<char>, j: int) -> int
    decreases s.len() - j,
{
    if j >= s.len() {
        j
    } else if s[j] == ']' {
        j
    } else {
        bracket_body_end(s, j + 1)
    }
}

/// Where the bracketed key opened at `i` ends: after the first `]`, or at the
/// end of the input. Brackets do not nest and know no escapes.
pub open spec fn bracket_end(s: Seq<char>, i: int) -> int {
    let b = bracket_body_end(s, i + 1);
    if b < s.len() {
        b + 1
    } else {
        b
    }
}

/// Where the parenthesised chunk opened at `i` ends, entered with `budget`
/// recursion crossings left. With no budget left the chunk fails, which is
/// written as ending where it started.
pub open spec fn paren_end(s: Seq<char>, i: int, budget: nat) -> int
    decreases budget, 1int, 0int,
{
    if budget == 0 {
        i
    } else {
        let b = paren_body_end(s, i + 1, (budget - 1) as nat);
        if b < s.len() && s[b] == ')' {
            b + 1
        } else {
            b
        }
    }
}

/// Where the inside of a parenthesised chunk ends when scanned from `j`:
/// nested chunks, quotes and bracketed keys are taken whole, any other
/// character but `)` one at a time, until a `)`, a nested chunk that fails,
/// or the end of the input.
pub open spec fn paren_body_end(s: Seq<char>, j: int, budget: nat) -> int
    decreases budget + 1, 0int, s.len() - j,
{
    if j < 0 || j >= s.len() {
        j
    } else {
        let c = s[j];
        let e = if c == '(' {
            paren_end(s, j, budget)
        } else if c == '"' {
            quoted_end(s, j, '"')
        } else if c == '\'' {
            quoted_end(s, j, '\'')
        } else if c == '[' {
            bracket_end(s, j)
        } else if c == ')' {
            j
        } else {
            j + 1
        };
        if j < e <= s.len() {
            paren_body_end(s, e, budget)
        } else {
            j
        }
    }
}

/// A separator starts at `j`: `|`, `,`, `=`, `:`, whitespace, or `&&` (a lone
/// `&` is text).
pub open spec fn separator_at(s: Seq<char>, j: int) -> bool {
    let c = s[j];
    c == '|' || c == ',' || c == '=' || c == ':' || is_ws(c) || (c == '&' && j + 1 < s.len()
        && s[j + 1] == '&')
}

/// Where the fragment of a text run that starts at `j` ends: a quoted chunk,
/// a parenthesised chunk, a bracketed key, or one plain character.
pub open spec fn fragment_end(s: Seq<char>, j: int) -> int {
    let c = s[j];
    if c == '"' {
        quoted_end(s, j, '"')
    } else if c == '\'' {
        quoted_end(s, j, '\'')
    } else if c == '(' {
        paren_end(s, j, paren_budget())
    } else if c == '[' {
        bracket_end(s, j)
    } else {
        j + 1
    }
}

/// Where the text run that starts at `j` ends: fragments follow each other
/// up to a separator or the end of the input.
pub open spec fn text_run_end(s: Seq<char>, j: int) -> int
    decreases s.len() - j,
{
    if 0 <= j < s.len() && !separator_at(s, j) {
        let e = fragment_end(s, j);
        if j < e <= s.len() {
            text_run_end(s, e)
        } else {
            j
        }
    } else {
        j
    }
}

/// The token that starts at `i`, and where it ends. `||` and `&&` are taken
/// before `|`; anything that is not a separator starts a text run.
pub open spec fn top_item(s: Seq<char>, i: int) -> (TokView, int) {
    let c = s[i];
    let two = i + 1 < s.len();
    if c == '|' && two && s[i + 1] == '|' {
        (TokView::Reserved(seq!['|', '|']), i + 2)
    } else if c == '&' && two && s[i + 1] == '&' {
        (TokView::Reserved(seq!['&', '&']), i + 2)
    } else if c == '|' {
        (TokView::Pipe, i + 1)
    } else if c == ',' {
        (TokView::Comma, i + 1)
    } else if c == '=' {
        (TokView::Eq, i + 1)
    } else if c == ':' {
        (TokView::Colon, i + 1)
    } else if is_ws(c) {
        (TokView::Ws(c), i + 1)
    } else {
        let e = text_run_end(s, i);
        (TokView::Text(s.subrange(i, e)), e)
    }
}

/// The tokens of `s` from position `i` on.
pub open spec fn tokens_from(s: Seq<char>, i: int) -> Seq<TokView>
    decreases s.len() - i,
{
    if 0 <= i < s.len() {
        let (t, e) = top_item(s, i);
        if i < e <= s.len() {
            seq![t] + tokens_from(s, e)
        } else {
            seq![t]
        }
    } else {
        Seq::empty()
    }
}

/// The top-level tokens of the expression `s`.
pub open spec fn top_level_tokens(s: Seq<char>) -> Seq<TokView> {
    tokens_from(s, 0)
}

/// The source text a token stands for.
pub open spec fn tok_text(t: TokView) -> Seq<char> {
    match t {
        TokView::Text(x) => x,
        TokView::Ws(c) => seq![c],
        TokView::Pipe => seq!['|'],
        TokView::Comma => seq![','],
        TokView::Eq => seq!['='],
        TokView::Colon => seq![':'],
        TokView::Reserved(r) => r,
    }
}

/// The source texts of `ts`, one after the other.
pub open spec fn tokens_text(ts: Seq<TokView>) -> Seq<char>
    decreases ts.len(),
{
    if ts.len() == 0 {
        Seq::empty()
    } else {
        tok_text(ts[0]) + tokens_text(ts.drop_first())
    }
}

// ── Facts about the grammar ──────────────────────────────────────────────────
proof fn lemma_quoted_body_bounds(s: Seq<char>, j: int, d: char)
    requires
        0 <= j <= s.len(),
    ensures
        j <= quoted_body_end(s, j, d) <= s.len(),
    decreases s.len() - j,
{
    if j < s.len() {
        if s[j] == '\\' {
            if j + 1 < s.len() {
                lemma_quoted_body_bounds(s, j + 2, d);
            }
        } else if s[j] != d {
            lemma_quoted_body_bounds(s, j + 1, d);
        }
    }
}

proof fn lemma_quoted_bounds(s: Seq<char>, i: int, d: char)
    requires
        0 <= i < s.len(),
    ensures
        i < quoted_end(s, i, d) <= s.len(),
{
    lemma_quoted_body_bounds(s, i + 1, d);
}

proof fn lemma_bracket_body_bounds(s: Seq<char>, j: int)
    requires
        0 <= j <= s.len(),
    ensures
        j <= bracket_body_end(s, j) <= s.len(),
    decreases s.len() - j,
{
    if j < s.len() && s[j] != ']' {
        lemma_bracket_body_bounds(s, j + 1);
    }
}

proof fn lemma_bracket_bounds(s: Seq<char>, i: int)
    requires
        0 <= i < s.len(),
    ensures
        i < bracket_end(s, i) <= s.len(),
{
    lemma_bracket_body_bounds(s, i + 1);
}

proof fn lemma_paren_bounds(s: Seq<char>, i: int, budget: nat)
    requires
        0 <= i < s.len(),
    ensures
        i <= paren_end(s, i, budget) <= s.len(),
        budget > 0 ==> i < paren_end(s, i, budget),
    decreases budget, 1int, 0int,
{
    if budget > 0 {
        lemma_paren_body_bounds(s, i + 1, (budget - 1) as nat);
    }
}

proof fn lemma_paren_body_bounds(s: Seq<char>, j: int, budget: nat)
    requires
        0 <= j <= s.len(),
    ensures
        j <= paren_body_end(s, j, budget) <= s.len(),
    decreases budget + 1, 0int, s.len() - j,
{
    if j < s.len() {
        let c = s[j];
        if c == '(' {
            lemma_paren_bounds(s, j, budget);
        }
        let e = if c == '(' {
            paren_end(s, j, budget)
        } else if c == '"' {
            quoted_end(s, j, '"')
        } else if c == '\'' {
            quoted_end(s, j, '\'')
        } else if c == '[' {
            bracket_end(s, j)
        } else if c == ')' {
            j
        } else {
            j + 1
        };
        if j < e <= s.len() {
            lemma_paren_body_bounds(s, e, budget);
        }
    }
}

proof fn lemma_fragment_bounds(s: Seq<char>, j: int)
    requires
        0 <= j < s.len(),
    ensures
        j < fragment_end(s, j) <= s.len(),
{
    lemma_quoted_bounds(s, j, '"');
    lemma_quoted_bounds(s, j, '\'');
    lemma_paren_bounds(s, j, paren_budget());
    lemma_bracket_bounds(s, j);
}

/// A text run ends at a separator or at the end of the input, and takes at
/// least one character when it starts at one that is no separator.
proof fn lemma_text_run(s: Seq<char>, j: int)
    requires
        0 <= j <= s.len(),
    ensures
        j <= text_run_end(s, j) <= s.len(),
        text_run_end(s, j) == s.len() || separator_at(s, text_run_end(s, j)),
        j < s.len() && !separator_at(s, j) ==> j < text_run_end(s, j),
    decreases s.len() - j,
{
    if j < s.len() && !separator_at(s, j) {
        lemma_fragment_bounds(s, j);
        lemma_text_run(s, fragment_end(s, j));
    }
}

/// The token at `i` covers `s[i..e]` for its end `e`; a text token stops
/// at a separator or at the end, and separators start exactly the other
/// tokens.
proof fn lemma_top_item(s: Seq<char>, i: int)
    requires
        0 <= i < s.len(),
    ensures
        i < top_item(s, i).1 <= s.len(),
        tok_text(top_item(s, i).0) == s.subrange(i, top_item(s, i).1),
        top_item(s, i).0 is Text ==> (top_item(s, i).1 == s.len() || separator_at(
            s,
            top_item(s, i).1,
        )),
        separator_at(s, i) <==> !(top_item(s, i).0 is Text),
{
    lemma_text_run(s, i);
    let (t, e) = top_item(s, i);
    assert(tok_text(t) =~= s.subrange(i, e));
}

/// The tokens from `i` on cover `s[i..]`.
proof fn lemma_tokens_from_text(s: Seq<char>, i: int)
    requires
        0 <= i <= s.len(),
    ensures
        tokens_text(tokens_from(s, i)) == s.subrange(i, s.len() as int),
    decreases s.len() - i,
{
    if i == s.len() {
        assert(s.subrange(i, s.len() as int) =~= Seq::<char>::empty());
    } else {
        lemma_top_item(s, i);
        let (t, e) = top_item(s, i);
        lemma_tokens_from_text(s, e);
        let ts = tokens_from(s, i);
        assert(ts[0] == t);
        assert(ts.drop_first() =~= tokens_from(s, e));
        assert(s.subrange(i, s.len() as int) =~= s.subrange(i, e) + s.subrange(e, s.len() as int));
    }
}

/// Text tokens from `i` on are never empty and never follow each other.
proof fn lemma_tokens_from_runs(s: Seq<char>, i: int)
    requires
        0 <= i <= s.len(),
    ensures
        tokens_from(s, i).len() == 0 <==> i == s.len(),
        forall|k: int|
            0 <= k < tokens_from(s, i).len() ==> (#[trigger] tokens_from(s, i)[k] matches TokView::Text(
                x,
            ) ==> x.len() > 0),
        forall|k: int|
            0 <= k < tokens_from(s, i).len() - 1 ==> (#[trigger] tokens_from(s, i)[k] is Text
                ==> !(tokens_from(s, i)[k + 1] is Text)),
    decreases s.len() - i,
{
    if i < s.len() {
        lemma_top_item(s, i);
        let (t, e) = top_item(s, i);
        lemma_tokens_from_runs(s, e);
        let ts = tokens_from(s, i);
        let rest = tokens_from(s, e);
        assert(ts =~= seq![t] + rest);
        if e < s.len() {
            lemma_top_item(s, e);
        }
        assert forall|k: int| 0 <= k < ts.len() implies (#[trigger] ts[k] matches TokView::Text(
            x,
        ) ==> x.len() > 0) by {
            if k > 0 {
                assert(ts[k] == rest[k - 1]);
            } else {
                assert(tok_text(t).len() == e - i);
            }
        }
        assert forall|k: int| 0 <= k < ts.len() - 1 implies (#[trigger] ts[k] is Text ==> !(ts[k
            + 1] is Text)) by {
            if k > 0 {
                assert(ts[k] == rest[k - 1]);
                assert(ts[k + 1] == rest[k]);
            } else {
                assert(ts[1] == rest[0]);
            }
        }
    }
}

/// Scanning loses no character: the tokens' texts, one after the other,
/// give back the input.
pub proof fn lemma_scan_is_lossless(s: Seq<char>)
    ensures
        tokens_text(top_level_tokens(s)) == s,
{
    lemma_tokens_from_text(s, 0);
    assert(s.subrange(0, s.len() as int) =~= s);
}

/// Text runs are maximal: every text token holds at least one character,
/// and no text token directly follows another.
pub proof fn lemma_scan_text_runs_are_maximal(s: Seq<char>)
    ensures
        forall|k: int|
            0 <= k < top_level_tokens(s).len() ==> (#[trigger] top_level_tokens(s)[k] matches TokView::Text(
                x,
            ) ==> x.len() > 0),
        forall|k: int|
            0 <= k < top_level_tokens(s).len() - 1 ==> (#[trigger] top_level_tokens(s)[k] is Text
                ==> !(top_level_tokens(s)[k + 1] is Text)),
{
    lemma_tokens_from_runs(s, 0);
}

// ── Laws of chunks ───────────────────────────────────────────────────────────
/// `c` with the two quote characters exchanged.
pub open spec fn swap_quote(c: char) -> char {
    if c == '"' {
        '\''
    } else if c == '\'' {
        '"'
    } else {
        c
    }
}

/// `s` with the two quote characters exchanged throughout.
pub open spec fn swap_quotes(s: Seq<char>) -> Seq<char> {
    s.map_values(|c: char| swap_quote(c))
}

proof fn lemma_quoted_body_swap(s: Seq<char>, j: int)
    requires
        0 <= j,
    ensures
        quoted_body_end(s, j, '"') == quoted_body_end(swap_quotes(s), j, '\''),
    decreases s.len() - j,
{
    let w = swap_quotes(s);
    assert(w.len() == s.len());
    if j < s.len() {
        assert(w[j] == swap_quote(s[j]));
        if s[j] == '\\' {
            if j + 1 < s.len() {
                lemma_quoted_body_swap(s, j + 2);
            }
        } else if s[j] != '"' {
            lemma_quoted_body_swap(s, j + 1);
        }
    }
}

/// Both quote characters delimit alike: the double-quoted chunk at `i` ends
/// where the single-quoted chunk at `i` ends once the two quote characters
/// are exchanged throughout the input.
pub proof fn lemma_quotes_delimit_alike(s: Seq<char>, i: int)
    requires
        0 <= i < s.len(),
    ensures
        quoted_end(s, i, '"') == quoted_end(swap_quotes(s), i, '\''),
{
    lemma_quoted_body_swap(s, i + 1);
    let b = quoted_body_end(s, i + 1, '"');
    lemma_quoted_body_bounds(s, i + 1, '"');
    if b < s.len() {
        assert(swap_quotes(s)[b] == swap_quote(s[b]));
    }
}

/// A run without backslashes and without the delimiter is body all through.
proof fn lemma_quoted_body_plain(s: Seq<char>, j: int, k: int, d: char)
    requires
        0 <= j <= k <= s.len(),
        forall|m: int| j <= m < k ==> s[m] != '\\' && s[m] != d,
    ensures
        quoted_body_end(s, j, d) == quoted_body_end(s, k, d),
    decreases k - j,
{
    if j < k {
        lemma_quoted_body_plain(s, j + 1, k, d);
    }
}

/// A backslash inside a quoted chunk takes the next character with it, the
/// delimiter included: a quoted chunk whose body holds an escaped delimiter
/// is one text token from its opening to its closing delimiter.
pub proof fn lemma_escaped_delimiter_stays_inside(d: char, x: Seq<char>, y: Seq<char>)
    requires
        d == '"' || d == '\'',
        forall|m: int| 0 <= m < x.len() ==> x[m] != '\\' && x[m] != d,
        forall|m: int| 0 <= m < y.len() ==> y[m] != '\\' && y[m] != d,
    ensures
        ({
            let s = seq![d] + x + seq!['\\', d] + y + seq![d];
            top_level_tokens(s) == seq![TokView::Text(s)]
        }),
{
    let s = seq![d] + x + seq!['\\', d] + y + seq![d];
    let a: int = x.len() as int + 1;
    let c: int = a + 2;
    let last: int = c + y.len() as int;
    assert(s.len() == last + 1);
    assert forall|m: int| 1 <= m < a implies s[m] != '\\' && s[m] != d by {
        assert(s[m] == x[m - 1]);
    }
    assert forall|m: int| c <= m < last implies s[m] != '\\' && s[m] != d by {
        assert(s[m] == y[m - c]);
    }
    lemma_quoted_body_plain(s, 1, a, d);
    assert(s[a] == '\\');
    lemma_quoted_body_plain(s, c, last, d);
    assert(s[last] == d);
    assert(quoted_end(s, 0, d) == s.len());
    assert(!separator_at(s, 0));
    assert(fragment_end(s, 0) == s.len());
    assert(text_run_end(s, s.len() as int) == s.len());
    assert(text_run_end(s, 0) == s.len());
    assert(tokens_from(s, s.len() as int) =~= Seq::<TokView>::empty());
    assert(s.subrange(0, s.len() as int) =~= s);
    assert(tokens_from(s, 0) =~= seq![TokView::Text(s)]);
}

/// A fragment of a text run that opens with `[` is the whole bracketed key,
/// wherever in the run it stands.
pub proof fn lemma_bracket_fragment(s: Seq<char>, j: int)
    requires
        0 <= j < s.len(),
        s[j] == '[',
    ensures
        fragment_end(s, j) == bracket_end(s, j),
{
}

/// A run without `]` is key all through.
proof fn lemma_bracket_body_plain(s: Seq<char>, j: int, k: int)
    requires
        0 <= j <= k <= s.len(),
        forall|m: int| j <= m < k ==> s[m] != ']',
    ensures
        bracket_body_end(s, j) == bracket_body_end(s, k),
    decreases k - j,
{
    if j < k {
        lemma_bracket_body_plain(s, j + 1, k);
    }
}

proof fn lemma_quoted_body_shift(q: Seq<char>, s: Seq<char>, j: int, d: char)
    requires
        0 <= j,
    ensures
        quoted_body_end(q + s, q.len() + j, d) == quoted_body_end(s, j, d) + q.len(),
    decreases s.len() - j,
{
    let t = q + s;
    if j < s.len() {
        assert(t[q.len() + j] == s[j]);
        if s[j] == '\\' {
            if j + 1 < s.len() {
                lemma_quoted_body_shift(q, s, j + 2, d);
            }
        } else if s[j] != d {
            lemma_quoted_body_shift(q, s, j + 1, d);
        }
    }
}

proof fn lemma_quoted_shift(q: Seq<char>, s: Seq<char>, i: int, d: char)
    requires
        0 <= i < s.len(),
    ensures
        quoted_end(q + s, q.len() + i, d) == quoted_end(s, i, d) + q.len(),
{
    lemma_quoted_body_shift(q, s, i + 1, d);
    lemma_quoted_body_bounds(s, i + 1, d);
    let b = quoted_body_end(s, i + 1, d);
    if b < s.len() {
        assert((q + s)[q.len() + b] == s[b]);
    }
}

proof fn lemma_bracket_body_shift(q: Seq<char>, s: Seq<char>, j: int)
    requires
        0 <= j,
    ensures
        bracket_body_end(q + s, q.len() + j) == bracket_body_end(s, j) + q.len(),
    decreases s.len() - j,
{
    if j < s.len() {
        assert((q + s)[q.len() + j] == s[j]);
        if s[j] != ']' {
            lemma_bracket_body_shift(q, s, j + 1);
        }
    }
}

proof fn lemma_bracket_shift(q: Seq<char>, s: Seq<char>, i: int)
    requires
        0 <= i < s.len(),
    ensures
        bracket_end(q + s, q.len() + i) == bracket_end(s, i) + q.len(),
{
    lemma_bracket_body_shift(q, s, i + 1);
}

proof fn lemma_paren_shift(q: Seq<char>, s: Seq<char>, i: int, budget: nat)
    requires
        0 <= i < s.len(),
    ensures
        paren_end(q + s, q.len() + i, budget) == paren_end(s, i, budget) + q.len(),
    decreases budget, 1int, 0int,
{
    if budget > 0 {
        let inner = (budget - 1) as nat;
        lemma_paren_body_shift(q, s, i + 1, inner);
        lemma_paren_body_bounds(s, i + 1, inner);
        let b = paren_body_end(s, i + 1, inner);
        if b < s.len() {
            assert((q + s)[q.len() + b] == s[b]);
        }
    }
}

proof fn lemma_paren_body_shift(q: Seq<char>, s: Seq<char>, j: int, budget: nat)
    requires
        0 <= j,
    ensures
        paren_body_end(q + s, q.len() + j, budget) == paren_body_end(s, j, budget) + q.len(),
    decreases budget + 1, 0int, s.len() - j,
{
    let t = q + s;
    if j < s.len() {
        let c = s[j];
        assert(t[q.len() + j] == c);
        if c == '(' {
            lemma_paren_shift(q, s, j, budget);
        } else if c == '"' {
            lemma_quoted_shift(q, s, j, '"');
        } else if c == '\'' {
            lemma_quoted_shift(q, s, j, '\'');
        } else if c == '[' {
            lemma_bracket_shift(q, s, j);
        }
        let e = if c == '(' {
            paren_end(s, j, budget)
        } else if c == '"' {
            quoted_end(s, j, '"')
        } else if c == '\'' {
            quoted_end(s, j, '\'')
        } else if c == '[' {
            bracket_end(s, j)
        } else if c == ')' {
            j
        } else {
            j + 1
        };
        if j < e <= s.len() {
            lemma_paren_body_shift(q, s, e, budget);
        }
    }
}

/// How far a fragment of a text run reaches depends only on the characters
/// from its start on: whatever text `q` precedes it, it ends as far after its
/// start. In particular quoted, parenthesised and bracketed chunks are
/// atomic wherever in a run they stand.
pub proof fn lemma_fragment_depends_on_suffix(q: Seq<char>, s: Seq<char>, j: int)
    requires
        0 <= j < s.len(),
    ensures
        fragment_end(q + s, q.len() + j) == fragment_end(s, j) + q.len(),
{
    let c = s[j];
    assert((q + s)[q.len() + j] == c);
    if c == '"' {
        lemma_quoted_shift(q, s, j, '"');
    } else if c == '\'' {
        lemma_quoted_shift(q, s, j, '\'');
    } else if c == '(' {
        lemma_paren_shift(q, s, j, paren_budget());
    } else if c == '[' {
        lemma_bracket_shift(q, s, j);
    }
}

/// A character that neither separates tokens nor opens a chunk.
pub open spec fn plain_text_char(c: char) -> bool {
    !(c == '|' || c == ',' || c == '=' || c == ':' || c == ' ' || c == '\t' || c == '\n' || c
        == '\r' || c == '&' || c == '"' || c == '\'' || c == '(' || c == '[')
}

/// Text made of plain characters runs on through each of them.
proof fn lemma_text_run_plain(s: Seq<char>, j: int, k: int)
    requires
        0 <= j <= k < s.len(),
        forall|m: int| j <= m < k ==> plain_text_char(#[trigger] s[m]),
    ensures
        text_run_end(s, j) == text_run_end(s, k),
    decreases k - j,
{
    if j < k {
        assert(plain_text_char(s[j]));
        lemma_text_run_plain(s, j + 1, k);
    }
}

/// A bracketed key is atomic at any place of a text run: plain text followed
/// by `[`, a key without `]`, and `]` is a single text token, whatever
/// separators the key holds.
pub proof fn lemma_bracket_key_after_text(p: Seq<char>, k: Seq<char>)
    requires
        forall|m: int| 0 <= m < p.len() ==> plain_text_char(#[trigger] p[m]),
        forall|m: int| 0 <= m < k.len() ==> k[m] != ']',
    ensures
        ({
            let s = p + seq!['['] + k + seq![']'];
            top_level_tokens(s) == seq![TokView::Text(s)]
        }),
{
    let s = p + seq!['['] + k + seq![']'];
    let o = p.len() as int;
    let close: int = o + 1 + k.len() as int;
    assert(s.len() == close + 1);
    assert forall|m: int| 0 <= m < o implies plain_text_char(#[trigger] s[m]) by {
        assert(s[m] == p[m]);
    }
    assert forall|m: int| o + 1 <= m < close implies s[m] != ']' by {
        assert(s[m] == k[m - o - 1]);
    }
    lemma_bracket_body_plain(s, o + 1, close);
    assert(s[o] == '[');
    assert(s[close] == ']');
    assert(bracket_end(s, o) == s.len());
    lemma_text_run_plain(s, 0, o);
    assert(text_run_end(s, s.len() as int) == s.len());
    assert(text_run_end(s, o) == s.len());
    if o > 0 {
        assert(plain_text_char(s[0]));
    }
    assert(tokens_from(s, s.len() as int) =~= Seq::<TokView>::empty());
    assert(s.subrange(0, s.len() as int) =~= s);
    assert(tokens_from(s, 0) =~= seq![TokView::Text(s)]);
}

// ── The scanner ──────────────────────────────────────────────────────────────
/// Where the quoted chunk opened by `d` at `i` ends.
fn quoted_end_at(s: &Vec<char>, i: usize, d: char) -> (e: usize)
    requires
        i < s.len(),
        d != '\\',
    ensures
        e == quoted_end(s@, i as int, d),
        i < e <= s.len(),
{
    let mut j = i + 1;
    loop
        invariant
            i < j <= s.len(),
            d != '\\',
            quoted_body_end(s@, j as int, d) == quoted_body_end(s@, i + 1, d),
        decreases s.len() - j,
    {
        if j >= s.len() {
            return j;
        }
        let c = s[j];
        if c == d {
            return j + 1;
        }
        if c == '\\' && j + 1 < s.len() {
            j = j + 2;
        } else {
            j = j + 1;
        }
    }
}

/// Where the bracketed key opened at `i` ends.
fn bracket_end_at(s: &Vec<char>, i: usize) -> (e: usize)
    requires
        i < s.len(),
    ensures
        e == bracket_end(s@, i as int),
        i < e <= s.len(),
{
    let mut j = i + 1;
    loop
        invariant
            i < j <= s.len(),
            bracket_body_end(s@, j as int) == bracket_body_end(s@, i + 1),
        decreases s.len() - j,
    {
        if j >= s.len() {
            return j;
        }
        if s[j] == ']' {
            return j + 1;
        }
        j = j + 1;
    }
}

/// Where the parenthesised chunk opened at `i` ends, entered with `budget`
/// crossings left; `i` itself when the budget is spent.
fn paren_end_at(s: &Vec<char>, i: usize, budget: usize) -> (e: usize)
    requires
        i < s.len(),
    ensures
        e == paren_end(s@, i as int, budget as nat),
        i <= e <= s.len(),
        budget > 0 ==> i < e,
    decreases budget,
{
    if budget == 0 {
        return i;
    }
    let inner = budget - 1;
    let mut j = i + 1;
    loop
        invariant
            i < j <= s.len(),
            inner == budget - 1,
            paren_body_end(s@, j as int, inner as nat) == paren_body_end(s@, i + 1, inner as nat),
        decreases s.len() - j,
    {
        if j >= s.len() {
            return j;
        }
        let c = s[j];
        let e = if c == '(' {
            paren_end_at(s, j, inner)
        } else if c == '"' {
            quoted_end_at(s, j, '"')
        } else if c == '\'' {
            quoted_end_at(s, j, '\'')
        } else if c == '[' {
            bracket_end_at(s, j)
        } else if c == ')' {
            j
        } else {
            j + 1
        };
        if e <= j {
            if c == ')' {
                return j + 1;
            }
            return j;
        }
        j = e;
    }
}

/// Whether a separator starts at `j`.
fn separator_at_exec(s: &Vec<char>, j: usize) -> (r: bool)
    requires
        j < s.len(),
    ensures
        r == separator_at(s@, j as int),
{
    let c = s[j];
    c == '|' || c == ',' || c == '=' || c == ':' || c == ' ' || c == '\t' || c == '\n' || c == '\r'
        || (c == '&' && j + 1 < s.len() && s[j + 1] == '&')
}

/// Where the fragment of a text run that starts at `j` ends.
fn fragment_end_at(s: &Vec<char>, j: usize) -> (e: usize)
    requires
        j < s.len(),
    ensures
        e == fragment_end(s@, j as int),
        j < e <= s.len(),
{
    let c = s[j];
    if c == '"' {
        quoted_end_at(s, j, '"')
    } else if c == '\'' {
        quoted_end_at(s, j, '\'')
    } else if c == '(' {
        paren_end_at(s, j, DEFAULT_MAX_RECURSION_DEPTH)
    } else if c == '[' {
        bracket_end_at(s, j)
    } else {
        j + 1
    }
}

/// Where the text run that starts at `i` ends.
fn text_run_end_at(s: &Vec<char>, i: usize) -> (e: usize)
    requires
        i < s.len(),
        !separator_at(s@, i as int),
    ensures
        e == text_run_end(s@, i as int),
        i < e <= s.len(),
{
    let mut j = fragment_end_at(s, i);
    loop
        invariant
            i < j <= s.len(),
            text_run_end(s@, j as int) == text_run_end(s@, i as int),
        decreases s.len() - j,
    {
        if j >= s.len() || separator_at_exec(s, j) {
            return j;
        }
        j = fragment_end_at(s, j);
    }
}

/// The token that starts at `i`, and where it ends.
fn top_item_at(s: &Vec<char>, i: usize) -> (r: (Tok, usize))
    requires
        i < s.len(),
    ensures
        (r.0@, r.1 as int) == top_item(s@, i as int),
        i < r.1 <= s.len(),
{
    proof {
        reveal_strlit("||");
        reveal_strlit("&&");
        assert("||"@ =~= seq!['|', '|']);
        assert("&&"@ =~= seq!['&', '&']);
    }
    let c = s[i];
    let two = i + 1 < s.len();
    if c == '|' && two && s[i + 1] == '|' {
        (Tok::Reserved("||"), i + 2)
    } else if c == '&' && two && s[i + 1] == '&' {
        (Tok::Reserved("&&"), i + 2)
    } else if c == '|' {
        (Tok::Pipe, i + 1)
    } else if c == ',' {
        (Tok::Comma, i + 1)
    } else if c == '=' {
        (Tok::Eq, i + 1)
    } else if c == ':' {
        (Tok::Colon, i + 1)
    } else if c == ' ' || c == '\t' || c == '\n' || c == '\r' {
        (Tok::Ws(c), i + 1)
    } else {
        let e = text_run_end_at(s, i);
        (Tok::Text(collect_string(s, i, e)), e)
    }
}

/// Splits an expression into its top-level tokens. Every character of the
/// input lands in exactly one token, so the scan cannot fail.
pub fn scan_top_level(source: &str) -> (toks: Vec<Tok>)
    ensures
        toks@.map_values(|t: Tok| t@) == top_level_tokens(source@),
{
    let s = chars_of(source);
    let mut toks: Vec<Tok> = Vec::new();
    let mut i: usize = 0;
    while i < s.len()
        invariant
            s@ == source@,
            i <= s.len(),
            toks@.map_values(|t: Tok| t@) + tokens_from(s@, i as int) == tokens_from(s@, 0),
        decreases s.len() - i,
    {
        let (t, e) = top_item_at(&s, i);
        proof {
            assert(tokens_from(s@, i as int) == seq![t@] + tokens_from(s@, e as int));
        }
        let ghost before = toks@.map_values(|t: Tok| t@);
        toks.push(t);
        proof {
            assert(toks@.map_values(|t: Tok| t@) =~= before.push(t@));
            assert(before.push(t@) + tokens_from(s@, e as int) =~= before + (seq![t@]
                + tokens_from(s@, e as int)));
        }
        i = e;
    }
    proof {
        assert(tokens_from(s@, i as int) =~= Seq::<TokView>::empty());
        assert(toks@.map_values(|t: Tok| t@) + Seq::<TokView>::empty() =~= toks@.map_values(
            |t: Tok| t@,
        ));
    }
    toks
}

} // verus!
