//! The lexical pass of the template lexer.
//!
//! [`raw_lex`] cuts a template into lexical units: runs of text, block and
//! inline comments, raw blocks, triple-brace raw tags and double-brace tags.
//! Each unit records the byte offset just past it; a unit starts where the
//! previous one ended, so the units tile the template. A `{{` that opens no
//! complete unit stops the pass with a [`CompileError`].
//!
//! The grammar is stated over the characters of the template by the spec
//! functions below, and [`raw_lex`] is proved to return exactly the units
//! that [`lex_from`] describes.
use vstd::prelude::*;

use crate::text::{
    char_utf8_width, chars_of, collect_string, lemma_utf8_len_take_mono, lemma_utf8_len_take_step,
    str_byte_len, utf8_len,
};

verus! {

broadcast use vstd::string::group_string_axioms;

/// What kind of lexical unit a [`Lexeme`] is, with its text where it keeps one.
#[derive(Debug)]
pub enum LexKind {
    /// A run of text that does not start a `{{` tag.
    Text(String),
    /// `{{!-- … --}}`.
    BlockComment,
    /// `{{! … }}`.
    InlineComment,
    /// `{{{{#name}}}}…{{{{/name}}}}`: the content between the two markers.
    RawBlock(String),
    /// The inner text of a `{{{ … }}}` raw tag.
    RawTag(String),
    /// The inner text of a `{{ … }}` tag.
    StandardTag(String),
}

/// One lexical unit and the byte offset just past it.
#[derive(Debug)]
pub struct Lexeme {
    pub kind: LexKind,
    pub end: usize,
}

/// A failure to lex a template: a message, the file it concerns, and the
/// byte span it covers.
#[derive(Debug)]
pub struct CompileError {
    pub message: String,
    pub file: String,
    pub start: usize,
    pub end: usize,
}

/// A [`LexKind`] with its text taken as characters.
pub enum LexKindView {
    Text(Seq<char>),
    BlockComment,
    InlineComment,
    RawBlock(Seq<char>),
    RawTag(Seq<char>),
    StandardTag(Seq<char>),
}

/// A [`Lexeme`] as the contracts see it.
pub struct LexemeView {
    pub kind: LexKindView,
    pub end: nat,
}

impl View for LexKind {
    type V = LexKindView;

    open spec fn view(&self) -> LexKindView {
        match self {
            LexKind::Text(t) => LexKindView::Text(t@),
            LexKind::BlockComment => LexKindView::BlockComment,
            LexKind::InlineComment => LexKindView::InlineComment,
            LexKind::RawBlock(t) => LexKindView::RawBlock(t@),
            LexKind::RawTag(t) => LexKindView::RawTag(t@),
            LexKind::StandardTag(t) => LexKindView::StandardTag(t@),
        }
    }
}

impl View for Lexeme {
    type V = LexemeView;

    open spec fn view(&self) -> LexemeView {
        LexemeView { kind: self.kind@, end: self.end as nat }
    }
}

// ── Delimiters ───────────────────────────────────────────────────────────────
/// `{{`
pub open spec fn open2() -> Seq<char> {
    seq!['{', '{']
}

/// `{{{`
pub open spec fn open3() -> Seq<char> {
    seq!['{', '{', '{']
}

/// `}}`
pub open spec fn close2() -> Seq<char> {
    seq!['}', '}']
}

/// `}}}`
pub open spec fn close3() -> Seq<char> {
    seq!['}', '}', '}']
}

/// `}}}}`
pub open spec fn close4() -> Seq<char> {
    seq!['}', '}', '}', '}']
}

/// `{{!--`
pub open spec fn block_comment_open() -> Seq<char> {
    seq!['{', '{', '!', '-', '-']
}

/// `--}}`
pub open spec fn block_comment_close() -> Seq<char> {
    seq!['-', '-', '}', '}']
}

/// `{{!`
pub open spec fn inline_comment_open() -> Seq<char> {
    seq!['{', '{', '!']
}

/// `{{{{#`
pub open spec fn raw_block_open() -> Seq<char> {
    seq!['{', '{', '{', '{', '#']
}

/// `{{{{/`
pub open spec fn raw_block_close() -> Seq<char> {
    seq!['{', '{', '{', '{', '/']
}

// ── The grammar ──────────────────────────────────────────────────────────────
/// `pat` occurs in `s` at position `i`.
pub open spec fn occurs_at(s: Seq<char>, i: int, pat: Seq<char>) -> bool {
    0 <= i && i + pat.len() <= s.len() && s.subrange(i, i + pat.len()) == pat
}

/// The first position at or after `j` where `pat` occurs, or -1 when it
/// occurs nowhere from `j` on.
pub open spec fn find_from(s: Seq<char>, j: int, pat: Seq<char>) -> int
    decreases s.len() - j,
{
    if j < 0 || j + pat.len() > s.len() {
        -1
    } else if occurs_at(s, j, pat) {
        j
    } else if j >= s.len() {
        -1
    } else {
        find_from(s, j + 1, pat)
    }
}

/// The characters allowed in a raw-block name: ASCII letters and digits,
/// `_` and `-`.
pub open spec fn name_char(c: char) -> bool {
    ('a' <= c && c <= 'z') || ('A' <= c && c <= 'Z') || ('0' <= c && c <= '9') || c == '_' || c
        == '-'
}

/// Where the run of name characters that starts at `j` ends.
pub open spec fn name_end(s: Seq<char>, j: int) -> int
    decreases s.len() - j,
{
    if 0 <= j < s.len() && name_char(s[j]) {
        name_end(s, j + 1)
    } else {
        j
    }
}

/// A unit that opens with `open` at `i` and runs to the first `close` after
/// the opener: its inner text's bounds and where the unit ends.
pub open spec fn delimited(s: Seq<char>, i: int, open: Seq<char>, close: Seq<char>) -> Option<
    (int, int, int),
> {
    let from = i + open.len();
    let k = find_from(s, from, close);
    if occurs_at(s, i, open) && k >= 0 {
        Some((from, k, k + close.len()))
    } else {
        None
    }
}

/// The raw block that starts at `i`, if one does: `{{{{#name}}}}`, the
/// content up to the first `{{{{/`, then `name}}}}` with the same name.
pub open spec fn raw_block_at(s: Seq<char>, i: int) -> Option<(LexKindView, int)> {
    let n1 = i + 5;
    let n1e = name_end(s, n1);
    let c = n1e + 4;
    let k = find_from(s, c, raw_block_close());
    let n2 = k + 5;
    let n2e = name_end(s, n2);
    if occurs_at(s, i, raw_block_open()) && n1e > n1 && occurs_at(s, n1e, close4()) && k >= 0
        && n2e > n2 && occurs_at(s, n2e, close4()) && s.subrange(n1, n1e) == s.subrange(n2, n2e) {
        Some((LexKindView::RawBlock(s.subrange(c, k)), n2e + 4))
    } else {
        None
    }
}

/// Where the text run that starts at `i` ends: before the next `{{`, or at
/// the end of the input.
pub open spec fn text_end(s: Seq<char>, i: int) -> int {
    let k = find_from(s, i, open2());
    if k < 0 {
        s.len() as int
    } else {
        k
    }
}

/// The unit that starts at `i` and where it ends. The alternatives are tried
/// in order: block comment, inline comment, raw block, raw tag, tag, text.
pub open spec fn lex_unit(s: Seq<char>, i: int) -> Option<(LexKindView, int)> {
    if let Some((_, _, e)) = delimited(s, i, block_comment_open(), block_comment_close()) {
        Some((LexKindView::BlockComment, e))
    } else if let Some((_, _, e)) = delimited(s, i, inline_comment_open(), close2()) {
        Some((LexKindView::InlineComment, e))
    } else if raw_block_at(s, i) is Some {
        raw_block_at(s, i)
    } else if let Some((a, b, e)) = delimited(s, i, open3(), close3()) {
        Some((LexKindView::RawTag(s.subrange(a, b)), e))
    } else if let Some((a, b, e)) = delimited(s, i, open2(), close2()) {
        Some((LexKindView::StandardTag(s.subrange(a, b)), e))
    } else if !occurs_at(s, i, open2()) {
        Some((LexKindView::Text(s.subrange(i, text_end(s, i))), text_end(s, i)))
    } else {
        None
    }
}

/// The units of `s` from position `i` on, each with the character position
/// just past it, and the position where lexing stops.
pub open spec fn lex_from(s: Seq<char>, i: int) -> (Seq<(LexKindView, int)>, int)
    decreases s.len() - i,
{
    if 0 <= i < s.len() {
        match lex_unit(s, i) {
            Some((k, e)) => {
                if i < e <= s.len() {
                    let (rest, stop) = lex_from(s, e);
                    (seq![(k, e)] + rest, stop)
                } else {
                    (Seq::empty(), i)
                }
            },
            None => (Seq::empty(), i),
        }
    } else {
        (Seq::empty(), i)
    }
}

/// The units as [`Lexeme`]s: their ends counted in bytes of the UTF-8 text.
pub open spec fn lexeme_views(s: Seq<char>, units: Seq<(LexKindView, int)>) -> Seq<LexemeView> {
    units.map_values(|u: (LexKindView, int)| LexemeView { kind: u.0, end: utf8_len(s.take(u.1)) })
}

/// The message of the error for a template that stops at an unfinished tag.
pub open spec fn unterminated_message() -> Seq<char> {
    "unterminated tag while lexing template"@
}

// ── Facts about the grammar ──────────────────────────────────────────────────
/// The ends of `units` lie strictly between `lo` and `hi` (`hi` allowed) and
/// strictly increase.
pub open spec fn ends_increase(units: Seq<(LexKindView, int)>, lo: int, hi: int) -> bool {
    &&& forall|k: int| 0 <= k < units.len() ==> lo < #[trigger] units[k].1 <= hi
    &&& forall|a: int, b: int| 0 <= a < b < units.len() ==> #[trigger] units[a].1 < #[trigger] units[b].1
}

/// The units from `i` on follow each other: each ends after the previous
/// one (the first after `i`), and the last ends where lexing stops, which is
/// no later than the end of the input.
proof fn lemma_lex_from_tiles(s: Seq<char>, i: int)
    requires
        0 <= i <= s.len(),
    ensures
        ({
            let (units, stop) = lex_from(s, i);
            &&& i <= stop <= s.len()
            &&& ends_increase(units, i, stop)
            &&& units.len() > 0 ==> units.last().1 == stop
            &&& units.len() == 0 ==> stop == i
        }),
    decreases s.len() - i,
{
    if i < s.len() {
        if let Some((kind, e)) = lex_unit(s, i) {
            if i < e <= s.len() {
                lemma_lex_from_tiles(s, e);
                let (rest, stop) = lex_from(s, e);
                let units = lex_from(s, i).0;
                assert(units =~= seq![(kind, e)] + rest);
                assert forall|k: int| 0 <= k < units.len() implies i < #[trigger] units[k].1
                    <= stop by {
                    if k > 0 {
                        assert(units[k] == rest[k - 1]);
                    }
                }
                assert forall|a: int, b: int| 0 <= a < b < units.len() implies #[trigger] units[a].1
                    < #[trigger] units[b].1 by {
                    assert(units[b] == rest[b - 1]);
                    if a > 0 {
                        assert(units[a] == rest[a - 1]);
                    }
                }
                if rest.len() > 0 {
                    assert(units.last() == rest.last());
                }
            }
        }
    }
}

/// Units whose character ends strictly increase up to `stop` have strictly
/// increasing byte ends, the last being the byte length of `s[..stop]`.
proof fn lemma_views_increase(s: Seq<char>, units: Seq<(LexKindView, int)>, stop: int)
    requires
        0 <= stop <= s.len(),
        ends_increase(units, 0, stop),
        units.len() > 0 ==> units.last().1 == stop,
    ensures
        ({
            let v = lexeme_views(s, units);
            &&& v.len() == units.len()
            &&& forall|k: int| 0 <= k < v.len() ==> 0 < #[trigger] v[k].end
            &&& forall|a: int, b: int| 0 <= a < b < v.len() ==> #[trigger] v[a].end < #[trigger] v[b].end
            &&& v.len() > 0 ==> v.last().end == utf8_len(s.take(stop))
        }),
{
    let v = lexeme_views(s, units);
    assert forall|k: int| 0 <= k < v.len() implies 0 < #[trigger] v[k].end by {
        lemma_utf8_len_take_mono(s, 0, units[k].1);
    }
    assert forall|a: int, b: int| 0 <= a < b < v.len() implies #[trigger] v[a].end < #[trigger] v[b].end by {
        lemma_utf8_len_take_mono(s, units[a].1, units[b].1);
    }
}

/// The lexical units of a template that lexes completely tile it: their
/// byte ends strictly increase from the start, and the last one is the
/// byte length of the template.
pub proof fn lemma_lexemes_tile(s: Seq<char>)
    requires
        lex_from(s, 0).1 == s.len(),
    ensures
        ({
            let v = lexeme_views(s, lex_from(s, 0).0);
            &&& forall|k: int| 0 <= k < v.len() ==> 0 < #[trigger] v[k].end
            &&& forall|a: int, b: int| 0 <= a < b < v.len() ==> #[trigger] v[a].end < #[trigger] v[b].end
            &&& s.len() > 0 ==> v.len() > 0 && v.last().end == utf8_len(s)
            &&& s.len() == 0 ==> v.len() == 0
        }),
{
    lemma_lex_from_tiles(s, 0);
    let (units, stop) = lex_from(s, 0);
    lemma_views_increase(s, units, stop);
    assert(s.take(s.len() as int) =~= s);
}

// ── Laws of the lexical units ────────────────────────────────────────────────
proof fn lemma_find_from_first(s: Seq<char>, j: int, k: int, pat: Seq<char>)
    requires
        0 <= j <= k,
        occurs_at(s, k, pat),
        forall|m: int| j <= m < k ==> !occurs_at(s, m, pat),
    ensures
        find_from(s, j, pat) == k,
    decreases k - j,
{
    if j < k {
        assert(!occurs_at(s, j, pat));
        lemma_find_from_first(s, j + 1, k, pat);
    }
}

/// A block comment runs from `{{!--` to the first `--}}` after it, whatever
/// its body holds (tags and `}}` included).
pub proof fn lemma_block_comment_runs_to_first_close(s: Seq<char>, i: int, k: int)
    requires
        0 <= i,
        i + 5 <= k,
        k + 4 <= s.len(),
        s.subrange(i, i + 5) == seq!['{', '{', '!', '-', '-'],
        s.subrange(k, k + 4) == seq!['-', '-', '}', '}'],
        forall|m: int| i + 5 <= m < k ==> !#[trigger] occurs_at(s, m, block_comment_close()),
    ensures
        lex_unit(s, i) == Some((LexKindView::BlockComment, k + 4)),
{
    assert(block_comment_close() =~= seq!['-', '-', '}', '}']);
    assert(occurs_at(s, i, block_comment_open()));
    assert(occurs_at(s, k, block_comment_close()));
    lemma_find_from_first(s, i + 5, k, block_comment_close());
}

/// A `{{` tag that opens no comment and no triple-brace tag runs to the
/// first `}}` after its opener, and keeps the text between them.
pub proof fn lemma_tag_runs_to_first_close(s: Seq<char>, i: int, k: int)
    requires
        0 <= i,
        i + 2 <= k,
        k + 2 <= s.len(),
        s[i] == '{' && s[i + 1] == '{',
        s[i + 2] != '!' && s[i + 2] != '{',
        s[k] == '}' && s[k + 1] == '}',
        forall|m: int| i + 2 <= m < k ==> !#[trigger] occurs_at(s, m, close2()),
    ensures
        lex_unit(s, i) == Some((LexKindView::StandardTag(s.subrange(i + 2, k)), k + 2)),
{
    assert(s.subrange(i, i + 2) =~= open2());
    assert(s.subrange(k, k + 2) =~= close2());
    assert(!occurs_at(s, i, block_comment_open()) && !occurs_at(s, i, inline_comment_open())) by {
        if occurs_at(s, i, block_comment_open()) {
            assert(s.subrange(i, i + 5)[2] == s[i + 2]);
        }
        if occurs_at(s, i, inline_comment_open()) {
            assert(s.subrange(i, i + 3)[2] == s[i + 2]);
        }
    }
    assert(!occurs_at(s, i, raw_block_open()) && !occurs_at(s, i, open3())) by {
        if occurs_at(s, i, raw_block_open()) {
            assert(s.subrange(i, i + 5)[2] == s[i + 2]);
        }
        if occurs_at(s, i, open3()) {
            assert(s.subrange(i, i + 3)[2] == s[i + 2]);
        }
    }
    lemma_find_from_first(s, i + 2, k, close2());
}

/// A `{{{` tag that opens no raw block runs to the first `}}}` after its
/// opener, and keeps the text between them.
pub proof fn lemma_raw_tag_runs_to_first_close(s: Seq<char>, i: int, k: int)
    requires
        0 <= i,
        i + 3 <= k,
        k + 3 <= s.len(),
        s[i] == '{' && s[i + 1] == '{' && s[i + 2] == '{',
        !(s[i + 3] == '{' && i + 4 < s.len() && s[i + 4] == '#'),
        s[k] == '}' && s[k + 1] == '}' && s[k + 2] == '}',
        forall|m: int| i + 3 <= m < k ==> !#[trigger] occurs_at(s, m, close3()),
    ensures
        lex_unit(s, i) == Some((LexKindView::RawTag(s.subrange(i + 3, k)), k + 3)),
{
    assert(s.subrange(i, i + 3) =~= open3());
    assert(s.subrange(k, k + 3) =~= close3());
    assert(!occurs_at(s, i, block_comment_open()) && !occurs_at(s, i, inline_comment_open())) by {
        if occurs_at(s, i, block_comment_open()) {
            assert(s.subrange(i, i + 5)[2] == s[i + 2]);
        }
        if occurs_at(s, i, inline_comment_open()) {
            assert(s.subrange(i, i + 3)[2] == s[i + 2]);
        }
    }
    assert(!occurs_at(s, i, raw_block_open())) by {
        if occurs_at(s, i, raw_block_open()) {
            assert(s.subrange(i, i + 5)[3] == s[i + 3]);
            assert(s.subrange(i, i + 5)[4] == s[i + 4]);
        }
    }
    lemma_find_from_first(s, i + 3, k, close3());
}

/// A template that is `{{!--`, a body, and `--}}` lexes as a single block
/// comment spanning all of it when no `--}}` begins inside the body.
pub proof fn lemma_whole_block_comment(b: Seq<char>)
    requires
        forall|m: int|
            0 <= m < b.len() ==> !#[trigger] occurs_at(
                b + block_comment_close(),
                m,
                block_comment_close(),
            ),
    ensures
        ({
            let s = seq!['{', '{', '!', '-', '-'] + b + seq!['-', '-', '}', '}'];
            lex_from(s, 0) == (seq![(LexKindView::BlockComment, s.len() as int)], s.len() as int)
        }),
{
    let close = block_comment_close();
    let t = b + close;
    let s = seq!['{', '{', '!', '-', '-'] + b + close;
    let k: int = b.len() as int + 5;
    assert(s.subrange(0, 5) =~= seq!['{', '{', '!', '-', '-']);
    assert(s.subrange(k, k + 4) =~= close);
    assert forall|m: int| 5 <= m < k implies !#[trigger] occurs_at(s, m, close) by {
        assert(!occurs_at(t, m - 5, close));
        assert(s.subrange(m, m + 4) =~= t.subrange(m - 5, m - 1));
    }
    lemma_block_comment_runs_to_first_close(s, 0, k);
    assert(lex_from(s, s.len() as int) == (Seq::<(LexKindView, int)>::empty(), s.len() as int));
    assert(lex_from(s, 0).0 =~= seq![(LexKindView::BlockComment, s.len() as int)]);
}

// ── The lexer ────────────────────────────────────────────────────────────────
/// Whether `c` may appear in a raw-block name.
pub fn is_name_char(c: char) -> (r: bool)
    ensures
        r == name_char(c),
{
    ('a' <= c && c <= 'z') || ('A' <= c && c <= 'Z') || ('0' <= c && c <= '9') || c == '_' || c
        == '-'
}

/// Whether `pat` occurs in `s` at position `i`.
fn occurs_at_exec(s: &Vec<char>, i: usize, pat: &Vec<char>) -> (r: bool)
    ensures
        r == occurs_at(s@, i as int, pat@),
{
    if pat.len() > s.len() || i > s.len() - pat.len() {
        return false;
    }
    let mut k: usize = 0;
    while k < pat.len()
        invariant
            i + pat.len() <= s.len(),
            k <= pat.len(),
            s@.subrange(i as int, i + k) == pat@.take(k as int),
        decreases pat.len() - k,
    {
        if s[i + k] != pat[k] {
            proof {
                assert(s@.subrange(i as int, i + pat.len())[k as int] == s@[i + k]);
            }
            return false;
        }
        proof {
            assert(s@.subrange(i as int, i + k + 1) =~= s@.subrange(i as int, i + k).push(
                s@[i + k],
            ));
            assert(pat@.take(k + 1) =~= pat@.take(k as int).push(pat@[k as int]));
        }
        k = k + 1;
    }
    proof {
        assert(pat@.take(pat.len() as int) =~= pat@);
    }
    true
}

/// The first position at or after `j` where `pat` occurs.
fn find_from_exec(s: &Vec<char>, j: usize, pat: &Vec<char>) -> (r: Option<usize>)
    requires
        j <= s.len(),
        pat@.len() > 0,
    ensures
        match r {
            Some(k) => k as int == find_from(s@, j as int, pat@) && j <= k && k + pat.len()
                <= s.len() && occurs_at(s@, k as int, pat@),
            None => find_from(s@, j as int, pat@) == -1,
        },
{
    if pat.len() > s.len() {
        return None;
    }
    let last = s.len() - pat.len();
    let mut k = j;
    while k <= last
        invariant
            last == s.len() - pat.len(),
            pat@.len() > 0,
            j <= k,
            find_from(s@, k as int, pat@) == find_from(s@, j as int, pat@),
        decreases last + 1 - k,
    {
        if occurs_at_exec(s, k, pat) {
            return Some(k);
        }
        k = k + 1;
    }
    None
}

/// Where the run of name characters that starts at `j` ends.
fn name_end_exec(s: &Vec<char>, j: usize) -> (e: usize)
    requires
        j <= s.len(),
    ensures
        e == name_end(s@, j as int),
        j <= e <= s.len(),
{
    let mut k = j;
    while k < s.len() && is_name_char(s[k])
        invariant
            j <= k <= s.len(),
            name_end(s@, k as int) == name_end(s@, j as int),
        decreases s.len() - k,
    {
        k = k + 1;
    }
    k
}

/// The delimiters, as vectors of characters.
struct Delims {
    open2: Vec<char>,
    open3: Vec<char>,
    close2: Vec<char>,
    close3: Vec<char>,
    close4: Vec<char>,
    block_open: Vec<char>,
    block_close: Vec<char>,
    inline_open: Vec<char>,
    raw_open: Vec<char>,
    raw_close: Vec<char>,
}

impl Delims {
    spec fn wf(&self) -> bool {
        &&& self.open2@ == open2()
        &&& self.open3@ == open3()
        &&& self.close2@ == close2()
        &&& self.close3@ == close3()
        &&& self.close4@ == close4()
        &&& self.block_open@ == block_comment_open()
        &&& self.block_close@ == block_comment_close()
        &&& self.inline_open@ == inline_comment_open()
        &&& self.raw_open@ == raw_block_open()
        &&& self.raw_close@ == raw_block_close()
    }

    fn new() -> (d: Self)
        ensures
            d.wf(),
    {
        Delims {
            open2: vec!['{', '{'],
            open3: vec!['{', '{', '{'],
            close2: vec!['}', '}'],
            close3: vec!['}', '}', '}'],
            close4: vec!['}', '}', '}', '}'],
            block_open: vec!['{', '{', '!', '-', '-'],
            block_close: vec!['-', '-', '}', '}'],
            inline_open: vec!['{', '{', '!'],
            raw_open: vec!['{', '{', '{', '{', '#'],
            raw_close: vec!['{', '{', '{', '{', '/'],
        }
    }
}

/// The unit that opens with `open` at `i` and runs to the first `close`.
fn delimited_exec(s: &Vec<char>, i: usize, open: &Vec<char>, close: &Vec<char>) -> (r: Option<
    (usize, usize, usize),
>)
    requires
        i < s.len(),
        open@.len() <= 5,
        close@.len() > 0,
    ensures
        match r {
            Some((a, b, e)) => delimited(s@, i as int, open@, close@) == Some(
                (a as int, b as int, e as int),
            ) && a <= b && b < e <= s.len(),
            None => delimited(s@, i as int, open@, close@) is None,
        },
{
    if !occurs_at_exec(s, i, open) {
        return None;
    }
    let from = i + open.len();
    match find_from_exec(s, from, close) {
        None => None,
        Some(k) => Some((from, k, k + close.len())),
    }
}

/// Whether `s[a1..b1]` and `s[a2..b2]` hold the same characters.
fn same_chars(s: &Vec<char>, a1: usize, b1: usize, a2: usize, b2: usize) -> (r: bool)
    requires
        a1 <= b1 <= s.len(),
        a2 <= b2 <= s.len(),
    ensures
        r == (s@.subrange(a1 as int, b1 as int) == s@.subrange(a2 as int, b2 as int)),
{
    if b1 - a1 != b2 - a2 {
        proof {
            assert(s@.subrange(a1 as int, b1 as int).len() != s@.subrange(a2 as int, b2 as int).len());
        }
        return false;
    }
    let n = b1 - a1;
    let mut k: usize = 0;
    while k < n
        invariant
            n == b1 - a1,
            n == b2 - a2,
            a1 <= b1 <= s.len(),
            a2 <= b2 <= s.len(),
            k <= n,
            s@.subrange(a1 as int, a1 + k) == s@.subrange(a2 as int, a2 + k),
        decreases n - k,
    {
        if s[a1 + k] != s[a2 + k] {
            proof {
                assert(s@.subrange(a1 as int, b1 as int)[k as int] == s@[a1 + k]);
                assert(s@.subrange(a2 as int, b2 as int)[k as int] == s@[a2 + k]);
            }
            return false;
        }
        proof {
            assert(s@.subrange(a1 as int, a1 + k + 1) =~= s@.subrange(a1 as int, a1 + k).push(
                s@[a1 + k],
            ));
            assert(s@.subrange(a2 as int, a2 + k + 1) =~= s@.subrange(a2 as int, a2 + k).push(
                s@[a2 + k],
            ));
        }
        k = k + 1;
    }
    true
}

/// The raw block that starts at `i`, if one does.
fn raw_block_exec(s: &Vec<char>, i: usize, d: &Delims) -> (r: Option<(LexKind, usize)>)
    requires
        i < s.len(),
        d.wf(),
    ensures
        match r {
            Some((k, e)) => raw_block_at(s@, i as int) == Some((k@, e as int)) && i < e <= s.len(),
            None => raw_block_at(s@, i as int) is None,
        },
{
    if !occurs_at_exec(s, i, &d.raw_open) {
        return None;
    }
    let n1 = i + 5;
    let n1e = name_end_exec(s, n1);
    if n1e <= n1 || !occurs_at_exec(s, n1e, &d.close4) {
        return None;
    }
    let c = n1e + 4;
    match find_from_exec(s, c, &d.raw_close) {
        None => None,
        Some(k) => {
            let n2 = k + 5;
            let n2e = name_end_exec(s, n2);
            if n2e <= n2 || !occurs_at_exec(s, n2e, &d.close4) {
                return None;
            }
            if !same_chars(s, n1, n1e, n2, n2e) {
                return None;
            }
            Some((LexKind::RawBlock(collect_string(s, c, k)), n2e + 4))
        },
    }
}

/// The unit that starts at `i` and where it ends.
fn lex_unit_exec(s: &Vec<char>, i: usize, d: &Delims) -> (r: Option<(LexKind, usize)>)
    requires
        i < s.len(),
        d.wf(),
    ensures
        match r {
            Some((k, e)) => lex_unit(s@, i as int) == Some((k@, e as int)) && i < e <= s.len(),
            None => lex_unit(s@, i as int) is None,
        },
{
    if let Some((_, _, e)) = delimited_exec(s, i, &d.block_open, &d.block_close) {
        return Some((LexKind::BlockComment, e));
    }
    if let Some((_, _, e)) = delimited_exec(s, i, &d.inline_open, &d.close2) {
        return Some((LexKind::InlineComment, e));
    }
    if let Some((kind, e)) = raw_block_exec(s, i, d) {
        return Some((kind, e));
    }
    if let Some((a, b, e)) = delimited_exec(s, i, &d.open3, &d.close3) {
        return Some((LexKind::RawTag(collect_string(s, a, b)), e));
    }
    if let Some((a, b, e)) = delimited_exec(s, i, &d.open2, &d.close2) {
        return Some((LexKind::StandardTag(collect_string(s, a, b)), e));
    }
    if occurs_at_exec(s, i, &d.open2) {
        return None;
    }
    let t = match find_from_exec(s, i, &d.open2) {
        None => s.len(),
        Some(k) => k,
    };
    Some((LexKind::Text(collect_string(s, i, t)), t))
}

/// The byte offset of each character position of `s`, the end included.
fn byte_offsets(s: &Vec<char>, total: usize) -> (offs: Vec<usize>)
    requires
        total == utf8_len(s@),
    ensures
        offs.len() == s.len() + 1,
        forall|k: int| 0 <= k <= s.len() ==> offs@[k] == utf8_len(#[trigger] s@.take(k)),
{
    let mut offs: Vec<usize> = Vec::new();
    let mut off: usize = 0;
    proof {
        assert(s@.take(0) =~= Seq::<char>::empty());
        assert(utf8_len(Seq::<char>::empty()) == 0) by {
            assert(vstd::utf8::encode_utf8(Seq::<char>::empty()) =~= Seq::<u8>::empty());
        }
    }
    offs.push(off);
    let mut k: usize = 0;
    while k < s.len()
        invariant
            total == utf8_len(s@),
            k <= s.len(),
            offs.len() == k + 1,
            off == utf8_len(s@.take(k as int)),
            forall|m: int| 0 <= m <= k ==> offs@[m] == utf8_len(#[trigger] s@.take(m)),
        decreases s.len() - k,
    {
        proof {
            lemma_utf8_len_take_step(s@, k as int);
        }
        let w = char_utf8_width(s[k]);
        off = off + w;
        offs.push(off);
        k = k + 1;
    }
    offs
}

/// Cuts `source` into its lexical units. When a `{{` opens no complete unit,
/// the error says so and spans from the bytes consumed up to then to the
/// end of the source.
pub fn raw_lex(source: &str) -> (r: Result<Vec<Lexeme>, CompileError>)
    ensures
        ({
            let (units, stop) = lex_from(source@, 0);
            match r {
                Ok(v) => stop == source@.len() && v@.map_values(|l: Lexeme| l@) == lexeme_views(
                    source@,
                    units,
                ),
                Err(e) => stop < source@.len() && e.message@ == unterminated_message() && e.file@
                    == Seq::<char>::empty() && e.start == utf8_len(source@.take(stop)) && e.end
                    == utf8_len(source@),
            }
        }),
{
    let s = chars_of(source);
    let total = str_byte_len(source);
    let offs = byte_offsets(&s, total);
    let d = Delims::new();
    let mut out: Vec<Lexeme> = Vec::new();
    let mut i: usize = 0;
    loop
        invariant
            s@ == source@,
            d.wf(),
            total == utf8_len(s@),
            offs.len() == s.len() + 1,
            forall|k: int| 0 <= k <= s.len() ==> offs@[k] == utf8_len(#[trigger] s@.take(k)),
            i <= s.len(),
            lex_from(s@, i as int).1 == lex_from(s@, 0).1,
            out@.map_values(|l: Lexeme| l@) + lexeme_views(s@, lex_from(s@, i as int).0)
                == lexeme_views(s@, lex_from(s@, 0).0),
        decreases s.len() - i,
    {
        if i >= s.len() {
            proof {
                assert(lex_from(s@, i as int).0 =~= Seq::<(LexKindView, int)>::empty());
                assert(out@.map_values(|l: Lexeme| l@) + lexeme_views(s@, Seq::empty())
                    =~= out@.map_values(|l: Lexeme| l@));
            }
            return Ok(out);
        }
        match lex_unit_exec(&s, i, &d) {
            None => {
                return Err(
                    CompileError {
                        message: "unterminated tag while lexing template".to_string(),
                        file: String::new(),
                        start: offs[i],
                        end: total,
                    },
                );
            },
            Some((kind, e)) => {
                let ghost unit = (kind@, e as int);
                let ghost before = out@.map_values(|l: Lexeme| l@);
                let lexeme = Lexeme { kind, end: offs[e] };
                proof {
                    let rest = lex_from(s@, e as int).0;
                    assert(lex_from(s@, i as int).0 == seq![unit] + rest);
                    assert(lexeme_views(s@, seq![unit] + rest) =~= seq![lexeme@] + lexeme_views(
                        s@,
                        rest,
                    ));
                }
                out.push(lexeme);
                proof {
                    assert(out@.map_values(|l: Lexeme| l@) =~= before.push(lexeme@));
                    assert(before.push(lexeme@) + lexeme_views(s@, lex_from(s@, e as int).0)
                        =~= before + (seq![lexeme@] + lexeme_views(s@, lex_from(s@, e as int).0)));
                }
                i = e;
            },
        }
    }
}

/// How many backslashes end `s`.
pub open spec fn trailing_backslash_count(s: Seq<char>) -> nat
    decreases s.len(),
{
    if s.len() > 0 && s.last() == '\\' {
        1 + trailing_backslash_count(s.drop_last())
    } else {
        0
    }
}

/// The number of backslashes at the end of `text`.
pub fn trailing_backslashes(text: &str) -> (n: usize)
    ensures
        n == trailing_backslash_count(text@),
{
    let v = chars_of(text);
    trailing_backslashes_in(&v)
}

/// The number of backslashes at the end of `v`.
fn trailing_backslashes_in(v: &Vec<char>) -> (n: usize)
    ensures
        n == trailing_backslash_count(v@),
        n <= v.len(),
{
    let mut k = v.len();
    proof {
        assert(v@.take(k as int) =~= v@);
    }
    while k > 0 && v[k - 1] == '\\'
        invariant
            k <= v.len(),
            trailing_backslash_count(v@) == (v.len() - k) + trailing_backslash_count(
                v@.take(k as int),
            ),
        decreases k,
    {
        proof {
            assert(v@.take(k as int).drop_last() =~= v@.take(k - 1));
        }
        k = k - 1;
    }
    v.len() - k
}

// ── Assembly ─────────────────────────────────────────────────────────────────
/// What the assembly of lexical units hands on: each pending text run with
/// its byte span, flushed before every tag and once at the end (possibly
/// empty), and each tag with its inner text, whether it is a triple-brace
/// raw tag, and its byte span.
#[derive(Debug, PartialEq)]
pub enum Piece {
    Text { text: String, start: usize, end: usize },
    Tag { inner: String, triple: bool, start: usize, end: usize },
}

/// A [`Piece`] with its strings taken as characters.
pub enum PieceView {
    Text { text: Seq<char>, start: nat, end: nat },
    Tag { inner: Seq<char>, triple: bool, start: nat, end: nat },
}

impl View for Piece {
    type V = PieceView;

    open spec fn view(&self) -> PieceView {
        match self {
            Piece::Text { text, start, end } => PieceView::Text {
                text: text@,
                start: *start as nat,
                end: *end as nat,
            },
            Piece::Tag { inner, triple, start, end } => PieceView::Tag {
                inner: inner@,
                triple: *triple,
                start: *start as nat,
                end: *end as nat,
            },
        }
    }
}

/// The state of the assembly: the pieces handed on so far, the pending text
/// and the byte offset where it began, and the byte offset reached.
pub struct AssemblyState {
    pub pieces: Seq<PieceView>,
    pub text: Seq<char>,
    pub text_start: nat,
    pub cursor: nat,
}

/// The state before any unit.
pub open spec fn assembly_start() -> AssemblyState {
    AssemblyState { pieces: Seq::empty(), text: Seq::empty(), text_start: 0, cursor: 0 }
}

/// Flushes `text` as the pending run, hands on the tag `inner` that spans
/// from the cursor to `end`, and leaves no text pending.
pub open spec fn flush_then_tag(
    s: AssemblyState,
    text: Seq<char>,
    inner: Seq<char>,
    triple: bool,
    end: nat,
) -> AssemblyState {
    AssemblyState {
        pieces: s.pieces + seq![
            PieceView::Text { text, start: s.text_start, end: s.cursor },
            PieceView::Tag { inner, triple, start: s.cursor, end },
        ],
        text: Seq::empty(),
        text_start: s.text_start,
        cursor: end,
    }
}

/// `text` extended by `more`; a run that starts the pending text starts at
/// the cursor.
pub open spec fn append_text(s: AssemblyState, more: Seq<char>, end: nat) -> AssemblyState {
    AssemblyState {
        pieces: s.pieces,
        text: s.text + more,
        text_start: if s.text.len() == 0 {
            s.cursor
        } else {
            s.text_start
        },
        cursor: end,
    }
}

/// One unit of assembly. Text and raw-block content join the pending text;
/// comments are dropped, so the text around them merges; a raw tag flushes
/// the pending text and is handed on. A tag after `N` backslashes loses one
/// of them: with `N = 1` the whole tag becomes literal text, with `N >= 2`
/// the rest are flushed as text and the tag is handed on.
pub open spec fn assembly_step(s: AssemblyState, l: LexemeView) -> AssemblyState {
    match l.kind {
        LexKindView::Text(run) => append_text(s, run, l.end),
        LexKindView::RawBlock(content) => append_text(s, content, l.end),
        LexKindView::BlockComment => AssemblyState {
            pieces: s.pieces,
            text: s.text,
            text_start: s.text_start,
            cursor: l.end,
        },
        LexKindView::InlineComment => AssemblyState {
            pieces: s.pieces,
            text: s.text,
            text_start: s.text_start,
            cursor: l.end,
        },
        LexKindView::StandardTag(inner) => {
            let n = trailing_backslash_count(s.text);
            if n == 1 {
                AssemblyState {
                    pieces: s.pieces,
                    text: s.text.drop_last() + open2() + inner + close2(),
                    text_start: s.text_start,
                    cursor: l.end,
                }
            } else if n >= 2 {
                flush_then_tag(s, s.text.drop_last(), inner, false, l.end)
            } else {
                flush_then_tag(s, s.text, inner, false, l.end)
            }
        },
        LexKindView::RawTag(inner) => flush_then_tag(s, s.text, inner, true, l.end),
    }
}

/// The assembly of the units `ls` from state `s`.
pub open spec fn assembly_fold(s: AssemblyState, ls: Seq<LexemeView>) -> AssemblyState
    decreases ls.len(),
{
    if ls.len() == 0 {
        s
    } else {
        assembly_fold(assembly_step(s, ls[0]), ls.drop_first())
    }
}

/// The pieces of a template of `source_len` bytes whose units are `ls`: the
/// pieces of the fold, then the text still pending, spanning to the end.
pub open spec fn assembled(ls: Seq<LexemeView>, source_len: nat) -> Seq<PieceView> {
    let f = assembly_fold(assembly_start(), ls);
    f.pieces.push(PieceView::Text { text: f.text, start: f.text_start, end: source_len })
}

/// Folding `a + b` is folding `a` and then `b`.
proof fn lemma_assembly_fold_concat(s: AssemblyState, a: Seq<LexemeView>, b: Seq<LexemeView>)
    ensures
        assembly_fold(s, a + b) == assembly_fold(assembly_fold(s, a), b),
    decreases a.len(),
{
    if a.len() > 0 {
        assert((a + b).drop_first() =~= a.drop_first() + b);
        assert((a + b)[0] == a[0]);
        lemma_assembly_fold_concat(assembly_step(s, a[0]), a.drop_first(), b);
    } else {
        assert(a + b =~= b);
    }
}

/// After a unit, the assembly cursor stands at that unit's end.
proof fn lemma_assembly_fold_cursor(s: AssemblyState, ls: Seq<LexemeView>)
    ensures
        assembly_fold(s, ls).cursor == (if ls.len() == 0 {
            s.cursor
        } else {
            ls.last().end
        }),
    decreases ls.len(),
{
    if ls.len() > 0 {
        lemma_assembly_fold_cursor(assembly_step(s, ls[0]), ls.drop_first());
        if ls.len() > 1 {
            assert(ls.drop_first().last() == ls.last());
        }
    }
}

/// The byte offset where unit `k` of `ls` begins: the end of the unit before
/// it, or 0 for the first.
pub open spec fn unit_start(ls: Seq<LexemeView>, k: int) -> nat {
    if k == 0 {
        0
    } else {
        ls[k - 1].end
    }
}

/// Every unit, comments included, moves the assembly to its end, so spans
/// follow the units: a tag handed on spans exactly its own unit, and a text
/// run that starts the pending text starts where its unit starts.
pub proof fn lemma_assembly_spans_follow_units(ls: Seq<LexemeView>, k: int)
    requires
        0 <= k < ls.len(),
    ensures
        ({
            let before = assembly_fold(assembly_start(), ls.take(k));
            let after = assembly_fold(assembly_start(), ls.take(k + 1));
            &&& before.cursor == unit_start(ls, k)
            &&& after.cursor == ls[k].end
            &&& (ls[k].kind matches LexKindView::RawTag(inner) ==> after.pieces.last()
                == PieceView::Tag { inner, triple: true, start: unit_start(ls, k), end: ls[k].end })
            &&& (ls[k].kind is StandardTag && after.pieces.len() > before.pieces.len()
                ==> after.pieces.last() == PieceView::Tag {
                inner: ls[k].kind->StandardTag_0,
                triple: false,
                start: unit_start(ls, k),
                end: ls[k].end,
            })
            &&& (ls[k].kind is Text && before.text.len() == 0 ==> after.text_start == unit_start(
                ls,
                k,
            ))
        }),
{
    lemma_assembly_fold_cursor(assembly_start(), ls.take(k));
    if k > 0 {
        assert(ls.take(k).last() == ls[k - 1]);
    }
    assert(ls.take(k + 1) =~= ls.take(k) + seq![ls[k]]);
    lemma_assembly_fold_concat(assembly_start(), ls.take(k), seq![ls[k]]);
    let before = assembly_fold(assembly_start(), ls.take(k));
    let one = seq![ls[k]];
    assert(one.drop_first() =~= Seq::<LexemeView>::empty());
    assert(one[0] == ls[k]);
    let stepped = assembly_step(before, ls[k]);
    assert(assembly_fold(stepped, Seq::<LexemeView>::empty()) == stepped);
    assert(assembly_fold(before, one) == assembly_fold(stepped, one.drop_first()));
}

/// The characters of `v` as a `String`.
fn string_of(v: &Vec<char>) -> (r: String)
    ensures
        r@ == v@,
{
    let r = collect_string(v, 0, v.len());
    proof {
        assert(v@.subrange(0, v@.len() as int) =~= v@);
    }
    r
}

/// Appends the characters of `s` to `v`.
fn extend_chars(v: &mut Vec<char>, s: &str)
    ensures
        final(v)@ == old(v)@ + s@,
{
    let cs = chars_of(s);
    let mut k: usize = 0;
    while k < cs.len()
        invariant
            k <= cs.len(),
            cs@ == s@,
            v@ == old(v)@ + cs@.take(k as int),
        decreases cs.len() - k,
    {
        proof {
            assert(cs@.take(k + 1) =~= cs@.take(k as int).push(cs@[k as int]));
        }
        v.push(cs[k]);
        k = k + 1;
    }
    proof {
        assert(cs@.take(cs.len() as int) =~= cs@);
    }
}

/// Folds the lexical units of a template of `source_len` bytes into the
/// text runs and tags handed on to the tag classifier: text merges across
/// comments, raw-block content is text, and backslashes before a `{{` tag
/// escape it.
pub fn assemble(lexemes: &Vec<Lexeme>, source_len: usize) -> (pieces: Vec<Piece>)
    ensures
        pieces@.map_values(|p: Piece| p@) == assembled(
            lexemes@.map_values(|l: Lexeme| l@),
            source_len as nat,
        ),
{
    let ghost ls = lexemes@.map_values(|l: Lexeme| l@);
    let mut pieces: Vec<Piece> = Vec::new();
    let mut text: Vec<char> = Vec::new();
    let mut text_start: usize = 0;
    let mut cursor: usize = 0;
    let mut i: usize = 0;
    proof {
        assert(pieces@.map_values(|p: Piece| p@) =~= Seq::<PieceView>::empty());
        assert(ls.skip(0) =~= ls);
    }
    while i < lexemes.len()
        invariant
            i <= lexemes.len(),
            ls == lexemes@.map_values(|l: Lexeme| l@),
            assembly_fold(
                AssemblyState {
                    pieces: pieces@.map_values(|p: Piece| p@),
                    text: text@,
                    text_start: text_start as nat,
                    cursor: cursor as nat,
                },
                ls.skip(i as int),
            ) == assembly_fold(assembly_start(), ls),
        decreases lexemes.len() - i,
    {
        let ghost s = AssemblyState {
            pieces: pieces@.map_values(|p: Piece| p@),
            text: text@,
            text_start: text_start as nat,
            cursor: cursor as nat,
        };
        proof {
            assert(ls.skip(i as int)[0] == ls[i as int]);
            assert(ls.skip(i as int).drop_first() =~= ls.skip(i + 1));
        }
        let lexeme = &lexemes[i];
        let end = lexeme.end;
        let mut flush: Option<(bool, &String)> = None;
        match &lexeme.kind {
            LexKind::Text(run) => {
                if text.len() == 0 {
                    text_start = cursor;
                }
                extend_chars(&mut text, run.as_str());
            },
            LexKind::RawBlock(content) => {
                if text.len() == 0 {
                    text_start = cursor;
                }
                extend_chars(&mut text, content.as_str());
            },
            LexKind::BlockComment => {},
            LexKind::InlineComment => {},
            LexKind::StandardTag(inner) => {
                let n = trailing_backslashes_in(&text);
                if n >= 1 {
                    text.pop();
                    proof {
                        assert(text@ =~= s.text.drop_last());
                    }
                    if n == 1 {
                        extend_chars(&mut text, "{{");
                        extend_chars(&mut text, inner.as_str());
                        extend_chars(&mut text, "}}");
                        proof {
                            reveal_strlit("{{");
                            reveal_strlit("}}");
                            assert("{{"@ =~= open2());
                            assert("}}"@ =~= close2());
                        }
                    } else {
                        flush = Some((false, inner));
                    }
                } else {
                    flush = Some((false, inner));
                }
            },
            LexKind::RawTag(inner) => {
                flush = Some((true, inner));
            },
        }
        if let Some((triple, inner)) = flush {
            let ghost before = pieces@.map_values(|p: Piece| p@);
            let flushed = Piece::Text { text: string_of(&text), start: text_start, end: cursor };
            let tag = Piece::Tag { inner: inner.clone(), triple, start: cursor, end };
            pieces.push(flushed);
            pieces.push(tag);
            text = Vec::new();
            proof {
                assert(pieces@.map_values(|p: Piece| p@) =~= before + seq![flushed@, tag@]);
            }
        }
        cursor = end;
        proof {
            assert(assembly_step(s, ls[i as int]) == AssemblyState {
                pieces: pieces@.map_values(|p: Piece| p@),
                text: text@,
                text_start: text_start as nat,
                cursor: cursor as nat,
            });
        }
        i = i + 1;
    }
    proof {
        assert(ls.skip(i as int) =~= Seq::<LexemeView>::empty());
    }
    let ghost before = pieces@.map_values(|p: Piece| p@);
    let last = Piece::Text { text: string_of(&text), start: text_start, end: source_len };
    pieces.push(last);
    proof {
        assert(pieces@.map_values(|p: Piece| p@) =~= before.push(last@));
    }
    pieces
}

} // verus!
