//! Position tracking: a [`Cursor`] and how it moves over consumed bytes.
use vstd::prelude::*;

verus! {

/// Position within the input, tracked as the parse advances. Column is
/// derivable as `byte_offset - line_start_offset`.
#[derive(Clone, Copy, Debug, PartialEq, Eq, Structural)]
pub struct Cursor {
    /// 1-based line number.
    pub line: usize,
    /// Byte offset of the start of the current line.
    pub line_start_offset: usize,
    /// Byte offset from the start of the input.
    pub byte_offset: usize,
}

/// The position at the start of an input: line 1, offset 0.
pub open spec fn start_cursor() -> Cursor {
    Cursor { line: 1, line_start_offset: 0, byte_offset: 0 }
}

impl Default for Cursor {
    fn default() -> (r: Self)
        ensures
            r == start_cursor(),
    {
        Cursor { line: 1, line_start_offset: 0, byte_offset: 0 }
    }
}

/// The byte value of `'\n'`.
pub open spec fn newline_byte() -> u8 {
    10u8
}

/// Number of `'\n'` bytes in `bytes`.
pub open spec fn newline_count(bytes: Seq<u8>) -> nat
    decreases bytes.len(),
{
    if bytes.len() == 0 {
        0
    } else {
        newline_count(bytes.drop_last()) + (if bytes.last() == newline_byte() {
            1nat
        } else {
            0nat
        })
    }
}

/// Offset of the start of the line on which a cursor at `start` lands after
/// moving over `bytes`: just past the last newline among them, or unchanged
/// when there is none.
pub open spec fn line_start_after(start: Cursor, bytes: Seq<u8>) -> int
    decreases bytes.len(),
{
    if bytes.len() == 0 {
        start.line_start_offset as int
    } else if bytes.last() == newline_byte() {
        start.byte_offset + bytes.len()
    } else {
        line_start_after(start, bytes.drop_last())
    }
}

/// `end` is where a cursor at `start` lands after moving over `bytes`: one
/// line further per newline, the line start just past the last newline, and
/// the byte offset advanced by the number of bytes.
pub open spec fn cursor_advanced(start: Cursor, bytes: Seq<u8>, end: Cursor) -> bool {
    &&& end.line == start.line + newline_count(bytes)
    &&& end.line_start_offset == line_start_after(start, bytes)
    &&& end.byte_offset == start.byte_offset + bytes.len()
}

/// Moving `start` over `bytes` stays within `usize`.
pub open spec fn advance_fits(start: Cursor, bytes: Seq<u8>) -> bool {
    &&& start.line + newline_count(bytes) <= usize::MAX
    &&& start.byte_offset + bytes.len() <= usize::MAX
}

/// A sequence holds no more newlines than bytes.
pub proof fn lemma_newline_count_bound(bytes: Seq<u8>)
    ensures
        newline_count(bytes) <= bytes.len(),
    decreases bytes.len(),
{
    if bytes.len() > 0 {
        lemma_newline_count_bound(bytes.drop_last());
    }
}

/// A prefix holds no more newlines than the whole.
pub proof fn lemma_newline_count_prefix(bytes: Seq<u8>, i: int)
    requires
        0 <= i <= bytes.len(),
    ensures
        newline_count(bytes.take(i)) <= newline_count(bytes),
    decreases bytes.len() - i,
{
    if i < bytes.len() {
        lemma_newline_count_prefix(bytes, i + 1);
        assert(bytes.take(i + 1).drop_last() =~= bytes.take(i));
    } else {
        assert(bytes.take(i) =~= bytes);
    }
}

/// Newlines of a concatenation add up.
pub proof fn lemma_newline_count_concat(a: Seq<u8>, b: Seq<u8>)
    ensures
        newline_count(a + b) == newline_count(a) + newline_count(b),
    decreases b.len(),
{
    if b.len() == 0 {
        assert(a + b =~= a);
    } else {
        lemma_newline_count_concat(a, b.drop_last());
        assert((a + b).drop_last() =~= a + b.drop_last());
        assert((a + b).last() == b.last());
    }
}

/// Moving over `a` and then over `b` lands where moving over `a + b` does.
pub proof fn lemma_cursor_advanced_concat(
    start: Cursor,
    a: Seq<u8>,
    mid: Cursor,
    b: Seq<u8>,
    end: Cursor,
)
    requires
        cursor_advanced(start, a, mid),
        cursor_advanced(mid, b, end),
    ensures
        cursor_advanced(start, a + b, end),
    decreases b.len(),
{
    lemma_newline_count_concat(a, b);
    lemma_line_start_concat(start, a, mid, b);
}

proof fn lemma_line_start_concat(start: Cursor, a: Seq<u8>, mid: Cursor, b: Seq<u8>)
    requires
        cursor_advanced(start, a, mid),
    ensures
        line_start_after(start, a + b) == line_start_after(mid, b),
    decreases b.len(),
{
    if b.len() == 0 {
        assert(a + b =~= a);
    } else {
        lemma_line_start_concat(start, a, mid, b.drop_last());
        assert((a + b).drop_last() =~= a + b.drop_last());
        assert((a + b).last() == b.last());
    }
}

proof fn lemma_line_start_bounds(start: Cursor, bytes: Seq<u8>)
    requires
        start.line_start_offset <= start.byte_offset,
    ensures
        start.line_start_offset <= line_start_after(start, bytes) <= start.byte_offset + bytes.len(),
    decreases bytes.len(),
{
    if bytes.len() > 0 {
        lemma_line_start_bounds(start, bytes.drop_last());
    }
}

/// Moving a cursor keeps its column defined: the line start stays at or
/// behind the byte offset, and neither the line number nor the line start
/// ever moves back.
pub proof fn lemma_advance_keeps_column(start: Cursor, bytes: Seq<u8>, end: Cursor)
    requires
        start.line_start_offset <= start.byte_offset,
        cursor_advanced(start, bytes, end),
    ensures
        end.line_start_offset <= end.byte_offset,
        start.line <= end.line,
        start.line_start_offset <= end.line_start_offset,
{
    lemma_line_start_bounds(start, bytes);
}

/// Where a cursor lands after moving over `bytes` is determined by where it
/// started.
pub proof fn lemma_cursor_advanced_unique(start: Cursor, bytes: Seq<u8>, e1: Cursor, e2: Cursor)
    requires
        cursor_advanced(start, bytes, e1),
        cursor_advanced(start, bytes, e2),
    ensures
        e1 == e2,
{
}

/// Moving over no bytes leaves a cursor where it is.
pub proof fn lemma_cursor_advanced_empty(start: Cursor, end: Cursor)
    requires
        cursor_advanced(start, Seq::<u8>::empty(), end),
    ensures
        end == start,
{
}

/// Advancing composes: moving over `a` and then over `b` lands exactly where
/// moving over `a + b` does, and a move over `a + b` that fits in `usize`
/// is made of moves over `a` and over `b` that fit too.
pub proof fn lemma_advance_composes(
    start: Cursor,
    a: Seq<u8>,
    mid: Cursor,
    b: Seq<u8>,
    end: Cursor,
    whole: Cursor,
)
    requires
        cursor_advanced(start, a, mid),
        cursor_advanced(mid, b, end),
        cursor_advanced(start, a + b, whole),
    ensures
        end == whole,
        advance_fits(start, a + b) ==> advance_fits(start, a) && advance_fits(mid, b),
{
    lemma_cursor_advanced_concat(start, a, mid, b, end);
    lemma_newline_count_concat(a, b);
}

/// Advances `cursor` past `consumed` bytes, tracking newlines.
pub(crate) fn advance(cursor: Cursor, consumed: &[u8]) -> (r: Cursor)
    requires
        advance_fits(cursor, consumed@),
    ensures
        cursor_advanced(cursor, consumed@, r),
{
    let mut new_line = cursor.line;
    let mut line_start = cursor.line_start_offset;
    let n = consumed.len();
    let mut idx: usize = 0;
    while idx < n
        invariant
            n == consumed@.len(),
            idx <= n,
            advance_fits(cursor, consumed@),
            new_line == cursor.line + newline_count(consumed@.take(idx as int)),
            line_start == line_start_after(cursor, consumed@.take(idx as int)),
        decreases n - idx,
    {
        let b = consumed[idx];
        proof {
            assert(consumed@.take(idx + 1).drop_last() =~= consumed@.take(idx as int));
            assert(consumed@.take(idx + 1).last() == b);
            lemma_newline_count_prefix(consumed@, idx + 1);
        }
        if b == 10u8 {
            new_line = new_line + 1;
            line_start = cursor.byte_offset + idx + 1;
        }
        idx = idx + 1;
    }
    proof {
        assert(consumed@.take(n as int) =~= consumed@);
    }
    Cursor { line: new_line, line_start_offset: line_start, byte_offset: cursor.byte_offset + n }
}

} // verus!
