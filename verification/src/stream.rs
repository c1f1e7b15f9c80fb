//! Input streams: text, bytes, and the streaming wrapper [`Partial`].
use vstd::prelude::*;
use vstd::slice::slice_subrange;
use vstd::string::*;
use vstd::utf8::*;

use crate::cursor::{advance, advance_fits, cursor_advanced, Cursor};
use crate::text::{
    char_width, has_prefix, lemma_boundary_after_prefix, lemma_encode_concat,
    lemma_encode_injective, push_char, split_first, str_byte_len, str_has_prefix, utf8_len,
};

verus! {

broadcast use vstd::slice::group_slice_axioms;

/// Whether this stream may be only a prefix of the full input.
///
/// Non-partial streams (`&str`, `&[u8]`) have `PARTIAL = false`: reaching the
/// end of input is a hard failure. [`Partial<S>`] has `PARTIAL = true`:
/// reaching the end of the current buffer means more data may follow.
pub trait StreamIsPartial {
    /// `true` for [`Partial<S>`]; `false` for complete-input streams.
    const PARTIAL: bool;
}

/// A position-trackable, backtrack-capable input source. The `Copy` bound
/// makes snapshotting (`let saved = *input`) the backtracking primitive.
///
/// A stream is made of *base units*: bytes for `&str` and `&[u8]`. Its
/// contents are described by [`unit_bytes`](Stream::unit_bytes), the bytes
/// that remain.
pub trait Stream: Copy + StreamIsPartial {
    /// One unit from this stream: `char` for text, `u8` for bytes.
    type Token: Copy + PartialEq + core::fmt::Debug;
    /// A borrowed sub-range of this stream.
    type Slice: Copy + PartialEq + core::fmt::Debug;

    /// The remaining base units, as bytes (for text, its UTF-8 encoding).
    spec fn unit_bytes(self) -> Seq<u8>;

    /// The first token and its width in base units, if any.
    spec fn first_spec(self) -> Option<(Self::Token, nat)>;

    /// `n` is an offset at which the stream may be split.
    spec fn valid_split(self, n: int) -> bool;

    /// `head` holds the first `n` base units of this stream and `tail` the rest.
    spec fn splits_into(self, n: int, head: Self::Slice, tail: Self) -> bool;

    /// `s` is the whole remaining stream as a slice.
    spec fn whole_slice(self, s: Self::Slice) -> bool;

    /// The text shown for the first `max` tokens.
    spec fn preview_spec(self, max: nat) -> Seq<char>;

    /// Returns the first token and its width in base units, or `None` if the
    /// stream is empty.
    fn first(self) -> (r: Option<(Self::Token, usize)>)
        ensures
            match r {
                None => self.first_spec() is None,
                Some((t, w)) => self.first_spec() == Some((t, w as nat)),
            },
    ;

    /// Splits the stream at base-unit offset `n`: `(consumed_slice, remainder)`.
    /// `n` must be a valid split point (see [`Stream::is_valid_split`]).
    fn split_at(self, n: usize) -> (r: (Self::Slice, Self))
        requires
            self.valid_split(n as int),
        ensures
            self.splits_into(n as int, r.0, r.1),
    ;

    /// Converts the entire remaining stream into a slice.
    fn as_slice(self) -> (r: Self::Slice)
        ensures
            self.whole_slice(r),
    ;

    /// The number of remaining base units.
    fn len(self) -> (r: usize)
        ensures
            r == self.unit_bytes().len(),
    ;

    /// `true` when there are no remaining base units.
    fn is_empty(self) -> (r: bool)
        ensures
            r == (self.unit_bytes().len() == 0),
    {
        self.len() == 0
    }

    /// Returns `true` if `n` is a valid split point.
    fn is_valid_split(self, n: usize) -> (r: bool)
        ensures
            r == self.valid_split(n as int),
    ;

    /// Advances `cursor` past the first `n` base units of this stream,
    /// scanning for newlines so line tracking stays accurate.
    fn advance_cursor(self, cursor: Cursor, n: usize) -> (r: Cursor)
        requires
            n <= self.unit_bytes().len(),
            advance_fits(cursor, self.unit_bytes().take(n as int)),
        ensures
            cursor_advanced(cursor, self.unit_bytes().take(n as int), r),
    ;

    /// A human-readable preview of the first `max_tokens` tokens.
    fn preview(self, max_tokens: usize) -> (r: String)
        ensures
            r@ == self.preview_spec(max_tokens as nat),
    ;
}

// ── &str ─────────────────────────────────────────────────────────────────────
impl StreamIsPartial for &str {
    const PARTIAL: bool = false;
}

impl<'i> Stream for &'i str {
    type Token = char;

    type Slice = &'i str;

    open spec fn unit_bytes(self) -> Seq<u8> {
        encode_utf8(self@)
    }

    open spec fn first_spec(self) -> Option<(char, nat)> {
        if self@.len() == 0 {
            None
        } else {
            Some((self@[0], char_width(self@[0])))
        }
    }

    open spec fn valid_split(self, n: int) -> bool {
        0 <= n <= encode_utf8(self@).len() && is_char_boundary(encode_utf8(self@), n)
    }

    open spec fn splits_into(self, n: int, head: &'i str, tail: &'i str) -> bool {
        &&& encode_utf8(head@) == encode_utf8(self@).take(n)
        &&& encode_utf8(tail@) == encode_utf8(self@).skip(n)
        &&& self@ == head@ + tail@
    }

    open spec fn whole_slice(self, s: &'i str) -> bool {
        s == self
    }

    open spec fn preview_spec(self, max: nat) -> Seq<char> {
        self@.take(if max <= self@.len() {
            max as int
        } else {
            self@.len() as int
        })
    }

    fn first(self) -> (r: Option<(char, usize)>) {
        match split_first(self) {
            None => None,
            Some((c, _)) => Some((c, crate::text::char_utf8_width(c))),
        }
    }

    fn split_at(self, n: usize) -> (r: (&'i str, &'i str)) {
        proof {
            encode_utf8_valid_utf8(self@);
        }
        let (head, tail) = str::split_at(self, n);
        proof {
            assert(head.spec_bytes() =~= encode_utf8(self@).take(n as int));
            assert(tail.spec_bytes() =~= encode_utf8(self@).skip(n as int));
            assert(encode_utf8(self@) =~= encode_utf8(self@).take(n as int) + encode_utf8(
                self@,
            ).skip(n as int));
            lemma_encode_concat(head@, tail@);
            lemma_encode_injective(self@, head@ + tail@);
        }
        (head, tail)
    }

    fn as_slice(self) -> (r: &'i str) {
        self
    }

    fn len(self) -> (r: usize) {
        str_byte_len(self)
    }

    fn is_valid_split(self, n: usize) -> (r: bool) {
        proof {
            encode_utf8_valid_utf8(self@);
        }
        let len = str_byte_len(self);
        n <= len && self.is_char_boundary(n)
    }

    fn advance_cursor(self, cursor: Cursor, n: usize) -> (r: Cursor) {
        let bytes = self.as_bytes();
        let consumed = slice_prefix(bytes, n);
        advance(cursor, consumed)
    }

    fn preview(self, max_tokens: usize) -> (r: String) {
        let mut out = String::new();
        let mut rest = self;
        let mut i: usize = 0;
        loop
            invariant
                i <= max_tokens,
                i <= self@.len(),
                out@ == self@.take(i as int),
                rest@ == self@.skip(i as int),
            decreases max_tokens - i,
        {
            if i == max_tokens {
                return out;
            }
            match split_first(rest) {
                None => {
                    proof {
                        assert(self@.take(i as int) =~= self@);
                    }
                    return out;
                },
                Some((c, tail)) => {
                    push_char(&mut out, c);
                    proof {
                        assert(self@.take(i + 1) =~= self@.take(i as int).push(c));
                        assert(self@.skip(i + 1) =~= self@.skip(i as int).drop_first());
                    }
                    rest = tail;
                    i = i + 1;
                },
            }
        }
    }
}

/// The first `n` bytes of `bytes`.
fn slice_prefix(bytes: &[u8], n: usize) -> (r: &[u8])
    requires
        n <= bytes@.len(),
    ensures
        r@ == bytes@.take(n as int),
{
    let r = slice_subrange(bytes, 0, n);
    proof {
        assert(r@ =~= bytes@.take(n as int));
    }
    r
}

// ── &[u8] ────────────────────────────────────────────────────────────────────
impl StreamIsPartial for &[u8] {
    const PARTIAL: bool = false;
}

/// The character standing for byte `d < 16` in lowercase hexadecimal.
pub open spec fn hex_digit(d: u8) -> char {
    if d < 10 {
        ((48 + d) as u8) as char
    } else {
        ((87 + d) as u8) as char
    }
}

/// How a byte is shown in a preview: printable ASCII and space as
/// themselves, any other byte as `\xNN` in lowercase hexadecimal.
pub open spec fn byte_text(b: u8) -> Seq<char> {
    if (0x21 <= b && b <= 0x7E) || b == 0x20 {
        seq![b as char]
    } else {
        seq!['\\', 'x', hex_digit(b / 16), hex_digit(b % 16)]
    }
}

/// The preview of a run of bytes: each byte's text, in order.
pub open spec fn bytes_text(bs: Seq<u8>) -> Seq<char>
    decreases bs.len(),
{
    if bs.len() == 0 {
        Seq::empty()
    } else {
        bytes_text(bs.drop_last()) + byte_text(bs.last())
    }
}

/// The character for the digit `d < 16` in lowercase hexadecimal.
pub(crate) fn hex_digit_char(d: u8) -> (c: char)
    requires
        d < 16,
    ensures
        c == hex_digit(d),
{
    if d < 10 {
        let v: u8 = 48 + d;
        v as char
    } else {
        let v: u8 = 87 + d;
        v as char
    }
}

impl<'i> Stream for &'i [u8] {
    type Token = u8;

    type Slice = &'i [u8];

    open spec fn unit_bytes(self) -> Seq<u8> {
        self@
    }

    open spec fn first_spec(self) -> Option<(u8, nat)> {
        if self@.len() == 0 {
            None
        } else {
            Some((self@[0], 1nat))
        }
    }

    open spec fn valid_split(self, n: int) -> bool {
        0 <= n <= self@.len()
    }

    open spec fn splits_into(self, n: int, head: &'i [u8], tail: &'i [u8]) -> bool {
        head@ == self@.take(n) && tail@ == self@.skip(n)
    }

    open spec fn whole_slice(self, s: &'i [u8]) -> bool {
        s == self
    }

    open spec fn preview_spec(self, max: nat) -> Seq<char> {
        bytes_text(
            self@.take(
                if max <= self@.len() {
                    max as int
                } else {
                    self@.len() as int
                },
            ),
        )
    }

    fn first(self) -> (r: Option<(u8, usize)>) {
        if self.len() == 0 {
            None
        } else {
            Some((self[0], 1))
        }
    }

    fn split_at(self, n: usize) -> (r: (&'i [u8], &'i [u8])) {
        slice_split_at(self, n)
    }

    fn as_slice(self) -> (r: &'i [u8]) {
        self
    }

    fn len(self) -> (r: usize) {
        <[u8]>::len(self)
    }

    fn is_valid_split(self, n: usize) -> (r: bool) {
        n <= <[u8]>::len(self)
    }

    fn advance_cursor(self, cursor: Cursor, n: usize) -> (r: Cursor) {
        let consumed = slice_prefix(self, n);
        advance(cursor, consumed)
    }

    fn preview(self, max_tokens: usize) -> (r: String) {
        let mut out = String::new();
        let n = <[u8]>::len(self);
        let end = if max_tokens <= n {
            max_tokens
        } else {
            n
        };
        let mut i: usize = 0;
        while i < end
            invariant
                end <= n,
                n == self@.len(),
                i <= end,
                out@ == bytes_text(self@.take(i as int)),
            decreases end - i,
        {
            let b = self[i];
            let ghost before = out@;
            if (0x21u8 <= b && b <= 0x7Eu8) || b == 0x20u8 {
                push_char(&mut out, b as char);
            } else {
                push_char(&mut out, '\\');
                push_char(&mut out, 'x');
                push_char(&mut out, hex_digit_char(b / 16));
                push_char(&mut out, hex_digit_char(b % 16));
            }
            proof {
                assert(self@.take(i + 1).drop_last() =~= self@.take(i as int));
                assert(self@.take(i + 1).last() == b);
                assert(out@ =~= before + byte_text(b));
            }
            i = i + 1;
        }
        out
    }
}

/// Splits `bytes` at `n`.
fn slice_split_at(bytes: &[u8], n: usize) -> (r: (&[u8], &[u8]))
    requires
        n <= bytes@.len(),
    ensures
        r.0@ == bytes@.take(n as int),
        r.1@ == bytes@.skip(n as int),
{
    let len = <[u8]>::len(bytes);
    let head = slice_subrange(bytes, 0, n);
    let tail = slice_subrange(bytes, n, len);
    proof {
        assert(head@ =~= bytes@.take(n as int));
        assert(tail@ =~= bytes@.skip(n as int));
    }
    (head, tail)
}

// ── Partial<S> ───────────────────────────────────────────────────────────────
/// Wraps any complete-input stream to declare it **may be a prefix** of the
/// full data: reaching the end of the buffer then means more data may follow.
#[derive(Copy, Clone, Debug, PartialEq)]
pub struct Partial<S>(pub S);

impl<S: StreamIsPartial> StreamIsPartial for Partial<S> {
    const PARTIAL: bool = true;
}

impl<S: Stream> Stream for Partial<S> {
    type Token = S::Token;

    type Slice = S::Slice;

    open spec fn unit_bytes(self) -> Seq<u8> {
        self.0.unit_bytes()
    }

    open spec fn first_spec(self) -> Option<(S::Token, nat)> {
        self.0.first_spec()
    }

    open spec fn valid_split(self, n: int) -> bool {
        self.0.valid_split(n)
    }

    open spec fn splits_into(self, n: int, head: S::Slice, tail: Self) -> bool {
        self.0.splits_into(n, head, tail.0)
    }

    open spec fn whole_slice(self, s: S::Slice) -> bool {
        self.0.whole_slice(s)
    }

    open spec fn preview_spec(self, max: nat) -> Seq<char> {
        self.0.preview_spec(max)
    }

    fn first(self) -> (r: Option<(S::Token, usize)>) {
        self.0.first()
    }

    fn split_at(self, n: usize) -> (r: (S::Slice, Self)) {
        let (slice, rest) = self.0.split_at(n);
        (slice, Partial(rest))
    }

    fn as_slice(self) -> (r: S::Slice) {
        self.0.as_slice()
    }

    fn len(self) -> (r: usize) {
        self.0.len()
    }

    fn is_valid_split(self, n: usize) -> (r: bool) {
        self.0.is_valid_split(n)
    }

    fn advance_cursor(self, cursor: Cursor, n: usize) -> (r: Cursor) {
        self.0.advance_cursor(cursor, n)
    }

    fn preview(self, max_tokens: usize) -> (r: String) {
        self.0.preview(max_tokens)
    }
}

// ── Compare<Pat> ─────────────────────────────────────────────────────────────
/// Matches a fixed pattern against the front of the stream, returning the
/// number of base units consumed on success.
pub trait Compare<Pat> {
    /// The number of base units that `pat` covers when this stream starts
    /// with it; `None` on mismatch.
    spec fn prefix_units(self, pat: Pat) -> Option<nat>;

    /// Returns `Some(n)` if this stream starts with `pat`, where `n` is the
    /// number of base units consumed. Returns `None` on mismatch.
    fn starts_with_pat(self, pat: Pat) -> (r: Option<usize>)
        ensures
            match r {
                None => self.prefix_units(pat) is None,
                Some(n) => self.prefix_units(pat) == Some(n as nat),
            },
    ;
}

impl<'a, 'b> Compare<&'b str> for &'a str {
    open spec fn prefix_units(self, pat: &'b str) -> Option<nat> {
        if has_prefix(self@, pat@) {
            Some(utf8_len(pat@))
        } else {
            None
        }
    }

    fn starts_with_pat(self, pat: &'b str) -> (r: Option<usize>) {
        if str_has_prefix(self, pat) {
            Some(str_byte_len(pat))
        } else {
            None
        }
    }
}

/// `pat` is a prefix of `s`.
pub open spec fn bytes_prefix(s: Seq<u8>, pat: Seq<u8>) -> bool {
    pat.len() <= s.len() && s.take(pat.len() as int) == pat
}

impl<'a, 'b> Compare<&'b [u8]> for &'a [u8] {
    open spec fn prefix_units(self, pat: &'b [u8]) -> Option<nat> {
        if bytes_prefix(self@, pat@) {
            Some(pat@.len())
        } else {
            None
        }
    }

    fn starts_with_pat(self, pat: &'b [u8]) -> (r: Option<usize>) {
        let n = <[u8]>::len(pat);
        if n > <[u8]>::len(self) {
            return None;
        }
        let mut i: usize = 0;
        while i < n
            invariant
                n == pat@.len(),
                n <= self@.len(),
                i <= n,
                forall|j: int| 0 <= j < i ==> self@[j] == pat@[j],
            decreases n - i,
        {
            if self[i] != pat[i] {
                proof {
                    if bytes_prefix(self@, pat@) {
                        assert(self@.take(n as int)[i as int] == self@[i as int]);
                    }
                }
                return None;
            }
            i = i + 1;
        }
        proof {
            assert(self@.take(n as int) =~= pat@);
        }
        Some(n)
    }
}

impl<'a> Compare<u8> for &'a [u8] {
    open spec fn prefix_units(self, pat: u8) -> Option<nat> {
        if self@.len() > 0 && self@[0] == pat {
            Some(1nat)
        } else {
            None
        }
    }

    fn starts_with_pat(self, pat: u8) -> (r: Option<usize>) {
        if <[u8]>::len(self) > 0 && self[0] == pat {
            Some(1)
        } else {
            None
        }
    }
}

impl<S: Stream + Compare<Pat>, Pat: Copy> Compare<Pat> for Partial<S> {
    open spec fn prefix_units(self, pat: Pat) -> Option<nat> {
        self.0.prefix_units(pat)
    }

    fn starts_with_pat(self, pat: Pat) -> (r: Option<usize>) {
        self.0.starts_with_pat(pat)
    }
}

} // verus!
