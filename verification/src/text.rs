//! UTF-8 facts and string primitives that the parsers are built on.
//!
//! A `&str` is viewed as its sequence of `char`s; its length in bytes is the
//! length of the UTF-8 encoding of that sequence. The functions here move
//! between the two views: splitting a string after a number of characters,
//! peeling off its first character, and testing for a prefix.
use vstd::prelude::*;
use vstd::string::*;
use vstd::utf8::*;

verus! {

broadcast use vstd::string::group_string_axioms, vstd::slice::group_slice_axioms;

/// Number of bytes in the UTF-8 encoding of `s`.
pub open spec fn utf8_len(s: Seq<char>) -> nat {
    encode_utf8(s).len()
}

/// Number of bytes in the UTF-8 encoding of the single character `c`.
pub open spec fn char_width(c: char) -> nat {
    encode_scalar(c as u32).len()
}

/// `pat` is a prefix of `s`.
pub open spec fn has_prefix(s: Seq<char>, pat: Seq<char>) -> bool {
    pat.len() <= s.len() && s.take(pat.len() as int) == pat
}

/// The encoding of a concatenation is the concatenation of the encodings.
pub proof fn lemma_encode_concat(a: Seq<char>, b: Seq<char>)
    ensures
        encode_utf8(a + b) == encode_utf8(a) + encode_utf8(b),
    decreases a.len(),
{
    if a.len() == 0 {
        assert(a + b =~= b);
        assert(encode_utf8(a) + encode_utf8(b) =~= encode_utf8(b));
    } else {
        lemma_encode_concat(a.drop_first(), b);
        assert((a + b).drop_first() =~= a.drop_first() + b);
        assert((a + b)[0] == a[0]);
        assert(encode_utf8(a + b) =~= encode_scalar(a[0] as u32) + (encode_utf8(a.drop_first())
            + encode_utf8(b)));
    }
}

/// Two character sequences with the same encoding are equal.
pub proof fn lemma_encode_injective(a: Seq<char>, b: Seq<char>)
    requires
        encode_utf8(a) == encode_utf8(b),
    ensures
        a == b,
{
    encode_utf8_decode_utf8(a);
    encode_utf8_decode_utf8(b);
}

/// A character is encoded in one to four bytes, as its scalar value dictates.
pub proof fn lemma_char_width(c: char)
    ensures
        1 <= char_width(c) <= 4,
        char_width(c) == (if (c as u32) <= 0x7F {
            1nat
        } else if (c as u32) <= 0x7FF {
            2nat
        } else if (c as u32) <= 0xFFFF {
            3nat
        } else {
            4nat
        }),
{
    char_is_scalar(c);
}

/// The encoding of a single character is that character's scalar encoding.
pub proof fn lemma_encode_single(c: char)
    ensures
        encode_utf8(seq![c]) == encode_scalar(c as u32),
{
    assert(seq![c].drop_first() =~= Seq::<char>::empty());
    assert(encode_utf8(seq![c]) =~= encode_scalar(c as u32) + encode_utf8(Seq::<char>::empty()));
}

/// Every character takes at least one byte and at most four.
pub proof fn lemma_utf8_len_bounds(s: Seq<char>)
    ensures
        s.len() <= utf8_len(s) <= 4 * s.len(),
    decreases s.len(),
{
    if s.len() > 0 {
        lemma_utf8_len_bounds(s.drop_first());
        lemma_char_width(s[0]);
    }
}

/// Splitting a sequence of characters splits its byte length.
pub proof fn lemma_utf8_len_split(s: Seq<char>, k: int)
    requires
        0 <= k <= s.len(),
    ensures
        utf8_len(s) == utf8_len(s.take(k)) + utf8_len(s.skip(k)),
{
    assert(s =~= s.take(k) + s.skip(k));
    lemma_encode_concat(s.take(k), s.skip(k));
}

/// Byte length grows with the number of leading characters taken.
pub proof fn lemma_utf8_len_take_mono(s: Seq<char>, j: int, k: int)
    requires
        0 <= j <= k <= s.len(),
    ensures
        utf8_len(s.take(j)) + (k - j) <= utf8_len(s.take(k)),
{
    let t = s.take(k);
    lemma_utf8_len_split(t, j);
    assert(t.take(j) =~= s.take(j));
    lemma_utf8_len_bounds(t.skip(j));
}

/// Taking one more character adds that character's width to the byte length,
/// which stays within the byte length of the whole sequence.
pub proof fn lemma_utf8_len_take_step(s: Seq<char>, k: int)
    requires
        0 <= k < s.len(),
    ensures
        utf8_len(s.take(k + 1)) == utf8_len(s.take(k)) + char_width(s[k]),
        utf8_len(s.take(k + 1)) <= utf8_len(s),
{
    assert(s.take(k + 1) =~= s.take(k) + seq![s[k]]);
    lemma_encode_concat(s.take(k), seq![s[k]]);
    lemma_encode_single(s[k]);
    lemma_utf8_len_split(s, k + 1);
}

/// The end of an encoded prefix is a character boundary of the whole encoding.
pub proof fn lemma_boundary_after_prefix(a: Seq<char>, b: Seq<char>)
    ensures
        valid_utf8(encode_utf8(a + b)),
        is_char_boundary(encode_utf8(a + b), encode_utf8(a).len() as int),
    decreases a.len(),
{
    encode_utf8_valid_utf8(a + b);
    lemma_encode_concat(a, b);
    if a.len() == 0 {
        assert(a + b =~= b);
    } else {
        let ab = a + b;
        let bytes = encode_utf8(ab);
        encode_utf8_first_scalar(ab);
        assert(ab[0] == a[0]);
        assert(ab.drop_first() =~= a.drop_first() + b);
        lemma_boundary_after_prefix(a.drop_first(), b);
        lemma_encode_concat(a.drop_first(), b);
        let w = encode_scalar(a[0] as u32).len();
        assert(bytes =~= encode_scalar(a[0] as u32) + encode_utf8(ab.drop_first()));
        assert(pop_first_scalar(bytes) =~= encode_utf8(ab.drop_first()));
        assert(encode_utf8(a).len() == w + encode_utf8(a.drop_first()).len());
        lemma_char_width(a[0]);
    }
}

/// The byte length of `s`.
pub fn str_byte_len(s: &str) -> (n: usize)
    ensures
        n == utf8_len(s@),
{
    let b = s.as_bytes();
    b.len()
}

/// The number of bytes that encode `c` in UTF-8.
pub fn char_utf8_width(c: char) -> (w: usize)
    ensures
        w == char_width(c),
        1 <= w <= 4,
{
    proof {
        lemma_char_width(c);
    }
    let v = c as u32;
    if v <= 0x7F {
        1
    } else if v <= 0x7FF {
        2
    } else if v <= 0xFFFF {
        3
    } else {
        4
    }
}

/// Splits `s` after its first `k` characters, which take `n` bytes.
pub fn split_at_char<'a>(s: &'a str, n: usize, Ghost(k): Ghost<int>) -> (r: (&'a str, &'a str))
    requires
        0 <= k <= s@.len(),
        n == utf8_len(s@.take(k)),
    ensures
        r.0@ == s@.take(k),
        r.1@ == s@.skip(k),
{
    let ghost a = s@.take(k);
    let ghost b = s@.skip(k);
    proof {
        assert(s@ =~= a + b);
        lemma_boundary_after_prefix(a, b);
        lemma_encode_concat(a, b);
    }
    let (head, tail) = s.split_at(n);
    proof {
        assert(head.spec_bytes() =~= encode_utf8(a));
        assert(tail.spec_bytes() =~= encode_utf8(b));
        lemma_encode_injective(head@, a);
        lemma_encode_injective(tail@, b);
    }
    (head, tail)
}

/// Splits off the first character of `s`, or returns `None` for the empty string.
pub fn split_first<'a>(s: &'a str) -> (r: Option<(char, &'a str)>)
    ensures
        match r {
            None => s@.len() == 0,
            Some((c, tail)) => s@.len() > 0 && c == s@[0] && tail@ == s@.drop_first(),
        },
{
    let mut it = s.chars();
    let next = it.next();
    match next {
        None => None,
        Some(c) => {
            let w = char_utf8_width(c);
            proof {
                assert(s@.take(1) =~= seq![c]);
                lemma_encode_single(c);
            }
            let (_, tail) = split_at_char(s, w, Ghost(1));
            proof {
                assert(s@.skip(1) =~= s@.drop_first());
            }
            Some((c, tail))
        },
    }
}

/// The characters of `s`, in order.
pub fn chars_of(s: &str) -> (v: Vec<char>)
    ensures
        v@ == s@,
{
    let mut v: Vec<char> = Vec::new();
    let mut rest = s;
    loop
        invariant
            v@ + rest@ == s@,
        decreases rest@.len(),
    {
        match split_first(rest) {
            None => {
                proof {
                    assert(v@ + rest@ =~= v@);
                }
                return v;
            },
            Some((c, tail)) => {
                proof {
                    assert(v@.push(c) + tail@ =~= v@ + rest@);
                }
                v.push(c);
                rest = tail;
            },
        }
    }
}

/// The characters `chars[lo..hi]`, collected into a `String`.
pub fn collect_string(chars: &Vec<char>, lo: usize, hi: usize) -> (r: String)
    requires
        lo <= hi <= chars@.len(),
    ensures
        r@ == chars@.subrange(lo as int, hi as int),
{
    let mut out = String::new();
    let mut k = lo;
    while k < hi
        invariant
            lo <= k <= hi <= chars@.len(),
            out@ == chars@.subrange(lo as int, k as int),
        decreases hi - k,
    {
        push_char(&mut out, chars[k]);
        proof {
            assert(chars@.subrange(lo as int, k + 1) =~= chars@.subrange(lo as int, k as int).push(
                chars@[k as int],
            ));
        }
        k = k + 1;
    }
    out
}

/// Whether `s` starts with `pat`.
pub fn str_has_prefix(s: &str, pat: &str) -> (r: bool)
    ensures
        r == has_prefix(s@, pat@),
{
    let mut rest = s;
    let mut want = pat;
    let ghost mut i: int = 0;
    loop
        invariant
            0 <= i <= pat@.len(),
            i <= s@.len(),
            want@ == pat@.skip(i),
            rest@ == s@.skip(i),
            s@.take(i) == pat@.take(i),
        decreases want@.len(),
    {
        match split_first(want) {
            None => {
                proof {
                    assert(pat@.take(i) =~= pat@);
                }
                return true;
            },
            Some((c, want_tail)) => {
                match split_first(rest) {
                    None => {
                        return false;
                    },
                    Some((d, rest_tail)) => {
                        if c != d {
                            proof {
                                assert(pat@[i] == c);
                                assert(s@[i] == d);
                                if has_prefix(s@, pat@) {
                                    assert(s@.take(pat@.len() as int)[i] == s@[i]);
                                }
                            }
                            return false;
                        }
                        proof {
                            assert(s@.take(i + 1) =~= s@.take(i).push(d));
                            assert(pat@.take(i + 1) =~= pat@.take(i).push(c));
                            assert(pat@.skip(i + 1) =~= pat@.skip(i).drop_first());
                            assert(s@.skip(i + 1) =~= s@.skip(i).drop_first());
                            i = i + 1;
                        }
                        want = want_tail;
                        rest = rest_tail;
                    },
                }
            },
        }
    }
}

/// The text of `s` in Rust's `Debug` notation for strings: quoted, with
/// special characters escaped.
pub uninterp spec fn debug_quoted(s: Seq<char>) -> Seq<char>;

/// Renders `s` with `format!("{:?}", s)`, std's `Debug` for `str`. The
/// contract names the result and claims nothing of its characters: std's
/// escaping rules depend on Unicode tables that are not restated here.
#[verifier::external_body]
pub(crate) fn debug_str(s: &str) -> (r: String)
    ensures
        r@ == debug_quoted(s@),
{
    format!("{:?}", s)
}

/// Appends `c` to `s` with `String::push`, which std documents as appending
/// the character at the end of the string.
#[verifier::external_body]
pub(crate) fn push_char(s: &mut String, c: char)
    ensures
        final(s)@ == old(s)@.push(c),
{
    s.push(c);
}

} // verus!
