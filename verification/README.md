# Verified parser combinators

A parser-combinator library in the NimbleParsec tradition, with a typed
surface, written in Verus. The functions state what they do in contracts and are
proved against them; constructors of field-less parsers such as `any()` and
`eof()` need none, as their parsers' behaviour is stated by the `Parser` impls.

## Layout

- `src/text.rs` — UTF-8 facts and string primitives (splitting a `&str` after a
  number of characters, peeling off its first character, prefix tests).
- `src/cursor.rs` — `Cursor` (line, line start, byte offset) and how it moves
  over consumed bytes.
- `src/stream.rs` — the `Stream` abstraction over `&str`, `&[u8]` and the
  streaming wrapper `Partial<S>`, and `Compare` for matching patterns.
- `src/failure.rs` — `ParseFailure`, `ParseError`, `Needed`, the recursion cap,
  and the text of failures.
- `src/typed.rs` — the `Parser` trait and its combinators. Each parser states,
  as two spec relations, when a step succeeds (`accepts`) and when it fails
  (`rejects`); `parse_next` is proved to stay within them, and every step
  moves the input forward over a prefix with the cursor tracking the bytes.
- `src/np_expr.rs` — the top-level splitter for expressions inside template
  tags, with its grammar as spec functions.
- `src/np_lexer.rs` — the lexical pass of the template lexer (text, comments,
  raw blocks, raw tags, tags), with its grammar as spec functions, and the
  assembly of its units into text runs and tags (comment merging and
  backslash escapes).

Laws are public proof functions beside what they speak of, for example
`lemma_scan_is_lossless` (scanning an expression loses no character),
`lemma_lexemes_tile` (lexical units tile the template) and
`lemma_recursion_capped` (recursion stops at the budget with a failure).

## Checking

Verify with Verus on `src/lib.rs`; the tests under `tests/` are ordinary Rust
tests of the compiled library.
