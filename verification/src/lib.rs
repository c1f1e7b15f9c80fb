//! Parser combinators after NimbleParsec, with a typed surface.
use vstd::prelude::*;

pub mod cursor;
pub mod failure;
pub mod np_expr;
pub mod np_lexer;
pub mod stream;
pub mod text;
pub mod typed;

pub use cursor::Cursor;
pub use failure::{Needed, ParseError, ParseFailure, DEFAULT_MAX_RECURSION_DEPTH};
pub use stream::{Compare, Partial, Stream, StreamIsPartial};
pub use typed::{
    any, digits, eof, literal, recursive, satisfy, take_while, take_while1, AnyChar, Eof, IgnoreThen,
    Ignored, Input, Labelled, Literal, Mapped, Opt, Or, PResult, Parser, Recursive, Repeated,
    Satisfy, TakeWhile, Then, ThenIgnore,
};

verus! {

} // verus!
