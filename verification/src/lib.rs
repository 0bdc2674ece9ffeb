//! A source-fidelity parser for the `go.mod` module-manifest format.
//!
//! The parser turns one in-memory buffer into an ordered sequence of
//! directives, each stamped with the exact byte span it occupies in the
//! input and the comments attached to it, so that a caller can slice the
//! original text back out for diagnostics or rewriting.

use vstd::prelude::*;

pub mod grammar;
pub mod laws;
pub mod model;
pub mod parser;

verus! {

/// A point in the input: 0-based byte offset paired with the 1-based line
/// number of that offset.
#[derive(Debug, Default, PartialEq, Eq, Clone, Copy)]
pub struct Location {
    pub line: u32,
    pub offset: usize,
}

/// The byte span of a construct: `(start, end)` with `start.offset <= end.offset`,
/// denoting the half-open span `[start.offset, end.offset)`.
pub type Range = (Location, Location);

/// One physical line as the comment classifier sees it: a `//` comment
/// with its captured text, a blank line, or the end of the input.
#[derive(Debug, PartialEq, Eq)]
pub enum Sundry {
    Comment(Vec<u8>),
    Empty,
    EOF,
}

/// A token of the input: either taken verbatim (bare tokens and
/// backtick-quoted raw strings) or with backslash escapes resolved
/// (double-quoted interpreted strings, where `\X` becomes the literal `X`).
#[derive(Debug, PartialEq, Eq)]
pub enum Identifier {
    Raw(Vec<u8>),
    Interpreted(Vec<u8>),
}

impl Identifier {
    /// The token's bytes, whichever variant holds them.
    pub fn value(&self) -> (r: &Vec<u8>)
        ensures
            r@ == self@.bytes(),
    {
        match self {
            Identifier::Raw(b) => b,
            Identifier::Interpreted(b) => b,
        }
    }
}

/// One entry of a `retract` directive: a single version or an inclusive
/// `[low, high]` interval.
#[derive(Debug, PartialEq, Eq)]
pub enum RetractSpec {
    Version(Identifier),
    Range((Identifier, Identifier)),
}

/// What a `replace` entry substitutes for the replaced module: a filesystem
/// path, or another module together with its version.
#[derive(Debug, PartialEq, Eq)]
pub enum Replacement {
    FilePath(Identifier),
    Module((Vec<u8>, Identifier)),
}

/// One entry of a `replace` directive:
/// `path [version] => replacement`.
#[derive(Debug, PartialEq, Eq)]
pub struct ReplaceSpec {
    pub path: Vec<u8>,
    pub version: Option<Identifier>,
    pub replacement: Replacement,
}

/// A construct of the input together with its byte span and the comments
/// that belong to it: the stand-alone comment lines immediately before it
/// and its own same-line trailing comment, in source order.
#[derive(Debug, PartialEq, Eq)]
pub struct Context<T> {
    pub range: Range,
    pub comments: Vec<Vec<u8>>,
    pub value: T,
}

/// One top-level `go.mod` statement.
#[derive(Debug, PartialEq, Eq)]
pub enum Directive {
    Module { path: Vec<u8> },
    Go { version: Identifier },
    Require { specs: Vec<Context<(Vec<u8>, Identifier)>> },
    Toolchain { name: Identifier },
    Godebug { specs: Vec<Context<(Vec<u8>, Vec<u8>)>> },
    Replace { specs: Vec<Context<ReplaceSpec>> },
    Exclude { specs: Vec<Context<(Vec<u8>, Identifier)>> },
    Retract { specs: Vec<Context<RetractSpec>> },
}

/// A parsed document: every directive in source order, none merged.
pub type GoMod = Vec<Context<Directive>>;

/// The single error of the parser: the line and byte offset of the earliest
/// position at which no grammar could continue.
#[derive(Debug, PartialEq, Eq, Clone, Copy)]
pub struct ParseError {
    pub line: u32,
    pub offset: usize,
}

/// Parses the full contents of one `go.mod` file: every directive in
/// source order, each with its byte range and its comments, exactly as
/// [`crate::parser::gomod_at`] describes.  A document holding anything no
/// directive grammar matches, or holding no directive at all, is refused
/// with the line and offset of the failure.
pub fn parse_gomod(text: &[u8]) -> (r: Result<GoMod, ParseError>)
    requires
        text@.len() < u32::MAX,
    ensures
        match r {
            Result::Ok(v) => crate::parser::gomod_at(text@, 0) matches Result::Ok(ok)
                && ok.1 == crate::model::ctx_seq_view(v@),
            Result::Err(e) => crate::parser::gomod_at(text@, 0) == Result::<
                (int, Seq<crate::model::CtxView<crate::model::DirectiveView>>),
                int,
            >::Err(e.offset as int) && e == crate::model::perr_of(text@, e.offset as int)
                && e.offset <= text@.len(),
        },
{
    match crate::parser::parse_gomod(text, 0) {
        Result::Ok((end, v)) => Result::Ok(v),
        Result::Err(e) => Result::Err(e),
    }
}

} // verus!
