//! The executable parser.
//!
//! Every function here is proved to return exactly what the corresponding
//! spec-level reading in [`crate::grammar`] describes, at every position of
//! every input.

use vstd::prelude::*;
use vstd::slice::slice_to_vec;
use crate::{Context, Directive, GoMod, Identifier, Location, ParseError, Sundry};
use crate::grammar::{
    bare_end, bare_stop_at, comment_at, comments_at, deeper, gd_end, ident_at, interp_tail_at,
    lemma_ident_at_consumes, lemma_interp_tail_at_bounds, lemma_quoted_gd_at_consumes,
    lemma_quoted_path_at_consumes, path_end, quoted_gd_at, quoted_path_at, raw_content_end,
};
use crate::model::{
    bytes_at, bytes_seq_view, ctx_seq_view, delims_end, is_gd_stop, is_path_byte, line_end,
    line_of, loc_of, newline_count, perr_of, CtxView, DirectiveView,
};

pub mod exclude_directive;
pub mod go_directive;
pub mod godebug_directive;
pub mod replace_directive;
pub mod require_directive;
pub mod retract_directive;
pub mod module_directive;
pub mod toolchain_directive;

verus! {

// ---------------------------------------------------------------------------
// Locations
// ---------------------------------------------------------------------------

proof fn lemma_newline_count_mono(s: Seq<u8>, i: int, j: int)
    requires
        0 <= i <= j,
    ensures
        newline_count(s, i) <= newline_count(s, j),
    decreases j - i,
{
    if i < j {
        lemma_newline_count_mono(s, i, j - 1);
    }
}

/// Stamps the line number and byte offset of position `pos`.
pub(crate) fn locate(input: &[u8], pos: usize) -> (r: Location)
    requires
        pos <= input@.len(),
        input@.len() < u32::MAX,
    ensures
        r == loc_of(input@, pos as int),
{
    proof {
        crate::model::lemma_newline_count_bounds(input@, pos as int);
    }
    let mut line: u32 = 1;
    let mut i: usize = 0;
    while i < pos
        invariant
            i <= pos <= input@.len(),
            line_of(input@, pos as int) <= u32::MAX,
            line as int == line_of(input@, i as int),
            input@.len() < u32::MAX,
        decreases pos - i,
    {
        proof {
            lemma_newline_count_mono(input@, i + 1, pos as int);
        }
        if input[i] == '\n' as u8 {
            line = line + 1;
        }
        i = i + 1;
    }
    Location { line, offset: pos }
}

/// The error that points at position `pos`.
pub(crate) fn perr(input: &[u8], pos: usize) -> (r: ParseError)
    requires
        pos <= input@.len(),
        input@.len() < u32::MAX,
    ensures
        r == perr_of(input@, pos as int),
        r.offset == pos,
{
    let l = locate(input, pos);
    ParseError { line: l.line, offset: l.offset }
}

// ---------------------------------------------------------------------------
// Elementary scans
// ---------------------------------------------------------------------------

/// Skips the run of in-line delimiters that starts at `pos`.
pub(crate) fn delims_to(input: &[u8], pos: usize) -> (r: usize)
    requires
        pos <= input@.len(),
    ensures
        r as int == delims_end(input@, pos as int),
        pos <= r <= input@.len(),
{
    let mut i = pos;
    while i < input.len() && (input[i] == ' ' as u8 || input[i] == '\t' as u8 || input[i] == '\r' as u8)
        invariant
            pos <= i <= input@.len(),
            delims_end(input@, pos as int) == delims_end(input@, i as int),
        decreases input@.len() - i,
    {
        i = i + 1;
    }
    i
}

/// Scans to the newline that ends the line holding `pos`, or to the end of
/// the input.
pub(crate) fn line_to(input: &[u8], pos: usize) -> (r: usize)
    requires
        pos <= input@.len(),
    ensures
        r as int == line_end(input@, pos as int),
        pos <= r <= input@.len(),
{
    let mut i = pos;
    while i < input.len() && input[i] != '\n' as u8
        invariant
            pos <= i <= input@.len(),
            line_end(input@, pos as int) == line_end(input@, i as int),
        decreases input@.len() - i,
    {
        i = i + 1;
    }
    i
}

/// Whether the bytes of `pat` stand at position `pos` of the input.
pub(crate) fn match_bytes(input: &[u8], pos: usize, pat: &[u8]) -> (r: bool)
    requires
        pos <= input@.len(),
    ensures
        r == bytes_at(input@, pos as int, pat@),
{
    let ilen = input.len();
    let n = pat.len();
    if ilen - pos < n {
        return false;
    }
    let mut i: usize = 0;
    while i < n
        invariant
            i <= n == pat@.len(),
            pos + n <= ilen == input@.len(),
            forall|k: int| 0 <= k < i ==> input@[pos + k] == pat@[k],
        decreases n - i,
    {
        if input[pos + i] != pat[i] {
            proof {
                assert(input@.subrange(pos as int, pos + pat@.len())[i as int] == input@[pos + i]);
            }
            return false;
        }
        i = i + 1;
    }
    proof {
        assert(input@.subrange(pos as int, pos + pat@.len()) =~= pat@);
    }
    true
}

// ---------------------------------------------------------------------------
// Comment and blank-line classification
// ---------------------------------------------------------------------------

/// Classifies the physical line at `pos`: a `//` comment with its captured
/// text, a blank line, or the end of the input; anything else is no match.
/// The trailing newline is consumed but kept out of the captured text.
pub fn parse_inline_comment(input: &[u8], pos: usize) -> (r: Option<(usize, Sundry)>)
    requires
        pos <= input@.len(),
    ensures
        match r {
            Option::Some((j, su)) => comment_at(input@, pos as int) == Option::Some(
                (j as int, su@),
            ) && pos <= j <= input@.len(),
            Option::None => comment_at(input@, pos as int) is None,
        },
{
    let j = delims_to(input, pos);
    if j < input.len() && input[j] == '/' as u8 && j + 1 < input.len() && input[j + 1] == '/' as u8 {
        let e = line_to(input, j + 2);
        let text = slice_to_vec(&input[j + 2..e]);
        if e < input.len() {
            Option::Some((e + 1, Sundry::Comment(text)))
        } else {
            Option::Some((e, Sundry::Comment(text)))
        }
    } else if j < input.len() && input[j] == '\n' as u8 {
        Option::Some((j + 1, Sundry::Empty))
    } else if j >= input.len() {
        if pos < input.len() {
            Option::Some((j, Sundry::Empty))
        } else {
            Option::Some((pos, Sundry::EOF))
        }
    } else {
        Option::None
    }
}

/// Gathers the run of comment and blank lines that starts at `pos`: blank
/// lines are dropped, comment texts are kept in source order.
pub(crate) fn parse_comments(input: &[u8], pos: usize) -> (r: (usize, Vec<Vec<u8>>))
    requires
        pos <= input@.len(),
    ensures
        comments_at(input@, pos as int) == (r.0 as int, bytes_seq_view(r.1@)),
        pos <= r.0 <= input@.len(),
{
    let mut cur = pos;
    let mut acc: Vec<Vec<u8>> = Vec::new();
    loop
        invariant
            pos <= cur <= input@.len(),
            comments_at(input@, pos as int).0 == comments_at(input@, cur as int).0,
            comments_at(input@, pos as int).1 == bytes_seq_view(acc@) + comments_at(
                input@,
                cur as int,
            ).1,
        ensures
            comments_at(input@, cur as int) == (cur as int, Seq::<Seq<u8>>::empty()),
        decreases input@.len() - cur,
    {
        proof {
            crate::grammar::lemma_comment_at_consumes(input@, cur as int);
        }
        match parse_inline_comment(input, cur) {
            Option::None => {
                break ;
            },
            Option::Some((j, su)) => {
                match su {
                    Sundry::EOF => {
                        break ;
                    },
                    Sundry::Comment(t) => {
                        proof {
                            let rest = comments_at(input@, j as int);
                            assert(comments_at(input@, cur as int) == (
                                rest.0,
                                seq![t@] + rest.1,
                            ));
                            assert(bytes_seq_view(acc@.push(t)) =~~= bytes_seq_view(acc@) + seq![
                                t@,
                            ]);
                            assert(bytes_seq_view(acc@) + (seq![t@] + rest.1) =~~= (bytes_seq_view(
                                acc@,
                            ) + seq![t@]) + rest.1);
                        }
                        acc.push(t);
                        cur = j;
                    },
                    Sundry::Empty => {
                        cur = j;
                    },
                }
            },
        }
    }
    proof {
        assert(bytes_seq_view(acc@) + Seq::<Seq<u8>>::empty() =~~= bytes_seq_view(acc@));
    }
    (cur, acc)
}

/// Adds a construct's trailing comment, if there is one, to a comment list.
pub(crate) fn push_trail(comments: &mut Vec<Vec<u8>>, su: Sundry)
    ensures
        bytes_seq_view(final(comments)@) == bytes_seq_view(old(comments)@) + crate::grammar::trail(
            su@,
        ),
{
    match su {
        Sundry::Comment(t) => {
            proof {
                crate::model::lemma_bytes_seq_view_push(comments@, t);
            }
            comments.push(t);
        },
        _ => {
            proof {
                crate::model::lemma_bytes_seq_view_concat_empty(comments@);
            }
        },
    }
}

/// Appends a list of gathered comments to a comment list.
pub(crate) fn append_comments(dst: &mut Vec<Vec<u8>>, src: Vec<Vec<u8>>)
    ensures
        bytes_seq_view(final(dst)@) == bytes_seq_view(old(dst)@) + bytes_seq_view(src@),
{
    proof {
        crate::model::lemma_bytes_seq_view_concat(dst@, src@);
    }
    let mut s = src;
    dst.append(&mut s);
}

// ---------------------------------------------------------------------------
// Strings and identifiers
// ---------------------------------------------------------------------------

/// Scans to the byte that ends a raw string's content: a backtick, a
/// newline, or the end of the input.
fn raw_to(input: &[u8], pos: usize) -> (r: usize)
    requires
        pos <= input@.len(),
    ensures
        r as int == raw_content_end(input@, pos as int),
        pos <= r <= input@.len(),
{
    let mut i = pos;
    while i < input.len() && input[i] != '`' as u8 && input[i] != '\n' as u8
        invariant
            pos <= i <= input@.len(),
            raw_content_end(input@, pos as int) == raw_content_end(input@, i as int),
        decreases input@.len() - i,
    {
        i = i + 1;
    }
    i
}

/// Decodes the body of an interpreted string from `pos` (just after the
/// opening quote) through its closing quote; each `\X` becomes the literal
/// byte `X`.
fn parse_interp_tail(input: &[u8], pos: usize) -> (r: Option<(usize, Vec<u8>)>)
    requires
        pos <= input@.len(),
    ensures
        match r {
            Option::Some((j, v)) => interp_tail_at(input@, pos as int) == Option::Some(
                (j as int, v@),
            ) && pos < j <= input@.len(),
            Option::None => interp_tail_at(input@, pos as int) is None,
        },
{
    let mut cur = pos;
    let mut acc: Vec<u8> = Vec::new();
    loop
        invariant
            pos <= cur <= input@.len(),
            interp_tail_at(input@, pos as int) == match interp_tail_at(input@, cur as int) {
                Option::Some((e, v)) => Option::Some((e, acc@ + v)),
                Option::None => Option::<(int, Seq<u8>)>::None,
            },
        decreases input@.len() - cur,
    {
        proof {
            lemma_interp_tail_at_bounds(input@, cur as int);
        }
        if cur >= input.len() {
            return Option::None;
        }
        let b = input[cur];
        if b == '\"' as u8 {
            proof {
                assert(acc@ + Seq::<u8>::empty() =~= acc@);
            }
            return Option::Some((cur + 1, acc));
        } else if b == '\\' as u8 {
            if cur + 1 < input.len() {
                proof {
                    if let Option::Some((e2, v2)) = interp_tail_at(input@, cur + 2) {
                        assert(acc@.push(input@[cur + 1]) + v2 =~= acc@ + (seq![
                            input@[cur as int + 1],
                        ] + v2));
                    }
                }
                acc.push(input[cur + 1]);
                cur = cur + 2;
            } else {
                return Option::None;
            }
        } else if b != '\n' as u8 && b != '\r' as u8 && b != '\t' as u8 && b != 8 && b != 12 {
            proof {
                if let Option::Some((e2, v2)) = interp_tail_at(input@, cur + 1) {
                    assert(acc@.push(input@[cur as int]) + v2 =~= acc@ + (seq![
                        input@[cur as int],
                    ] + v2));
                }
            }
            acc.push(b);
            cur = cur + 1;
        } else {
            return Option::None;
        }
    }
}

/// Whether a bare token ends at position `pos`.
fn bare_stop(input: &[u8], pos: usize) -> (r: bool)
    requires
        pos <= input@.len(),
    ensures
        r == bare_stop_at(input@, pos as int),
{
    if pos >= input.len() {
        return true;
    }
    let b = input[pos];
    if b == ' ' as u8 || b == '\t' as u8 || b == '\n' as u8 || b == '\r' as u8 || b == '(' as u8 || b == ')' as u8 || b == ',' as u8 || b == '[' as u8 || b
        == ']' as u8 {
        return true;
    }
    if b == '/' as u8 && pos + 1 < input.len() && input[pos + 1] == '/' as u8 {
        return true;
    }
    if b == '=' as u8 && pos + 1 < input.len() && input[pos + 1] == '>' as u8 {
        return true;
    }
    false
}

/// Scans to the end of the bare token that starts at `pos`.
fn bare_to(input: &[u8], pos: usize) -> (r: usize)
    requires
        pos <= input@.len(),
    ensures
        r as int == bare_end(input@, pos as int),
        pos <= r <= input@.len(),
{
    let ilen = input.len();
    let mut i = pos;
    let mut stop = bare_stop(input, i);
    while !stop
        invariant
            pos <= i <= ilen == input@.len(),
            stop == bare_stop_at(input@, i as int),
            bare_end(input@, pos as int) == bare_end(input@, i as int),
        decreases input@.len() - i,
    {
        i = i + 1;
        stop = bare_stop(input, i);
    }
    i
}

/// Reads an identifier at `pos`: a raw string, else an interpreted string,
/// else a non-empty bare token.
pub fn parse_identifier(input: &[u8], pos: usize) -> (r: Option<(usize, Identifier)>)
    requires
        pos <= input@.len(),
    ensures
        match r {
            Option::Some((j, id)) => ident_at(input@, pos as int) == Option::Some(
                (j as int, id@),
            ) && pos < j <= input@.len(),
            Option::None => ident_at(input@, pos as int) is None,
        },
{
    proof {
        lemma_ident_at_consumes(input@, pos as int);
    }
    if pos < input.len() && input[pos] == '`' as u8 {
        let e = raw_to(input, pos + 1);
        if pos + 1 < e && e < input.len() && input[e] == '`' as u8 {
            let text = slice_to_vec(&input[pos + 1..e]);
            return Option::Some((e + 1, Identifier::Raw(text)));
        }
    } else if pos < input.len() && input[pos] == '\"' as u8 {
        match parse_interp_tail(input, pos + 1) {
            Option::Some((e, v)) => {
                return Option::Some((e, Identifier::Interpreted(v)));
            },
            Option::None => {},
        }
    }
    let e = bare_to(input, pos);
    if e > pos {
        let text = slice_to_vec(&input[pos..e]);
        Option::Some((e, Identifier::Raw(text)))
    } else {
        Option::None
    }
}

// ---------------------------------------------------------------------------
// Module paths and godebug tokens
// ---------------------------------------------------------------------------

/// Whether `b` may stand in a module-path segment.
fn is_path_b(b: u8) -> (r: bool)
    ensures
        r == is_path_byte(b),
{
    (48 <= b && b <= 57) || (65 <= b && b <= 90) || (97 <= b && b <= 122) || b == '-' as u8 || b == '_' as u8
        || b == '.' as u8 || b == '~' as u8
}

/// Scans to the end of the module path that starts at `pos`.
fn path_to(input: &[u8], pos: usize) -> (r: usize)
    requires
        pos <= input@.len(),
    ensures
        r as int == path_end(input@, pos as int),
        pos <= r <= input@.len(),
{
    let mut i = pos;
    loop
        invariant
            pos <= i <= input@.len(),
            path_end(input@, pos as int) == path_end(input@, i as int),
        ensures
            path_end(input@, i as int) == i as int,
        decreases input@.len() - i,
    {
        if i < input.len() && is_path_b(input[i]) {
            i = i + 1;
        } else if i < input.len() && input[i] == '/' as u8 && i + 1 < input.len() && is_path_b(
            input[i + 1],
        ) {
            i = i + 1;
        } else {
            break ;
        }
    }
    i
}

/// Reads a module path that may stand bare, between double quotes, or
/// between backticks; gives the path itself, without the quotes.
pub(crate) fn parse_quoted_path(input: &[u8], pos: usize) -> (r: Option<(usize, Vec<u8>)>)
    requires
        pos <= input@.len(),
    ensures
        match r {
            Option::Some((j, p)) => quoted_path_at(input@, pos as int) == Option::Some(
                (j as int, p@),
            ) && pos < j <= input@.len(),
            Option::None => quoted_path_at(input@, pos as int) is None,
        },
{
    proof {
        lemma_quoted_path_at_consumes(input@, pos as int);
    }
    if pos < input.len() && is_path_b(input[pos]) {
        let e = path_to(input, pos);
        let text = slice_to_vec(&input[pos..e]);
        Option::Some((e, text))
    } else if pos < input.len() && (input[pos] == '\"' as u8 || input[pos] == '`' as u8) {
        if pos + 1 < input.len() && is_path_b(input[pos + 1]) {
            let e = path_to(input, pos + 1);
            if e < input.len() && input[e] == input[pos] {
                let text = slice_to_vec(&input[pos + 1..e]);
                Option::Some((e + 1, text))
            } else {
                Option::None
            }
        } else {
            Option::None
        }
    } else {
        Option::None
    }
}

// ---------------------------------------------------------------------------
// The top-level driver
// ---------------------------------------------------------------------------

/// The spec-level reading of the next directive at position `i`: the eight
/// directive grammars tried in one fixed order, the first success
/// committing.  When all fail, the failure position is the deepest one any
/// of them reached.
pub open spec fn directive_at(s: Seq<u8>, i: int) -> Result<(int, CtxView<DirectiveView>), int> {
    match crate::parser::go_directive::go_at(s, i) {
        Result::Ok(r) => Result::Ok(r),
        Result::Err(p1) => match crate::parser::module_directive::module_at(s, i) {
            Result::Ok(r) => Result::Ok(r),
            Result::Err(p2) => match crate::parser::exclude_directive::exclude_at(s, i) {
                Result::Ok(r) => Result::Ok(r),
                Result::Err(p3) => match crate::parser::godebug_directive::godebug_at(s, i) {
                    Result::Ok(r) => Result::Ok(r),
                    Result::Err(p4) => match crate::parser::replace_directive::replace_at(s, i) {
                        Result::Ok(r) => Result::Ok(r),
                        Result::Err(p5) => match crate::parser::require_directive::require_at(
                            s,
                            i,
                        ) {
                            Result::Ok(r) => Result::Ok(r),
                            Result::Err(p6) => match crate::parser::retract_directive::retract_at(
                                s,
                                i,
                            ) {
                                Result::Ok(r) => Result::Ok(r),
                                Result::Err(
                                    p7,
                                ) => match crate::parser::toolchain_directive::toolchain_at(s, i) {
                                    Result::Ok(r) => Result::Ok(r),
                                    Result::Err(p8) => Result::Err(
                                        deeper(
                                            p1,
                                            deeper(
                                                p2,
                                                deeper(
                                                    p3,
                                                    deeper(
                                                        p4,
                                                        deeper(p5, deeper(p6, deeper(p7, p8))),
                                                    ),
                                                ),
                                            ),
                                        ),
                                    ),
                                },
                            },
                        },
                    },
                },
            },
        },
    }
}

pub proof fn lemma_directive_at_consumes(s: Seq<u8>, i: int)
    requires
        0 <= i <= s.len(),
    ensures
        match directive_at(s, i) {
            Result::Ok((j, c)) => i < j <= s.len(),
            Result::Err(p) => 0 <= p <= s.len(),
        },
{
    crate::parser::go_directive::lemma_go_at_consumes(s, i);
    crate::parser::module_directive::lemma_module_at_consumes(s, i);
    crate::parser::exclude_directive::lemma_exclude_at_consumes(s, i);
    crate::parser::godebug_directive::lemma_godebug_at_consumes(s, i);
    crate::parser::replace_directive::lemma_replace_at_consumes(s, i);
    crate::parser::require_directive::lemma_require_at_consumes(s, i);
    crate::parser::retract_directive::lemma_retract_at_consumes(s, i);
    crate::parser::toolchain_directive::lemma_toolchain_at_consumes(s, i);
}

/// The directives from position `i` to the end of the input: zero or more
/// directives, then trailing comment and blank lines, then the end of the
/// input.  Gives the position after the trailing comments and the
/// directives in source order; leftover text that no grammar matches is
/// the parse's failure.
pub open spec fn gomod_tail_at(s: Seq<u8>, i: int) -> Result<
    (int, Seq<CtxView<DirectiveView>>),
    int,
>
    decreases s.len() - i,
{
    match directive_at(s, i) {
        Result::Ok((j, c)) => {
            if i < j <= s.len() {
                match gomod_tail_at(s, j) {
                    Result::Ok((e, rest)) => Result::Ok((e, seq![c] + rest)),
                    Result::Err(p) => Result::Err(p),
                }
            } else {
                Result::Err(i)
            }
        },
        Result::Err(p) => {
            let t = comments_at(s, i).0;
            if t >= s.len() {
                Result::Ok((t, seq![]))
            } else {
                Result::Err(p)
            }
        },
    }
}

/// The spec-level reading of a whole document from position `i`: at least
/// one directive, and nothing but comments and blanks after the last one.
/// A document with no directive at all is refused, at the position where
/// its content ended.
pub open spec fn gomod_at(s: Seq<u8>, i: int) -> Result<(int, Seq<CtxView<DirectiveView>>), int> {
    match gomod_tail_at(s, i) {
        Result::Ok((e, ds)) => {
            if ds.len() == 0 {
                Result::Err(e)
            } else {
                Result::Ok((e, ds))
            }
        },
        Result::Err(p) => Result::Err(p),
    }
}

/// Reads the next directive at `pos`, exactly as [`directive_at`]
/// describes.
pub(crate) fn parse_directive(input: &[u8], pos: usize) -> (r: Result<
    (usize, Context<Directive>),
    ParseError,
>)
    requires
        pos <= input@.len(),
        input@.len() < u32::MAX,
    ensures
        match r {
            Result::Ok((j, c)) => directive_at(input@, pos as int) == Result::<
                (int, CtxView<DirectiveView>),
                int,
            >::Ok((j as int, c@)) && pos < j <= input@.len(),
            Result::Err(e) => directive_at(input@, pos as int) == Result::<
                (int, CtxView<DirectiveView>),
                int,
            >::Err(e.offset as int) && e == perr_of(input@, e.offset as int) && e.offset
                <= input@.len(),
        },
{
    let e1 = match crate::parser::go_directive::parse_go_directive(input, pos) {
        Result::Ok(r) => {
            return Result::Ok(r);
        },
        Result::Err(e) => e,
    };
    let e2 = match crate::parser::module_directive::parse_module_directive(input, pos) {
        Result::Ok(r) => {
            return Result::Ok(r);
        },
        Result::Err(e) => e,
    };
    let e3 = match crate::parser::exclude_directive::parse_exclude_directive(input, pos) {
        Result::Ok(r) => {
            return Result::Ok(r);
        },
        Result::Err(e) => e,
    };
    let e4 = match crate::parser::godebug_directive::parse_godebug_directive(input, pos) {
        Result::Ok(r) => {
            return Result::Ok(r);
        },
        Result::Err(e) => e,
    };
    let e5 = match crate::parser::replace_directive::parse_replace_directive(input, pos) {
        Result::Ok(r) => {
            return Result::Ok(r);
        },
        Result::Err(e) => e,
    };
    let e6 = match crate::parser::require_directive::parse_require_directive(input, pos) {
        Result::Ok(r) => {
            return Result::Ok(r);
        },
        Result::Err(e) => e,
    };
    let e7 = match crate::parser::retract_directive::parse_retract_directive(input, pos) {
        Result::Ok(r) => {
            return Result::Ok(r);
        },
        Result::Err(e) => e,
    };
    let e8 = match crate::parser::toolchain_directive::parse_toolchain_directive(input, pos) {
        Result::Ok(r) => {
            return Result::Ok(r);
        },
        Result::Err(e) => e,
    };
    let mut worst = e8.offset;
    if e7.offset > worst {
        worst = e7.offset;
    }
    if e6.offset > worst {
        worst = e6.offset;
    }
    if e5.offset > worst {
        worst = e5.offset;
    }
    if e4.offset > worst {
        worst = e4.offset;
    }
    if e3.offset > worst {
        worst = e3.offset;
    }
    if e2.offset > worst {
        worst = e2.offset;
    }
    if e1.offset > worst {
        worst = e1.offset;
    }
    Result::Err(perr(input, worst))
}

/// Parses a whole document from `pos`, exactly as [`gomod_at`] describes:
/// every directive in source order, the trailing comments consumed and
/// dropped, the end of the input reached.
pub fn parse_gomod(input: &[u8], pos: usize) -> (r: Result<(usize, GoMod), ParseError>)
    requires
        pos <= input@.len(),
        input@.len() < u32::MAX,
    ensures
        match r {
            Result::Ok((f, v)) => gomod_at(input@, pos as int) == Result::<
                (int, Seq<CtxView<DirectiveView>>),
                int,
            >::Ok((f as int, ctx_seq_view(v@))) && f <= input@.len(),
            Result::Err(e) => gomod_at(input@, pos as int) == Result::<
                (int, Seq<CtxView<DirectiveView>>),
                int,
            >::Err(e.offset as int) && e == perr_of(input@, e.offset as int) && e.offset
                <= input@.len(),
        },
{
    let mut cur = pos;
    let mut acc: GoMod = Vec::new();
    let mut err = ParseError { line: 0, offset: 0 };
    loop
        invariant
            pos <= cur <= input@.len(),
            input@.len() < u32::MAX,
            (match gomod_tail_at(input@, cur as int) {
                Result::Ok((e, rest)) => gomod_tail_at(input@, pos as int) == Result::<
                    (int, Seq<CtxView<DirectiveView>>),
                    int,
                >::Ok((e, ctx_seq_view(acc@) + rest)),
                Result::Err(p) => gomod_tail_at(input@, pos as int) == Result::<
                    (int, Seq<CtxView<DirectiveView>>),
                    int,
                >::Err(p),
            }),
        ensures
            directive_at(input@, cur as int) == Result::<
                (int, CtxView<DirectiveView>),
                int,
            >::Err(err.offset as int),
            err == perr_of(input@, err.offset as int),
            err.offset <= input@.len(),
        decreases input@.len() - cur,
    {
        proof {
            lemma_directive_at_consumes(input@, cur as int);
        }
        match parse_directive(input, cur) {
            Result::Err(e) => {
                err = e;
                break ;
            },
            Result::Ok((j, c)) => {
                proof {
                    crate::model::lemma_ctx_seq_view_push(acc@, c);
                    if let Result::Ok((e_, rest_)) = gomod_tail_at(input@, j as int) {
                        assert(ctx_seq_view(acc@) + (seq![c@] + rest_) =~~= (ctx_seq_view(acc@)
                            + seq![c@]) + rest_);
                    }
                }
                acc.push(c);
                cur = j;
            },
        }
    }
    let (t, _trailing) = parse_comments(input, cur);
    if t >= input.len() {
        proof {
            crate::model::lemma_ctx_seq_view_concat_empty::<Directive>(acc@);
        }
        if acc.len() == 0 {
            return Result::Err(perr(input, t));
        }
        Result::Ok((t, acc))
    } else {
        Result::Err(err)
    }
}

/// Whether `b` ends a godebug key or value token.
fn is_gd_stop_b(b: u8) -> (r: bool)
    ensures
        r == is_gd_stop(b),
{
    b == ' ' as u8 || b == '\t' as u8 || b == '\r' as u8 || b == '\n' as u8 || b == ',' as u8 || b == '\"' as u8 || b == '\'' as u8 || b == '`' as u8 || b == '=' as u8
}

/// Scans to the end of the godebug token that starts at `pos`.
fn gd_to(input: &[u8], pos: usize) -> (r: usize)
    requires
        pos <= input@.len(),
    ensures
        r as int == gd_end(input@, pos as int),
        pos <= r <= input@.len(),
{
    let mut i = pos;
    while i < input.len() && !is_gd_stop_b(input[i])
        invariant
            pos <= i <= input@.len(),
            gd_end(input@, pos as int) == gd_end(input@, i as int),
        decreases input@.len() - i,
    {
        i = i + 1;
    }
    i
}

/// Reads a godebug token that may stand bare, between double quotes, or
/// between backticks; gives the token itself, without the quotes.
pub(crate) fn parse_gd_token(input: &[u8], pos: usize) -> (r: Option<(usize, Vec<u8>)>)
    requires
        pos <= input@.len(),
    ensures
        match r {
            Option::Some((j, p)) => quoted_gd_at(input@, pos as int) == Option::Some(
                (j as int, p@),
            ) && pos < j <= input@.len(),
            Option::None => quoted_gd_at(input@, pos as int) is None,
        },
{
    proof {
        lemma_quoted_gd_at_consumes(input@, pos as int);
    }
    if pos < input.len() && !is_gd_stop_b(input[pos]) {
        let e = gd_to(input, pos);
        let text = slice_to_vec(&input[pos..e]);
        Option::Some((e, text))
    } else if pos < input.len() && (input[pos] == '\"' as u8 || input[pos] == '`' as u8) {
        if pos + 1 < input.len() && !is_gd_stop_b(input[pos + 1]) {
            let e = gd_to(input, pos + 1);
            if e < input.len() && input[e] == input[pos] {
                let text = slice_to_vec(&input[pos + 1..e]);
                Option::Some((e + 1, text))
            } else {
                Option::None
            }
        } else {
            Option::None
        }
    } else {
        Option::None
    }
}

} // verus!
