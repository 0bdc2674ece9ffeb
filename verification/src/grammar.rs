//! The spec-level grammar of `go.mod`.
//!
//! Each function reads one construct of the grammar at a position of the
//! input and gives the position one past it together with the value read,
//! or says that the construct is not there.  The executable parser is
//! proved to return exactly what these functions describe.

use vstd::prelude::*;
use crate::model::{
    IdentView, SundryView, delims_end, is_gd_stop, is_interp_plain, is_path_byte, line_end,
};

verus! {

// ---------------------------------------------------------------------------
// Comment and blank-line classification
// ---------------------------------------------------------------------------

/// Classifies the physical line at position `i`, delimiters first skipped:
/// a `//` comment runs to the end of the line, whose newline is consumed
/// but kept out of the captured text; a line of delimiters alone is blank;
/// the very end of the input is its own signal.  Anything else is not a
/// comment line.
pub open spec fn comment_at(s: Seq<u8>, i: int) -> Option<(int, SundryView)> {
    let j = delims_end(s, i);
    if j + 1 < s.len() && s[j] == '/' as u8 && s[j + 1] == '/' as u8 {
        let e = line_end(s, j + 2);
        let text = s.subrange(j + 2, e);
        if e < s.len() {
            Option::Some((e + 1, SundryView::Comment(text)))
        } else {
            Option::Some((e, SundryView::Comment(text)))
        }
    } else if j < s.len() && s[j] == '\n' as u8 {
        Option::Some((j + 1, SundryView::Empty))
    } else if j >= s.len() {
        if i < s.len() {
            Option::Some((j, SundryView::Empty))
        } else {
            Option::Some((i, SundryView::EOF))
        }
    } else {
        Option::None
    }
}

pub proof fn lemma_comment_at_consumes(s: Seq<u8>, i: int)
    requires
        0 <= i <= s.len(),
    ensures
        match comment_at(s, i) {
            Option::Some((j, su)) => {
                &&& i <= j <= s.len()
                &&& (su is EOF <==> i == s.len())
                &&& (!(su is EOF) ==> i < j)
            },
            Option::None => true,
        },
{
    crate::model::lemma_delims_end_bounds(s, i);
    let j = delims_end(s, i);
    if j + 1 < s.len() && s[j] == '/' as u8 && s[j + 1] == '/' as u8 {
        crate::model::lemma_line_end_bounds(s, j + 2);
    }
}

/// Gathers the run of comment and blank lines that starts at position `i`:
/// blanks are skipped, comment texts are kept in source order.  The run
/// ends before the first line that is neither, or at the end of the input.
pub open spec fn comments_at(s: Seq<u8>, i: int) -> (int, Seq<Seq<u8>>)
    decreases s.len() - i,
{
    match comment_at(s, i) {
        Option::None => (i, seq![]),
        Option::Some((j, su)) => {
            if i < j <= s.len() {
                match su {
                    SundryView::Comment(t) => {
                        let r = comments_at(s, j);
                        (r.0, seq![t] + r.1)
                    },
                    SundryView::Empty => comments_at(s, j),
                    SundryView::EOF => (i, seq![]),
                }
            } else {
                (i, seq![])
            }
        },
    }
}

pub proof fn lemma_comments_at_bounds(s: Seq<u8>, i: int)
    requires
        0 <= i <= s.len(),
    ensures
        i <= comments_at(s, i).0 <= s.len(),
    decreases s.len() - i,
{
    lemma_comment_at_consumes(s, i);
    match comment_at(s, i) {
        Option::None => {},
        Option::Some((j, su)) => {
            if i < j <= s.len() && !(su is EOF) {
                lemma_comments_at_bounds(s, j);
            }
        },
    }
}

// ---------------------------------------------------------------------------
// Strings and identifiers
// ---------------------------------------------------------------------------

/// A raw string: a non-empty run of bytes between two backticks, with no
/// backtick and no newline inside, taken verbatim.
pub open spec fn raw_string_at(s: Seq<u8>, i: int) -> Option<(int, Seq<u8>)> {
    if 0 <= i < s.len() && s[i] == '`' as u8 {
        let e = raw_content_end(s, i + 1);
        if i + 1 < e && e < s.len() && s[e] == '`' as u8 {
            Option::Some((e + 1, s.subrange(i + 1, e)))
        } else {
            Option::None
        }
    } else {
        Option::None
    }
}

/// The first position at or after `i` holding a backtick or a newline, or
/// the length of the input.
pub open spec fn raw_content_end(s: Seq<u8>, i: int) -> int
    decreases s.len() - i,
{
    if 0 <= i < s.len() && s[i] != '`' as u8 && s[i] != '\n' as u8 {
        raw_content_end(s, i + 1)
    } else {
        i
    }
}

pub proof fn lemma_raw_content_end_bounds(s: Seq<u8>, i: int)
    requires
        0 <= i <= s.len(),
    ensures
        i <= raw_content_end(s, i) <= s.len(),
    decreases s.len() - i,
{
    if i < s.len() && s[i] != '`' as u8 && s[i] != '\n' as u8 {
        lemma_raw_content_end_bounds(s, i + 1);
    }
}

/// The body of an interpreted string from position `i` (just after the
/// opening quote) to its closing quote: a plain byte stands for itself, a
/// backslash followed by any byte stands for that following byte.  Gives
/// the position one past the closing quote and the decoded bytes.
pub open spec fn interp_tail_at(s: Seq<u8>, i: int) -> Option<(int, Seq<u8>)>
    decreases s.len() - i,
{
    if i < 0 || i >= s.len() {
        Option::None
    } else if s[i] == '\"' as u8 {
        Option::Some((i + 1, seq![]))
    } else if s[i] == '\\' as u8 {
        if i + 1 < s.len() {
            match interp_tail_at(s, i + 2) {
                Option::Some((e, v)) => Option::Some((e, seq![s[i + 1]] + v)),
                Option::None => Option::None,
            }
        } else {
            Option::None
        }
    } else if is_interp_plain(s[i]) {
        match interp_tail_at(s, i + 1) {
            Option::Some((e, v)) => Option::Some((e, seq![s[i]] + v)),
            Option::None => Option::None,
        }
    } else {
        Option::None
    }
}

pub proof fn lemma_interp_tail_at_bounds(s: Seq<u8>, i: int)
    requires
        0 <= i <= s.len(),
    ensures
        match interp_tail_at(s, i) {
            Option::Some((e, v)) => i < e <= s.len(),
            Option::None => true,
        },
    decreases s.len() - i,
{
    if 0 <= i < s.len() {
        if s[i] == '\"' as u8 {
        } else if s[i] == '\\' as u8 {
            if i + 1 < s.len() {
                lemma_interp_tail_at_bounds(s, i + 2);
            }
        } else if is_interp_plain(s[i]) {
            lemma_interp_tail_at_bounds(s, i + 1);
        }
    }
}

/// An interpreted string: a double quote, a body of plain and escaped
/// bytes, and a closing double quote.
pub open spec fn interp_string_at(s: Seq<u8>, i: int) -> Option<(int, Seq<u8>)> {
    if 0 <= i < s.len() && s[i] == '\"' as u8 {
        interp_tail_at(s, i + 1)
    } else {
        Option::None
    }
}

/// Whether a bare token ends at position `i`: at the end of the input, at
/// whitespace, at one of `( ) , [ ]`, or where `//` or `=>` begins.
pub open spec fn bare_stop_at(s: Seq<u8>, i: int) -> bool {
    ||| i >= s.len()
    ||| s[i] == ' ' as u8 || s[i] == '\t' as u8 || s[i] == '\n' as u8 || s[i] == '\r' as u8
    ||| s[i] == '(' as u8 || s[i] == ')' as u8 || s[i] == ',' as u8 || s[i] == '[' as u8 || s[i] == ']' as u8
    ||| (s[i] == '/' as u8 && i + 1 < s.len() && s[i + 1] == '/' as u8)
    ||| (s[i] == '=' as u8 && i + 1 < s.len() && s[i + 1] == '>' as u8)
}

/// The end of the bare token that starts at position `i`.
pub open spec fn bare_end(s: Seq<u8>, i: int) -> int
    decreases s.len() - i,
{
    if 0 <= i && !bare_stop_at(s, i) {
        bare_end(s, i + 1)
    } else {
        i
    }
}

pub proof fn lemma_bare_end_bounds(s: Seq<u8>, i: int)
    requires
        0 <= i <= s.len(),
    ensures
        i <= bare_end(s, i) <= s.len(),
    decreases s.len() - i,
{
    if !bare_stop_at(s, i) {
        lemma_bare_end_bounds(s, i + 1);
    }
}

/// An identifier: a raw string, else an interpreted string, else a
/// non-empty bare token read up to the nearest stopping point.
pub open spec fn ident_at(s: Seq<u8>, i: int) -> Option<(int, IdentView)> {
    match raw_string_at(s, i) {
        Option::Some((e, v)) => Option::Some((e, IdentView::Raw(v))),
        Option::None => match interp_string_at(s, i) {
            Option::Some((e, v)) => Option::Some((e, IdentView::Interpreted(v))),
            Option::None => {
                let e = bare_end(s, i);
                if e > i {
                    Option::Some((e, IdentView::Raw(s.subrange(i, e))))
                } else {
                    Option::None
                }
            },
        },
    }
}

pub proof fn lemma_ident_at_consumes(s: Seq<u8>, i: int)
    requires
        0 <= i <= s.len(),
    ensures
        match ident_at(s, i) {
            Option::Some((e, v)) => i < e <= s.len(),
            Option::None => true,
        },
{
    if i < s.len() {
        lemma_raw_content_end_bounds(s, i + 1);
        lemma_interp_tail_at_bounds(s, i + 1);
    }
    lemma_bare_end_bounds(s, i);
}

// ---------------------------------------------------------------------------
// Module paths and godebug tokens
// ---------------------------------------------------------------------------

/// The end of the module path that starts at position `i`: path bytes run
/// on, and a `/` continues the path only when a path byte follows it.
pub open spec fn path_end(s: Seq<u8>, i: int) -> int
    decreases s.len() - i,
{
    if 0 <= i < s.len() && is_path_byte(s[i]) {
        path_end(s, i + 1)
    } else if 0 <= i && i + 1 < s.len() && s[i] == '/' as u8 && is_path_byte(s[i + 1]) {
        path_end(s, i + 1)
    } else {
        i
    }
}

pub proof fn lemma_path_end_bounds(s: Seq<u8>, i: int)
    requires
        0 <= i <= s.len(),
    ensures
        i <= path_end(s, i) <= s.len(),
    decreases s.len() - i,
{
    if i < s.len() && is_path_byte(s[i]) {
        lemma_path_end_bounds(s, i + 1);
    } else if i + 1 < s.len() && s[i] == '/' as u8 && is_path_byte(s[i + 1]) {
        lemma_path_end_bounds(s, i + 1);
    }
}

/// A bare module path: one or more segments of path bytes joined by `/`.
pub open spec fn path_at(s: Seq<u8>, i: int) -> Option<(int, Seq<u8>)> {
    if 0 <= i < s.len() && is_path_byte(s[i]) {
        Option::Some((path_end(s, i), s.subrange(i, path_end(s, i))))
    } else {
        Option::None
    }
}

/// A module path that may stand bare, between double quotes, or between
/// backticks; the value is the path itself, without the quotes.
pub open spec fn quoted_path_at(s: Seq<u8>, i: int) -> Option<(int, Seq<u8>)> {
    match path_at(s, i) {
        Option::Some((e, v)) => Option::Some((e, v)),
        Option::None => {
            if 0 <= i < s.len() && (s[i] == '\"' as u8 || s[i] == '`' as u8) {
                match path_at(s, i + 1) {
                    Option::Some((e, v)) => {
                        if e < s.len() && s[e] == s[i] {
                            Option::Some((e + 1, v))
                        } else {
                            Option::None
                        }
                    },
                    Option::None => Option::None,
                }
            } else {
                Option::None
            }
        },
    }
}

pub proof fn lemma_quoted_path_at_consumes(s: Seq<u8>, i: int)
    requires
        0 <= i <= s.len(),
    ensures
        match quoted_path_at(s, i) {
            Option::Some((e, v)) => i < e <= s.len(),
            Option::None => true,
        },
{
    lemma_path_end_bounds(s, i);
    if i + 1 <= s.len() {
        lemma_path_end_bounds(s, i + 1);
    }
}

/// The end of the godebug token that starts at position `i`.
pub open spec fn gd_end(s: Seq<u8>, i: int) -> int
    decreases s.len() - i,
{
    if 0 <= i < s.len() && !is_gd_stop(s[i]) {
        gd_end(s, i + 1)
    } else {
        i
    }
}

pub proof fn lemma_gd_end_bounds(s: Seq<u8>, i: int)
    requires
        0 <= i <= s.len(),
    ensures
        i <= gd_end(s, i) <= s.len(),
    decreases s.len() - i,
{
    if i < s.len() && !is_gd_stop(s[i]) {
        lemma_gd_end_bounds(s, i + 1);
    }
}

/// A bare godebug token: a non-empty run of bytes up to a stopping byte.
pub open spec fn gd_token_at(s: Seq<u8>, i: int) -> Option<(int, Seq<u8>)> {
    if 0 <= i < s.len() && !is_gd_stop(s[i]) {
        Option::Some((gd_end(s, i), s.subrange(i, gd_end(s, i))))
    } else {
        Option::None
    }
}

/// A godebug token that may stand bare, between double quotes, or between
/// backticks; the value is the token itself, without the quotes.
pub open spec fn quoted_gd_at(s: Seq<u8>, i: int) -> Option<(int, Seq<u8>)> {
    match gd_token_at(s, i) {
        Option::Some((e, v)) => Option::Some((e, v)),
        Option::None => {
            if 0 <= i < s.len() && (s[i] == '\"' as u8 || s[i] == '`' as u8) {
                match gd_token_at(s, i + 1) {
                    Option::Some((e, v)) => {
                        if e < s.len() && s[e] == s[i] {
                            Option::Some((e + 1, v))
                        } else {
                            Option::None
                        }
                    },
                    Option::None => Option::None,
                }
            } else {
                Option::None
            }
        },
    }
}

pub proof fn lemma_quoted_gd_at_consumes(s: Seq<u8>, i: int)
    requires
        0 <= i <= s.len(),
    ensures
        match quoted_gd_at(s, i) {
            Option::Some((e, v)) => i < e <= s.len(),
            Option::None => true,
        },
{
    lemma_gd_end_bounds(s, i);
    if i + 1 <= s.len() {
        lemma_gd_end_bounds(s, i + 1);
    }
}

// ---------------------------------------------------------------------------
// Helpers shared by the directive grammars
// ---------------------------------------------------------------------------

/// The trailing comment of a construct, as a list of zero or one comment
/// texts.
pub open spec fn trail(su: SundryView) -> Seq<Seq<u8>> {
    match su {
        SundryView::Comment(t) => seq![t],
        _ => seq![],
    }
}

/// The deeper of two failure positions.
pub open spec fn deeper(a: int, b: int) -> int {
    if a >= b {
        a
    } else {
        b
    }
}

// ---------------------------------------------------------------------------
// Keywords
// ---------------------------------------------------------------------------

/// The `=>` token of a `replace` entry.
pub open spec fn arrow() -> Seq<u8> {
    seq!['=' as u8, '>' as u8]
}

pub open spec fn kw_module() -> Seq<u8> {
    seq!['m' as u8, 'o' as u8, 'd' as u8, 'u' as u8, 'l' as u8, 'e' as u8]
}

pub open spec fn kw_go() -> Seq<u8> {
    seq!['g' as u8, 'o' as u8]
}

pub open spec fn kw_toolchain() -> Seq<u8> {
    seq!['t' as u8, 'o' as u8, 'o' as u8, 'l' as u8, 'c' as u8, 'h' as u8, 'a' as u8, 'i' as u8, 'n' as u8]
}

pub open spec fn kw_require() -> Seq<u8> {
    seq!['r' as u8, 'e' as u8, 'q' as u8, 'u' as u8, 'i' as u8, 'r' as u8, 'e' as u8]
}

pub open spec fn kw_exclude() -> Seq<u8> {
    seq!['e' as u8, 'x' as u8, 'c' as u8, 'l' as u8, 'u' as u8, 'd' as u8, 'e' as u8]
}

pub open spec fn kw_godebug() -> Seq<u8> {
    seq!['g' as u8, 'o' as u8, 'd' as u8, 'e' as u8, 'b' as u8, 'u' as u8, 'g' as u8]
}

pub open spec fn kw_replace() -> Seq<u8> {
    seq!['r' as u8, 'e' as u8, 'p' as u8, 'l' as u8, 'a' as u8, 'c' as u8, 'e' as u8]
}

pub open spec fn kw_retract() -> Seq<u8> {
    seq!['r' as u8, 'e' as u8, 't' as u8, 'r' as u8, 'a' as u8, 'c' as u8, 't' as u8]
}

} // verus!
