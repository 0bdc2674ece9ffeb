//! The `go` directive: `go <version>`, inline form only.

use vstd::prelude::*;
use crate::{Context, Directive, ParseError, Sundry};
use crate::grammar::{comment_at, comments_at, ident_at, kw_go, trail};
use crate::model::{
    bytes_at, bytes_seq_view, delims_end, lemma_bytes_seq_view_concat_empty,
    lemma_bytes_seq_view_push, loc_of, perr_of, CtxView, DirectiveView,
};
use crate::parser::{delims_to, locate, match_bytes, parse_comments, parse_identifier,
    parse_inline_comment, perr};

verus! {

/// The spec-level reading of a `go` directive at position `i`: leading
/// comments, the keyword between delimiters, one identifier, and the line's
/// trailing comment.  The range starts at the keyword and ends after the
/// trailing comment's newline.  On failure, the position at which no
/// further token could be read.
pub open spec fn go_at(s: Seq<u8>, i: int) -> Result<(int, CtxView<DirectiveView>), int> {
    let lead = comments_at(s, i);
    let j = delims_end(s, lead.0);
    if !bytes_at(s, j, kw_go()) {
        Result::Err(j)
    } else {
        let k = j + kw_go().len();
        let d = delims_end(s, k);
        if d == k {
            Result::Err(k)
        } else {
            match ident_at(s, d) {
                Option::None => Result::Err(d),
                Option::Some((e, ver)) => match comment_at(s, e) {
                    Option::None => Result::Err(e),
                    Option::Some((f, su)) => Result::Ok(
                        (
                            f,
                            CtxView {
                                range: (loc_of(s, j), loc_of(s, f)),
                                comments: lead.1 + trail(su),
                                value: DirectiveView::Go { version: ver },
                            },
                        ),
                    ),
                },
            }
        }
    }
}

pub proof fn lemma_go_at_consumes(s: Seq<u8>, i: int)
    requires
        0 <= i <= s.len(),
    ensures
        match go_at(s, i) {
            Result::Ok((f, c)) => i < f <= s.len(),
            Result::Err(p) => 0 <= p <= s.len(),
        },
{
    crate::grammar::lemma_comments_at_bounds(s, i);
    let lead = comments_at(s, i);
    crate::model::lemma_delims_end_bounds(s, lead.0);
    let j = delims_end(s, lead.0);
    if bytes_at(s, j, kw_go()) {
        let k = j + kw_go().len();
        crate::model::lemma_delims_end_bounds(s, k);
        let d = delims_end(s, k);
        if d != k {
            crate::grammar::lemma_ident_at_consumes(s, d);
            if let Option::Some((e, ver)) = ident_at(s, d) {
                crate::grammar::lemma_comment_at_consumes(s, e);
            }
        }
    }
}

/// Reads a `go` directive at `pos`, exactly as [`go_at`] describes.
pub fn parse_go_directive(input: &[u8], pos: usize) -> (r: Result<
    (usize, Context<Directive>),
    ParseError,
>)
    requires
        pos <= input@.len(),
        input@.len() < u32::MAX,
    ensures
        match r {
            Result::Ok((f, c)) => go_at(input@, pos as int) == Result::<
                (int, CtxView<DirectiveView>),
                int,
            >::Ok((f as int, c@)) && pos < f <= input@.len(),
            Result::Err(e) => go_at(input@, pos as int) == Result::<
                (int, CtxView<DirectiveView>),
                int,
            >::Err(e.offset as int) && e == perr_of(input@, e.offset as int) && e.offset
                <= input@.len(),
        },
{
    proof {
        lemma_go_at_consumes(input@, pos as int);
    }
    let (c0, lead) = parse_comments(input, pos);
    let j = delims_to(input, c0);
    let kw: [u8; 2] = ['g' as u8, 'o' as u8];
    proof {
        assert(kw@ =~= kw_go());
    }
    if !match_bytes(input, j, kw.as_slice()) {
        return Result::Err(perr(input, j));
    }
    let k = j + 2;
    let d = delims_to(input, k);
    if d == k {
        return Result::Err(perr(input, k));
    }
    match parse_identifier(input, d) {
        Option::None => Result::Err(perr(input, d)),
        Option::Some((e, ver)) => match parse_inline_comment(input, e) {
            Option::None => Result::Err(perr(input, e)),
            Option::Some((f, su)) => {
                let start = locate(input, j);
                let end = locate(input, f);
                let mut comments = lead;
                match su {
                    Sundry::Comment(t) => {
                        proof {
                            lemma_bytes_seq_view_push(comments@, t);
                        }
                        comments.push(t);
                    },
                    _ => {
                        proof {
                            lemma_bytes_seq_view_concat_empty(comments@);
                        }
                    },
                }
                let ctx = Context {
                    range: (start, end),
                    comments,
                    value: Directive::Go { version: ver },
                };
                Result::Ok((f, ctx))
            },
        },
    }
}

} // verus!
