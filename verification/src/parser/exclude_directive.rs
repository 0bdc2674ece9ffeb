//! The `exclude` directive: the same entry shape as `require`, under its
//! own keyword.

use vstd::prelude::*;
use crate::{Context, Directive, ParseError};
use crate::grammar::{comments_at, kw_exclude, lemma_comments_at_bounds};
use crate::model::{
    bytes_at, delims_end, lemma_delims_end_bounds, loc_of, perr_of, CtxView, DirectiveView,
};
use crate::parser::require_directive::{lemma_require_body_at_bounds, require_body_at};
use crate::parser::{append_comments, delims_to, locate, match_bytes, parse_comments, perr};

verus! {

/// The spec-level reading of an `exclude` directive at position `i`: the
/// keyword, then a body of exactly the `require` shape.
pub open spec fn exclude_at(s: Seq<u8>, i: int) -> Result<(int, CtxView<DirectiveView>), int> {
    let lead = comments_at(s, i);
    let j = delims_end(s, lead.0);
    if !bytes_at(s, j, kw_exclude()) {
        Result::Err(j)
    } else {
        match require_body_at(s, j + kw_exclude().len()) {
            Result::Err(p) => Result::Err(p),
            Result::Ok((f, ents, tr)) => Result::Ok(
                (
                    f,
                    CtxView {
                        range: (loc_of(s, j), loc_of(s, f)),
                        comments: lead.1 + tr,
                        value: DirectiveView::Exclude { specs: ents },
                    },
                ),
            ),
        }
    }
}

pub proof fn lemma_exclude_at_consumes(s: Seq<u8>, i: int)
    requires
        0 <= i <= s.len(),
    ensures
        match exclude_at(s, i) {
            Result::Ok((f, c)) => i < f <= s.len(),
            Result::Err(p) => 0 <= p <= s.len(),
        },
{
    lemma_comments_at_bounds(s, i);
    let lead = comments_at(s, i);
    lemma_delims_end_bounds(s, lead.0);
    let j = delims_end(s, lead.0);
    if bytes_at(s, j, kw_exclude()) {
        lemma_require_body_at_bounds(s, j + kw_exclude().len());
    }
}

/// Reads an `exclude` directive at `pos`, exactly as [`exclude_at`]
/// describes.
pub fn parse_exclude_directive(input: &[u8], pos: usize) -> (r: Result<
    (usize, Context<Directive>),
    ParseError,
>)
    requires
        pos <= input@.len(),
        input@.len() < u32::MAX,
    ensures
        match r {
            Result::Ok((f, c)) => exclude_at(input@, pos as int) == Result::<
                (int, CtxView<DirectiveView>),
                int,
            >::Ok((f as int, c@)) && pos < f <= input@.len(),
            Result::Err(e) => exclude_at(input@, pos as int) == Result::<
                (int, CtxView<DirectiveView>),
                int,
            >::Err(e.offset as int) && e == perr_of(input@, e.offset as int) && e.offset
                <= input@.len(),
        },
{
    proof {
        lemma_exclude_at_consumes(input@, pos as int);
        lemma_comments_at_bounds(input@, pos as int);
    }
    let (c0, lead) = parse_comments(input, pos);
    let j = delims_to(input, c0);
    let kw: [u8; 7] = [
        'e' as u8,
        'x' as u8,
        'c' as u8,
        'l' as u8,
        'u' as u8,
        'd' as u8,
        'e' as u8,
    ];
    proof {
        assert(kw@ =~= kw_exclude());
    }
    if !match_bytes(input, j, kw.as_slice()) {
        return Result::Err(perr(input, j));
    }
    match crate::parser::require_directive::parse_require_body(input, j + 7) {
        Result::Err(p) => Result::Err(perr(input, p)),
        Result::Ok((f, ents, tr)) => {
            let start = locate(input, j);
            let end = locate(input, f);
            let mut comments = lead;
            append_comments(&mut comments, tr);
            let ctx = Context {
                range: (start, end),
                comments,
                value: Directive::Exclude { specs: ents },
            };
            Result::Ok((f, ctx))
        },
    }
}

} // verus!
