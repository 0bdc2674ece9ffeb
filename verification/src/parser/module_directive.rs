//! The `module` directive: `module <path>` inline, or a parenthesized
//! block holding exactly one path.

use vstd::prelude::*;
use crate::{Context, Directive, ParseError, Sundry};
use crate::grammar::{
    comment_at, comments_at, deeper, kw_module, lemma_comment_at_consumes,
    lemma_comments_at_bounds, lemma_quoted_path_at_consumes, quoted_path_at, trail,
};
use crate::model::{
    bytes_at, bytes_seq_view, delims_end, lemma_delims_end_bounds, loc_of, perr_of, CtxView,
    DirectiveView,
};
use crate::parser::{
    append_comments, delims_to, locate, match_bytes, parse_comments, parse_inline_comment,
    parse_quoted_path, perr, push_trail,
};

verus! {

/// The inline body of a `module` directive, read from position `k` just
/// after the keyword: at least one delimiter, the path, and the line's
/// trailing comment.
pub open spec fn module_inline_at(s: Seq<u8>, k: int) -> Result<(int, Seq<u8>, Seq<Seq<u8>>), int> {
    let d = delims_end(s, k);
    if d == k {
        Result::Err(k)
    } else {
        match quoted_path_at(s, d) {
            Option::None => Result::Err(d),
            Option::Some((e, p)) => match comment_at(s, e) {
                Option::None => Result::Err(e),
                Option::Some((f, su)) => Result::Ok((f, p, trail(su))),
            },
        }
    }
}

/// The block body of a `module` directive, read from position `k` just
/// after the keyword: `(`, its trailing comment, comment lines, the path
/// with its trailing comment, comment lines, `)` and its trailing comment.
pub open spec fn module_block_at(s: Seq<u8>, k: int) -> Result<(int, Seq<u8>, Seq<Seq<u8>>), int> {
    let d = delims_end(s, k);
    if !(d < s.len() && s[d] == '(' as u8) {
        Result::Err(d)
    } else {
        match comment_at(s, d + 1) {
            Option::None => Result::Err(d + 1),
            Option::Some((g, su1)) => {
                let lead2 = comments_at(s, g);
                let d2 = delims_end(s, lead2.0);
                match quoted_path_at(s, d2) {
                    Option::None => Result::Err(d2),
                    Option::Some((e, p)) => match comment_at(s, e) {
                        Option::None => Result::Err(e),
                        Option::Some((h, su2)) => {
                            let lead3 = comments_at(s, h);
                            let d3 = delims_end(s, lead3.0);
                            if !(d3 < s.len() && s[d3] == ')' as u8) {
                                Result::Err(d3)
                            } else {
                                match comment_at(s, d3 + 1) {
                                    Option::None => Result::Err(d3 + 1),
                                    Option::Some((f, su3)) => Result::Ok(
                                        (
                                            f,
                                            p,
                                            trail(su1) + lead2.1 + trail(su2) + lead3.1 + trail(
                                                su3,
                                            ),
                                        ),
                                    ),
                                }
                            }
                        },
                    },
                }
            },
        }
    }
}

/// The spec-level reading of a `module` directive at position `i`: leading
/// comments, the keyword, then the inline form or, failing that, the block
/// form.  The range starts at the keyword; the directive's comments are
/// the leading ones followed by every comment its body carries.
pub open spec fn module_at(s: Seq<u8>, i: int) -> Result<(int, CtxView<DirectiveView>), int> {
    let lead = comments_at(s, i);
    let j = delims_end(s, lead.0);
    if !bytes_at(s, j, kw_module()) {
        Result::Err(j)
    } else {
        let k = j + kw_module().len();
        match module_inline_at(s, k) {
            Result::Ok((f, p, tr)) => Result::Ok(
                (
                    f,
                    CtxView {
                        range: (loc_of(s, j), loc_of(s, f)),
                        comments: lead.1 + tr,
                        value: DirectiveView::Module { path: p },
                    },
                ),
            ),
            Result::Err(p1) => match module_block_at(s, k) {
                Result::Ok((f, p, tr)) => Result::Ok(
                    (
                        f,
                        CtxView {
                            range: (loc_of(s, j), loc_of(s, f)),
                            comments: lead.1 + tr,
                            value: DirectiveView::Module { path: p },
                        },
                    ),
                ),
                Result::Err(p2) => Result::Err(deeper(p1, p2)),
            },
        }
    }
}

pub proof fn lemma_module_inline_at_bounds(s: Seq<u8>, k: int)
    requires
        0 <= k <= s.len(),
    ensures
        match module_inline_at(s, k) {
            Result::Ok((f, p, tr)) => k < f <= s.len(),
            Result::Err(p) => 0 <= p <= s.len(),
        },
{
    lemma_delims_end_bounds(s, k);
    let d = delims_end(s, k);
    if d != k {
        lemma_quoted_path_at_consumes(s, d);
        if let Option::Some((e, p)) = quoted_path_at(s, d) {
            lemma_comment_at_consumes(s, e);
        }
    }
}

pub proof fn lemma_module_block_at_bounds(s: Seq<u8>, k: int)
    requires
        0 <= k <= s.len(),
    ensures
        match module_block_at(s, k) {
            Result::Ok((f, p, tr)) => k < f <= s.len(),
            Result::Err(p) => 0 <= p <= s.len(),
        },
{
    lemma_delims_end_bounds(s, k);
    let d = delims_end(s, k);
    if d < s.len() && s[d] == '(' as u8 {
        lemma_comment_at_consumes(s, d + 1);
        if let Option::Some((g, su1)) = comment_at(s, d + 1) {
            lemma_comments_at_bounds(s, g);
            let lead2 = comments_at(s, g);
            lemma_delims_end_bounds(s, lead2.0);
            let d2 = delims_end(s, lead2.0);
            lemma_quoted_path_at_consumes(s, d2);
            if let Option::Some((e, p)) = quoted_path_at(s, d2) {
                lemma_comment_at_consumes(s, e);
                if let Option::Some((h, su2)) = comment_at(s, e) {
                    lemma_comments_at_bounds(s, h);
                    let lead3 = comments_at(s, h);
                    lemma_delims_end_bounds(s, lead3.0);
                    let d3 = delims_end(s, lead3.0);
                    if d3 < s.len() && s[d3] == ')' as u8 {
                        lemma_comment_at_consumes(s, d3 + 1);
                    }
                }
            }
        }
    }
}

pub proof fn lemma_module_at_consumes(s: Seq<u8>, i: int)
    requires
        0 <= i <= s.len(),
    ensures
        match module_at(s, i) {
            Result::Ok((f, c)) => i < f <= s.len(),
            Result::Err(p) => 0 <= p <= s.len(),
        },
{
    lemma_comments_at_bounds(s, i);
    let lead = comments_at(s, i);
    lemma_delims_end_bounds(s, lead.0);
    let j = delims_end(s, lead.0);
    if bytes_at(s, j, kw_module()) {
        let k = j + kw_module().len();
        lemma_module_inline_at_bounds(s, k);
        lemma_module_block_at_bounds(s, k);
    }
}

/// Reads the body of a `module` block form, exactly as
/// [`module_block_at`] describes.
fn parse_module_block(input: &[u8], k: usize) -> (r: Result<(usize, Vec<u8>, Vec<Vec<u8>>), usize>)
    requires
        k <= input@.len(),
    ensures
        match r {
            Result::Ok((f, p, tr)) => module_block_at(input@, k as int) == Result::<
                (int, Seq<u8>, Seq<Seq<u8>>),
                int,
            >::Ok((f as int, p@, bytes_seq_view(tr@))) && k < f <= input@.len(),
            Result::Err(p) => module_block_at(input@, k as int) == Result::<
                (int, Seq<u8>, Seq<Seq<u8>>),
                int,
            >::Err(p as int) && p <= input@.len(),
        },
{
    proof {
        lemma_module_block_at_bounds(input@, k as int);
    }
    let d = delims_to(input, k);
    if !(d < input.len() && input[d] == '(' as u8) {
        return Result::Err(d);
    }
    match parse_inline_comment(input, d + 1) {
        Option::None => Result::Err(d + 1),
        Option::Some((g, su1)) => {
            let mut tr: Vec<Vec<u8>> = Vec::new();
            proof {
                assert(bytes_seq_view(tr@) =~~= Seq::<Seq<u8>>::empty());
            }
            push_trail(&mut tr, su1);
            let (c2, lead2) = parse_comments(input, g);
            append_comments(&mut tr, lead2);
            let d2 = delims_to(input, c2);
            match parse_quoted_path(input, d2) {
                Option::None => Result::Err(d2),
                Option::Some((e, p)) => match parse_inline_comment(input, e) {
                    Option::None => Result::Err(e),
                    Option::Some((h, su2)) => {
                        push_trail(&mut tr, su2);
                        let (c3, lead3) = parse_comments(input, h);
                        append_comments(&mut tr, lead3);
                        let d3 = delims_to(input, c3);
                        if !(d3 < input.len() && input[d3] == ')' as u8) {
                            return Result::Err(d3);
                        }
                        match parse_inline_comment(input, d3 + 1) {
                            Option::None => Result::Err(d3 + 1),
                            Option::Some((f, su3)) => {
                                push_trail(&mut tr, su3);
                                proof {
                                    if let Option::Some((g_, su1_)) = comment_at(
                                        input@,
                                        d as int + 1,
                                    ) {
                                        let lead2_ = comments_at(input@, g_);
                                        if let Option::Some((e_, p_)) = quoted_path_at(
                                            input@,
                                            delims_end(input@, lead2_.0),
                                        ) {
                                            if let Option::Some((h_, su2_)) = comment_at(
                                                input@,
                                                e_,
                                            ) {
                                                let lead3_ = comments_at(input@, h_);
                                                if let Option::Some((f_, su3_)) = comment_at(
                                                    input@,
                                                    delims_end(input@, lead3_.0) + 1,
                                                ) {
                                                    assert((((Seq::<Seq<u8>>::empty() + trail(su1_))
                                                        + lead2_.1 + trail(su2_)) + lead3_.1
                                                        + trail(su3_)) =~~= trail(su1_) + lead2_.1
                                                        + trail(su2_) + lead3_.1 + trail(su3_));
                                                }
                                            }
                                        }
                                    }
                                }
                                Result::Ok((f, p, tr))
                            },
                        }
                    },
                },
            }
        },
    }
}

/// Reads a `module` directive at `pos`, exactly as [`module_at`]
/// describes.
pub fn parse_module_directive(input: &[u8], pos: usize) -> (r: Result<
    (usize, Context<Directive>),
    ParseError,
>)
    requires
        pos <= input@.len(),
        input@.len() < u32::MAX,
    ensures
        match r {
            Result::Ok((f, c)) => module_at(input@, pos as int) == Result::<
                (int, CtxView<DirectiveView>),
                int,
            >::Ok((f as int, c@)) && pos < f <= input@.len(),
            Result::Err(e) => module_at(input@, pos as int) == Result::<
                (int, CtxView<DirectiveView>),
                int,
            >::Err(e.offset as int) && e == perr_of(input@, e.offset as int) && e.offset
                <= input@.len(),
        },
{
    proof {
        lemma_module_at_consumes(input@, pos as int);
        lemma_comments_at_bounds(input@, pos as int);
    }
    let (c0, lead) = parse_comments(input, pos);
    let j = delims_to(input, c0);
    let kw: [u8; 6] = ['m' as u8, 'o' as u8, 'd' as u8, 'u' as u8, 'l' as u8, 'e' as u8];
    proof {
        assert(kw@ =~= kw_module());
    }
    if !match_bytes(input, j, kw.as_slice()) {
        return Result::Err(perr(input, j));
    }
    let k = j + 6;
    proof {
        lemma_module_inline_at_bounds(input@, k as int);
        lemma_module_block_at_bounds(input@, k as int);
    }
    let d = delims_to(input, k);
    let mut inline_err: usize = k;
    if d != k {
        match parse_quoted_path(input, d) {
            Option::None => {
                inline_err = d;
            },
            Option::Some((e, p)) => {
                match parse_inline_comment(input, e) {
                    Option::None => {
                        inline_err = e;
                    },
                    Option::Some((f, su)) => {
                        let start = locate(input, j);
                        let end = locate(input, f);
                        let mut comments = lead;
                        push_trail(&mut comments, su);
                        let ctx = Context {
                            range: (start, end),
                            comments,
                            value: Directive::Module { path: p },
                        };
                        return Result::Ok((f, ctx));
                    },
                }
            },
        }
    }
    match parse_module_block(input, k) {
        Result::Ok((f, p, tr)) => {
            let start = locate(input, j);
            let end = locate(input, f);
            let mut comments = lead;
            append_comments(&mut comments, tr);
            let ctx = Context {
                range: (start, end),
                comments,
                value: Directive::Module { path: p },
            };
            Result::Ok((f, ctx))
        },
        Result::Err(p2) => {
            if inline_err >= p2 {
                Result::Err(perr(input, inline_err))
            } else {
                Result::Err(perr(input, p2))
            }
        },
    }
}

} // verus!
