//! The `replace` directive: `replace <path> [version] => <target>`
//! inline, or a parenthesized block of such entries; the target is either
//! another module with its version, or a filesystem path.

use vstd::prelude::*;
use crate::{Context, Directive, Identifier, ParseError, Replacement, ReplaceSpec};
use crate::grammar::{
    arrow, comment_at, comments_at, deeper, ident_at, kw_replace, lemma_comment_at_consumes,
    lemma_comments_at_bounds, lemma_ident_at_consumes, lemma_quoted_path_at_consumes,
    quoted_path_at, trail,
};
use crate::model::{
    bytes_at, bytes_seq_view, ctx_seq_view, delims_end, lemma_ctx_seq_view_concat_empty,
    lemma_ctx_seq_view_push, lemma_delims_end_bounds, loc_of, perr_of, CtxView, DirectiveView,
    IdentView, ReplacementView, ReplaceSpecView,
};
use crate::parser::{
    append_comments, delims_to, locate, match_bytes, parse_comments, parse_identifier,
    parse_inline_comment, parse_quoted_path, perr, push_trail,
};

verus! {

/// The spec-level reading of the version-and-arrow part of a `replace`
/// entry at position `e` (just past the replaced path): either `=>`
/// straight away, or at least one delimiter, a version, and then `=>`.
/// Gives the position just past the delimiters that follow the arrow, and
/// the version if one stood there.
pub open spec fn replace_arrow_at(s: Seq<u8>, e: int) -> Result<(int, Option<IdentView>), int> {
    let d = delims_end(s, e);
    if bytes_at(s, d, arrow()) {
        Result::Ok((delims_end(s, d + 2), Option::None))
    } else if d == e {
        Result::Err(d)
    } else {
        match ident_at(s, d) {
            Option::None => Result::Err(d),
            Option::Some((f, v)) => {
                let d2 = delims_end(s, f);
                if bytes_at(s, d2, arrow()) {
                    Result::Ok((delims_end(s, d2 + 2), Option::Some(v)))
                } else {
                    Result::Err(d2)
                }
            },
        }
    }
}

pub proof fn lemma_replace_arrow_at_bounds(s: Seq<u8>, e: int)
    requires
        0 <= e <= s.len(),
    ensures
        match replace_arrow_at(s, e) {
            Result::Ok((a, v)) => e <= a <= s.len(),
            Result::Err(p) => 0 <= p <= s.len(),
        },
{
    lemma_delims_end_bounds(s, e);
    let d = delims_end(s, e);
    if bytes_at(s, d, arrow()) {
        lemma_delims_end_bounds(s, d + 2);
    } else if d != e {
        lemma_ident_at_consumes(s, d);
        if let Option::Some((f, v)) = ident_at(s, d) {
            lemma_delims_end_bounds(s, f);
            let d2 = delims_end(s, f);
            if bytes_at(s, d2, arrow()) {
                lemma_delims_end_bounds(s, d2 + 2);
            }
        }
    }
}

/// The spec-level reading of a replacement target at position `a`: a
/// module path followed by its version or, failing that, a single
/// identifier taken as a filesystem path.
pub open spec fn replacement_at(s: Seq<u8>, a: int) -> Result<(int, ReplacementView), int> {
    let m = match quoted_path_at(s, a) {
        Option::None => Result::Err(a),
        Option::Some((g2, p2)) => {
            let d3 = delims_end(s, g2);
            if d3 == g2 {
                Result::Err(g2)
            } else {
                match ident_at(s, d3) {
                    Option::None => Result::Err(d3),
                    Option::Some((h, v2)) => Result::Ok((h, ReplacementView::Module((p2, v2)))),
                }
            }
        },
    };
    match m {
        Result::Ok(r) => Result::Ok(r),
        Result::Err(p1) => match ident_at(s, a) {
            Option::Some((h, id)) => Result::Ok((h, ReplacementView::FilePath(id))),
            Option::None => Result::Err(deeper(p1, a)),
        },
    }
}

pub proof fn lemma_replacement_at_consumes(s: Seq<u8>, a: int)
    requires
        0 <= a <= s.len(),
    ensures
        match replacement_at(s, a) {
            Result::Ok((h, r)) => a < h <= s.len(),
            Result::Err(p) => 0 <= p <= s.len(),
        },
{
    lemma_quoted_path_at_consumes(s, a);
    lemma_ident_at_consumes(s, a);
    if let Option::Some((g2, p2)) = quoted_path_at(s, a) {
        lemma_delims_end_bounds(s, g2);
        let d3 = delims_end(s, g2);
        if d3 != g2 {
            lemma_ident_at_consumes(s, d3);
        }
    }
}

/// The spec-level reading of one `replace` entry at position `i`: the
/// replaced path, an optional version, `=>`, the replacement target, and
/// the line's trailing comment.
pub open spec fn replace_entry_at(s: Seq<u8>, i: int) -> Result<(int, CtxView<ReplaceSpecView>), int> {
    match quoted_path_at(s, i) {
        Option::None => Result::Err(i),
        Option::Some((e, path)) => match replace_arrow_at(s, e) {
            Result::Err(p) => Result::Err(p),
            Result::Ok((a, vopt)) => match replacement_at(s, a) {
                Result::Err(p) => Result::Err(p),
                Result::Ok((h, repl)) => match comment_at(s, h) {
                    Option::None => Result::Err(h),
                    Option::Some((g, su)) => Result::Ok(
                        (
                            g,
                            CtxView {
                                range: (loc_of(s, i), loc_of(s, g)),
                                comments: trail(su),
                                value: ReplaceSpecView { path, version: vopt, replacement: repl },
                            },
                        ),
                    ),
                },
            },
        },
    }
}

pub proof fn lemma_replace_entry_at_consumes(s: Seq<u8>, i: int)
    requires
        0 <= i <= s.len(),
    ensures
        match replace_entry_at(s, i) {
            Result::Ok((g, c)) => i < g <= s.len(),
            Result::Err(p) => 0 <= p <= s.len(),
        },
{
    lemma_quoted_path_at_consumes(s, i);
    if let Option::Some((e, path)) = quoted_path_at(s, i) {
        lemma_replace_arrow_at_bounds(s, e);
        if let Result::Ok((a, vopt)) = replace_arrow_at(s, e) {
            lemma_replacement_at_consumes(s, a);
            if let Result::Ok((h, repl)) = replacement_at(s, a) {
                lemma_comment_at_consumes(s, h);
            }
        }
    }
}

/// Reads one `replace` entry at `pos`, exactly as [`replace_entry_at`]
/// describes.
pub fn parse_replace_spec(input: &[u8], pos: usize) -> (r: Result<
    (usize, Context<ReplaceSpec>),
    ParseError,
>)
    requires
        pos <= input@.len(),
        input@.len() < u32::MAX,
    ensures
        match r {
            Result::Ok((g, c)) => replace_entry_at(input@, pos as int) == Result::<
                (int, CtxView<ReplaceSpecView>),
                int,
            >::Ok((g as int, c@)) && pos < g <= input@.len(),
            Result::Err(e) => replace_entry_at(input@, pos as int) == Result::<
                (int, CtxView<ReplaceSpecView>),
                int,
            >::Err(e.offset as int) && e == perr_of(input@, e.offset as int) && e.offset
                <= input@.len(),
        },
{
    proof {
        lemma_replace_entry_at_consumes(input@, pos as int);
    }
    match parse_quoted_path(input, pos) {
        Option::None => Result::Err(perr(input, pos)),
        Option::Some((e, path)) => {
            proof {
                lemma_replace_arrow_at_bounds(input@, e as int);
            }
            let ar: [u8; 2] = ['=' as u8, '>' as u8];
            proof {
                assert(ar@ =~= arrow());
            }
            let d = delims_to(input, e);
            let vres: Result<(usize, Option<Identifier>), usize> = if match_bytes(
                input,
                d,
                ar.as_slice(),
            ) {
                Result::Ok((delims_to(input, d + 2), Option::None))
            } else if d == e {
                Result::Err(d)
            } else {
                match parse_identifier(input, d) {
                    Option::None => Result::Err(d),
                    Option::Some((f, v)) => {
                        let d2 = delims_to(input, f);
                        if match_bytes(input, d2, ar.as_slice()) {
                            Result::Ok((delims_to(input, d2 + 2), Option::Some(v)))
                        } else {
                            Result::Err(d2)
                        }
                    },
                }
            };
            match vres {
                Result::Err(p) => Result::Err(perr(input, p)),
                Result::Ok((a, vopt)) => {
                    proof {
                        lemma_replacement_at_consumes(input@, a as int);
                    }
                    let mut p1: usize = a;
                    let mut mres: Option<(usize, Replacement)> = Option::None;
                    match parse_quoted_path(input, a) {
                        Option::None => {},
                        Option::Some((g2, p2)) => {
                            let d3 = delims_to(input, g2);
                            if d3 == g2 {
                                p1 = g2;
                            } else {
                                match parse_identifier(input, d3) {
                                    Option::None => {
                                        p1 = d3;
                                    },
                                    Option::Some((h, v2)) => {
                                        mres = Option::Some((h, Replacement::Module((p2, v2))));
                                    },
                                }
                            }
                        },
                    }
                    let (h, repl): (usize, Replacement) = match mres {
                        Option::Some(x) => x,
                        Option::None => match parse_identifier(input, a) {
                            Option::Some((h, id)) => (h, Replacement::FilePath(id)),
                            Option::None => {
                                return Result::Err(perr(input, p1));
                            },
                        },
                    };
                    match parse_inline_comment(input, h) {
                        Option::None => Result::Err(perr(input, h)),
                        Option::Some((g, su)) => {
                            let start = locate(input, pos);
                            let end = locate(input, g);
                            let mut comments: Vec<Vec<u8>> = Vec::new();
                            proof {
                                assert(bytes_seq_view(comments@) =~~= Seq::<Seq<u8>>::empty());
                            }
                            push_trail(&mut comments, su);
                            proof {
                                assert(Seq::<Seq<u8>>::empty() + trail(comment_at(
                                    input@,
                                    h as int,
                                )->Some_0.1) =~~= trail(comment_at(input@, h as int)->Some_0.1));
                            }
                            let ctx = Context {
                                range: (start, end),
                                comments,
                                value: ReplaceSpec { path, version: vopt, replacement: repl },
                            };
                            Result::Ok((g, ctx))
                        },
                    }
                },
            }
        },
    }
}

/// The entries inside a `replace` block, read from position `i` just after
/// the opening parenthesis's trailing comment: zero or more entries, each
/// with its leading comment lines attached to it.  Gives the position
/// where the run stops, the entries, and the position at which the entry
/// that ended the run failed.
pub open spec fn replace_entries_at(s: Seq<u8>, i: int) -> (
    int,
    Seq<CtxView<ReplaceSpecView>>,
    int,
)
    decreases s.len() - i,
{
    let lead = comments_at(s, i);
    let d = delims_end(s, lead.0);
    match replace_entry_at(s, d) {
        Result::Err(p) => (i, seq![], p),
        Result::Ok((k, c)) => {
            if i < k <= s.len() {
                let c2 = CtxView {
                    range: c.range,
                    comments: lead.1 + c.comments,
                    value: c.value,
                };
                let r = replace_entries_at(s, k);
                (r.0, seq![c2] + r.1, r.2)
            } else {
                (i, seq![], d)
            }
        },
    }
}

pub proof fn lemma_replace_entries_at_bounds(s: Seq<u8>, i: int)
    requires
        0 <= i <= s.len(),
    ensures
        i <= replace_entries_at(s, i).0 <= s.len(),
        0 <= replace_entries_at(s, i).2 <= s.len(),
    decreases s.len() - i,
{
    lemma_comments_at_bounds(s, i);
    let lead = comments_at(s, i);
    lemma_delims_end_bounds(s, lead.0);
    let d = delims_end(s, lead.0);
    lemma_replace_entry_at_consumes(s, d);
    match replace_entry_at(s, d) {
        Result::Err(p) => {},
        Result::Ok((k, c)) => {
            if i < k <= s.len() {
                lemma_replace_entries_at_bounds(s, k);
            }
        },
    }
}

/// The body of a `replace` directive, read from position `k` just after
/// the keyword: one inline entry, or a parenthesized block of entries.
/// Gives the end position, the entries, and the comments the body itself
/// carries (those of the parentheses, and those before the closing one).
pub open spec fn replace_body_at(s: Seq<u8>, k: int) -> Result<
    (int, Seq<CtxView<ReplaceSpecView>>, Seq<Seq<u8>>),
    int,
> {
    let d = delims_end(s, k);
    let inline = if d == k {
        Result::Err(k)
    } else {
        replace_entry_at(s, d)
    };
    match inline {
        Result::Ok((f, c)) => Result::Ok((f, seq![c], Seq::<Seq<u8>>::empty())),
        Result::Err(p1) => {
            if !(d < s.len() && s[d] == '(' as u8) {
                Result::Err(deeper(p1, d))
            } else {
                match comment_at(s, d + 1) {
                    Option::None => Result::Err(deeper(p1, d + 1)),
                    Option::Some((g, su1)) => {
                        let ents = replace_entries_at(s, g);
                        let lead3 = comments_at(s, ents.0);
                        let d3 = delims_end(s, lead3.0);
                        if !(d3 < s.len() && s[d3] == ')' as u8) {
                            Result::Err(deeper(p1, deeper(ents.2, d3)))
                        } else {
                            match comment_at(s, d3 + 1) {
                                Option::None => Result::Err(deeper(p1, deeper(ents.2, d3 + 1))),
                                Option::Some((f, su3)) => Result::Ok(
                                    (f, ents.1, trail(su1) + lead3.1 + trail(su3)),
                                ),
                            }
                        }
                    },
                }
            }
        },
    }
}

pub proof fn lemma_replace_body_at_bounds(s: Seq<u8>, k: int)
    requires
        0 <= k <= s.len(),
    ensures
        match replace_body_at(s, k) {
            Result::Ok((f, ents, tr)) => k < f <= s.len(),
            Result::Err(p) => 0 <= p <= s.len(),
        },
{
    lemma_delims_end_bounds(s, k);
    let d = delims_end(s, k);
    lemma_replace_entry_at_consumes(s, d);
    if d < s.len() && s[d] == '(' as u8 {
        lemma_comment_at_consumes(s, d + 1);
        if let Option::Some((g, su1)) = comment_at(s, d + 1) {
            lemma_replace_entries_at_bounds(s, g);
            let ents = replace_entries_at(s, g);
            lemma_comments_at_bounds(s, ents.0);
            let lead3 = comments_at(s, ents.0);
            lemma_delims_end_bounds(s, lead3.0);
            let d3 = delims_end(s, lead3.0);
            if d3 < s.len() && s[d3] == ')' as u8 {
                lemma_comment_at_consumes(s, d3 + 1);
            }
        }
    }
}

/// The spec-level reading of a `replace` directive at position `i`.
pub open spec fn replace_at(s: Seq<u8>, i: int) -> Result<(int, CtxView<DirectiveView>), int> {
    let lead = comments_at(s, i);
    let j = delims_end(s, lead.0);
    if !bytes_at(s, j, kw_replace()) {
        Result::Err(j)
    } else {
        match replace_body_at(s, j + kw_replace().len()) {
            Result::Err(p) => Result::Err(p),
            Result::Ok((f, ents, tr)) => Result::Ok(
                (
                    f,
                    CtxView {
                        range: (loc_of(s, j), loc_of(s, f)),
                        comments: lead.1 + tr,
                        value: DirectiveView::Replace { specs: ents },
                    },
                ),
            ),
        }
    }
}

pub proof fn lemma_replace_at_consumes(s: Seq<u8>, i: int)
    requires
        0 <= i <= s.len(),
    ensures
        match replace_at(s, i) {
            Result::Ok((f, c)) => i < f <= s.len(),
            Result::Err(p) => 0 <= p <= s.len(),
        },
{
    lemma_comments_at_bounds(s, i);
    let lead = comments_at(s, i);
    lemma_delims_end_bounds(s, lead.0);
    let j = delims_end(s, lead.0);
    if bytes_at(s, j, kw_replace()) {
        lemma_replace_body_at_bounds(s, j + kw_replace().len());
    }
}

/// Reads the entries of a `replace` block from `pos`, exactly as
/// [`replace_entries_at`] describes; the third result is the position at
/// which the entry that ended the run failed.
fn parse_replace_entries(input: &[u8], pos: usize) -> (r: (
    usize,
    Vec<Context<ReplaceSpec>>,
    usize,
))
    requires
        pos <= input@.len(),
        input@.len() < u32::MAX,
    ensures
        replace_entries_at(input@, pos as int) == (
            r.0 as int,
            ctx_seq_view(r.1@),
            r.2 as int,
        ),
        pos <= r.0 <= input@.len(),
{
    let mut cur = pos;
    let mut acc: Vec<Context<ReplaceSpec>> = Vec::new();
    let mut last: usize = 0;
    loop
        invariant
            pos <= cur <= input@.len(),
            input@.len() < u32::MAX,
            replace_entries_at(input@, pos as int).0 == replace_entries_at(input@, cur as int).0,
            replace_entries_at(input@, pos as int).1 == ctx_seq_view(acc@) + replace_entries_at(
                input@,
                cur as int,
            ).1,
            replace_entries_at(input@, pos as int).2 == replace_entries_at(input@, cur as int).2,
        ensures
            replace_entries_at(input@, cur as int) == (
                cur as int,
                Seq::<CtxView<ReplaceSpecView>>::empty(),
                last as int,
            ),
        decreases input@.len() - cur,
    {
        let (cc, lead) = parse_comments(input, cur);
        let d = delims_to(input, cc);
        proof {
            lemma_replace_entry_at_consumes(input@, d as int);
        }
        match parse_replace_spec(input, d) {
            Result::Err(e) => {
                last = e.offset;
                break ;
            },
            Result::Ok((k, ctx)) => {
                let Context { range, comments, value } = ctx;
                let mut cs = lead;
                append_comments(&mut cs, comments);
                let ctx2 = Context { range, comments: cs, value };
                proof {
                    let spec_c = replace_entry_at(input@, d as int)->Ok_0.1;
                    let spec_c2 = CtxView {
                        range: spec_c.range,
                        comments: comments_at(input@, cur as int).1 + spec_c.comments,
                        value: spec_c.value,
                    };
                    assert(ctx2@ == spec_c2);
                    lemma_ctx_seq_view_push(acc@, ctx2);
                    let rest = replace_entries_at(input@, k as int);
                    assert(ctx_seq_view(acc@) + (seq![spec_c2] + rest.1) =~~= (ctx_seq_view(acc@)
                        + seq![spec_c2]) + rest.1);
                }
                acc.push(ctx2);
                cur = k;
            },
        }
    }
    proof {
        lemma_ctx_seq_view_concat_empty::<ReplaceSpec>(acc@);
    }
    (cur, acc, last)
}

/// Reads the body of a `replace` directive from `pos` (just after the
/// keyword), exactly as [`replace_body_at`] describes.
pub(crate) fn parse_replace_body(input: &[u8], k: usize) -> (r: Result<
    (usize, Vec<Context<ReplaceSpec>>, Vec<Vec<u8>>),
    usize,
>)
    requires
        k <= input@.len(),
        input@.len() < u32::MAX,
    ensures
        match r {
            Result::Ok((f, ents, tr)) => replace_body_at(input@, k as int) == Result::<
                (int, Seq<CtxView<ReplaceSpecView>>, Seq<Seq<u8>>),
                int,
            >::Ok((f as int, ctx_seq_view(ents@), bytes_seq_view(tr@))) && k < f <= input@.len(),
            Result::Err(p) => replace_body_at(input@, k as int) == Result::<
                (int, Seq<CtxView<ReplaceSpecView>>, Seq<Seq<u8>>),
                int,
            >::Err(p as int) && p <= input@.len(),
        },
{
    proof {
        lemma_replace_body_at_bounds(input@, k as int);
    }
    let d = delims_to(input, k);
    let mut p1: usize = k;
    if d != k {
        match parse_replace_spec(input, d) {
            Result::Ok((f, c)) => {
                let mut ents: Vec<Context<ReplaceSpec>> = Vec::new();
                proof {
                    lemma_ctx_seq_view_push(ents@, c);
                    assert(Seq::<CtxView<ReplaceSpecView>>::empty() + seq![c@] =~~= seq![c@]);
                }
                ents.push(c);
                let tr: Vec<Vec<u8>> = Vec::new();
                proof {
                    assert(bytes_seq_view(tr@) =~~= Seq::<Seq<u8>>::empty());
                }
                return Result::Ok((f, ents, tr));
            },
            Result::Err(e) => {
                p1 = e.offset;
            },
        }
    }
    if !(d < input.len() && input[d] == '(' as u8) {
        return Result::Err(if p1 >= d {
            p1
        } else {
            d
        });
    }
    match parse_inline_comment(input, d + 1) {
        Option::None => Result::Err(if p1 >= d + 1 {
            p1
        } else {
            d + 1
        }),
        Option::Some((g, su1)) => {
            let mut tr: Vec<Vec<u8>> = Vec::new();
            proof {
                assert(bytes_seq_view(tr@) =~~= Seq::<Seq<u8>>::empty());
            }
            push_trail(&mut tr, su1);
            let (stop, ents, last) = parse_replace_entries(input, g);
            let (c3, lead3) = parse_comments(input, stop);
            append_comments(&mut tr, lead3);
            let d3 = delims_to(input, c3);
            let p2 = if p1 >= last {
                p1
            } else {
                last
            };
            if !(d3 < input.len() && input[d3] == ')' as u8) {
                return Result::Err(if p2 >= d3 {
                    p2
                } else {
                    d3
                });
            }
            match parse_inline_comment(input, d3 + 1) {
                Option::None => Result::Err(if p2 >= d3 + 1 {
                    p2
                } else {
                    d3 + 1
                }),
                Option::Some((f, su3)) => {
                    push_trail(&mut tr, su3);
                    proof {
                        if let Option::Some((g_, su1_)) = comment_at(input@, d as int + 1) {
                            let ents_ = replace_entries_at(input@, g_);
                            let lead3_ = comments_at(input@, ents_.0);
                            if let Option::Some((f_, su3_)) = comment_at(
                                input@,
                                delims_end(input@, lead3_.0) + 1,
                            ) {
                                assert(((Seq::<Seq<u8>>::empty() + trail(su1_)) + lead3_.1 + trail(
                                    su3_,
                                )) =~~= trail(su1_) + lead3_.1 + trail(su3_));
                            }
                        }
                    }
                    Result::Ok((f, ents, tr))
                },
            }
        },
    }
}

/// Reads a `replace` directive at `pos`, exactly as [`replace_at`]
/// describes.
pub fn parse_replace_directive(input: &[u8], pos: usize) -> (r: Result<
    (usize, Context<Directive>),
    ParseError,
>)
    requires
        pos <= input@.len(),
        input@.len() < u32::MAX,
    ensures
        match r {
            Result::Ok((f, c)) => replace_at(input@, pos as int) == Result::<
                (int, CtxView<DirectiveView>),
                int,
            >::Ok((f as int, c@)) && pos < f <= input@.len(),
            Result::Err(e) => replace_at(input@, pos as int) == Result::<
                (int, CtxView<DirectiveView>),
                int,
            >::Err(e.offset as int) && e == perr_of(input@, e.offset as int) && e.offset
                <= input@.len(),
        },
{
    proof {
        lemma_replace_at_consumes(input@, pos as int);
        lemma_comments_at_bounds(input@, pos as int);
    }
    let (c0, lead) = parse_comments(input, pos);
    let j = delims_to(input, c0);
    let kw: [u8; 7] = [
        'r' as u8,
        'e' as u8,
        'p' as u8,
        'l' as u8,
        'a' as u8,
        'c' as u8,
        'e' as u8,
    ];
    proof {
        assert(kw@ =~= kw_replace());
    }
    if !match_bytes(input, j, kw.as_slice()) {
        return Result::Err(perr(input, j));
    }
    match parse_replace_body(input, j + 7) {
        Result::Err(p) => Result::Err(perr(input, p)),
        Result::Ok((f, ents, tr)) => {
            let start = locate(input, j);
            let end = locate(input, f);
            let mut comments = lead;
            append_comments(&mut comments, tr);
            let ctx = Context {
                range: (start, end),
                comments,
                value: Directive::Replace { specs: ents },
            };
            Result::Ok((f, ctx))
        },
    }
}

} // verus!
