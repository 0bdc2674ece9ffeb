//! The `godebug` directive: `godebug <key>=<value>` inline, or a
//! parenthesized block of such entries.

use vstd::prelude::*;
use crate::{Context, Directive, ParseError};
use crate::grammar::{
    comment_at, comments_at, deeper, kw_godebug, lemma_comment_at_consumes,
    lemma_comments_at_bounds, lemma_quoted_gd_at_consumes, quoted_gd_at, trail,
};
use crate::model::{
    bytes_at, bytes_seq_view, ctx_seq_view, delims_end, lemma_ctx_seq_view_concat_empty,
    lemma_ctx_seq_view_push, lemma_delims_end_bounds, loc_of, perr_of, CtxView, DirectiveView,
};
use crate::parser::{
    append_comments, delims_to, locate, match_bytes, parse_comments, parse_gd_token,
    parse_inline_comment, perr, push_trail,
};

verus! {

/// The spec-level reading of one `godebug` entry at position `i`: a key
/// token, `=` between optional delimiters, a value token, and the line's
/// trailing comment.  Both tokens may be quoted; neither is escape-decoded.
pub open spec fn godebug_entry_at(s: Seq<u8>, i: int) -> Result<
    (int, CtxView<(Seq<u8>, Seq<u8>)>),
    int,
> {
    match quoted_gd_at(s, i) {
        Option::None => Result::Err(i),
        Option::Some((e, key)) => {
            let d = delims_end(s, e);
            if !(d < s.len() && s[d] == '=' as u8) {
                Result::Err(d)
            } else {
                let d2 = delims_end(s, d + 1);
                match quoted_gd_at(s, d2) {
                    Option::None => Result::Err(d2),
                    Option::Some((f, val)) => match comment_at(s, f) {
                        Option::None => Result::Err(f),
                        Option::Some((g, su)) => Result::Ok(
                            (
                                g,
                                CtxView {
                                    range: (loc_of(s, i), loc_of(s, g)),
                                    comments: trail(su),
                                    value: (key, val),
                                },
                            ),
                        ),
                    },
                }
            }
        },
    }
}

pub proof fn lemma_godebug_entry_at_consumes(s: Seq<u8>, i: int)
    requires
        0 <= i <= s.len(),
    ensures
        match godebug_entry_at(s, i) {
            Result::Ok((g, c)) => i < g <= s.len(),
            Result::Err(p) => 0 <= p <= s.len(),
        },
{
    lemma_quoted_gd_at_consumes(s, i);
    if let Option::Some((e, key)) = quoted_gd_at(s, i) {
        lemma_delims_end_bounds(s, e);
        let d = delims_end(s, e);
        if d < s.len() && s[d] == '=' as u8 {
            lemma_delims_end_bounds(s, d + 1);
            let d2 = delims_end(s, d + 1);
            lemma_quoted_gd_at_consumes(s, d2);
            if let Option::Some((f, val)) = quoted_gd_at(s, d2) {
                lemma_comment_at_consumes(s, f);
            }
        }
    }
}

/// The entries inside a `godebug` block, read from position `i` just after
/// the opening parenthesis's trailing comment: zero or more entries, each
/// with its leading comment lines attached to it.  Gives the position
/// where the run stops, the entries, and the position at which the entry
/// that ended the run failed.
pub open spec fn godebug_entries_at(s: Seq<u8>, i: int) -> (
    int,
    Seq<CtxView<(Seq<u8>, Seq<u8>)>>,
    int,
)
    decreases s.len() - i,
{
    let lead = comments_at(s, i);
    let d = delims_end(s, lead.0);
    match godebug_entry_at(s, d) {
        Result::Err(p) => (i, seq![], p),
        Result::Ok((k, c)) => {
            if i < k <= s.len() {
                let c2 = CtxView {
                    range: c.range,
                    comments: lead.1 + c.comments,
                    value: c.value,
                };
                let r = godebug_entries_at(s, k);
                (r.0, seq![c2] + r.1, r.2)
            } else {
                (i, seq![], d)
            }
        },
    }
}

pub proof fn lemma_godebug_entries_at_bounds(s: Seq<u8>, i: int)
    requires
        0 <= i <= s.len(),
    ensures
        i <= godebug_entries_at(s, i).0 <= s.len(),
        0 <= godebug_entries_at(s, i).2 <= s.len(),
    decreases s.len() - i,
{
    lemma_comments_at_bounds(s, i);
    let lead = comments_at(s, i);
    lemma_delims_end_bounds(s, lead.0);
    let d = delims_end(s, lead.0);
    lemma_godebug_entry_at_consumes(s, d);
    match godebug_entry_at(s, d) {
        Result::Err(p) => {},
        Result::Ok((k, c)) => {
            if i < k <= s.len() {
                lemma_godebug_entries_at_bounds(s, k);
            }
        },
    }
}

/// The body of a `godebug` directive, read from position `k` just after
/// the keyword: one inline entry, or a parenthesized block of entries.
/// Gives the end position, the entries, and the comments the body itself
/// carries (those of the parentheses, and those before the closing one).
pub open spec fn godebug_body_at(s: Seq<u8>, k: int) -> Result<
    (int, Seq<CtxView<(Seq<u8>, Seq<u8>)>>, Seq<Seq<u8>>),
    int,
> {
    let d = delims_end(s, k);
    let inline = if d == k {
        Result::Err(k)
    } else {
        godebug_entry_at(s, d)
    };
    match inline {
        Result::Ok((f, c)) => Result::Ok((f, seq![c], Seq::<Seq<u8>>::empty())),
        Result::Err(p1) => {
            if !(d < s.len() && s[d] == '(' as u8) {
                Result::Err(deeper(p1, d))
            } else {
                match comment_at(s, d + 1) {
                    Option::None => Result::Err(deeper(p1, d + 1)),
                    Option::Some((g, su1)) => {
                        let ents = godebug_entries_at(s, g);
                        let lead3 = comments_at(s, ents.0);
                        let d3 = delims_end(s, lead3.0);
                        if !(d3 < s.len() && s[d3] == ')' as u8) {
                            Result::Err(deeper(p1, deeper(ents.2, d3)))
                        } else {
                            match comment_at(s, d3 + 1) {
                                Option::None => Result::Err(deeper(p1, deeper(ents.2, d3 + 1))),
                                Option::Some((f, su3)) => Result::Ok(
                                    (f, ents.1, trail(su1) + lead3.1 + trail(su3)),
                                ),
                            }
                        }
                    },
                }
            }
        },
    }
}

pub proof fn lemma_godebug_body_at_bounds(s: Seq<u8>, k: int)
    requires
        0 <= k <= s.len(),
    ensures
        match godebug_body_at(s, k) {
            Result::Ok((f, ents, tr)) => k < f <= s.len(),
            Result::Err(p) => 0 <= p <= s.len(),
        },
{
    lemma_delims_end_bounds(s, k);
    let d = delims_end(s, k);
    lemma_godebug_entry_at_consumes(s, d);
    if d < s.len() && s[d] == '(' as u8 {
        lemma_comment_at_consumes(s, d + 1);
        if let Option::Some((g, su1)) = comment_at(s, d + 1) {
            lemma_godebug_entries_at_bounds(s, g);
            let ents = godebug_entries_at(s, g);
            lemma_comments_at_bounds(s, ents.0);
            let lead3 = comments_at(s, ents.0);
            lemma_delims_end_bounds(s, lead3.0);
            let d3 = delims_end(s, lead3.0);
            if d3 < s.len() && s[d3] == ')' as u8 {
                lemma_comment_at_consumes(s, d3 + 1);
            }
        }
    }
}

/// The spec-level reading of a `godebug` directive at position `i`.
pub open spec fn godebug_at(s: Seq<u8>, i: int) -> Result<(int, CtxView<DirectiveView>), int> {
    let lead = comments_at(s, i);
    let j = delims_end(s, lead.0);
    if !bytes_at(s, j, kw_godebug()) {
        Result::Err(j)
    } else {
        match godebug_body_at(s, j + kw_godebug().len()) {
            Result::Err(p) => Result::Err(p),
            Result::Ok((f, ents, tr)) => Result::Ok(
                (
                    f,
                    CtxView {
                        range: (loc_of(s, j), loc_of(s, f)),
                        comments: lead.1 + tr,
                        value: DirectiveView::Godebug { specs: ents },
                    },
                ),
            ),
        }
    }
}

pub proof fn lemma_godebug_at_consumes(s: Seq<u8>, i: int)
    requires
        0 <= i <= s.len(),
    ensures
        match godebug_at(s, i) {
            Result::Ok((f, c)) => i < f <= s.len(),
            Result::Err(p) => 0 <= p <= s.len(),
        },
{
    lemma_comments_at_bounds(s, i);
    let lead = comments_at(s, i);
    lemma_delims_end_bounds(s, lead.0);
    let j = delims_end(s, lead.0);
    if bytes_at(s, j, kw_godebug()) {
        lemma_godebug_body_at_bounds(s, j + kw_godebug().len());
    }
}

/// Reads one `godebug` entry at `pos`, exactly as [`godebug_entry_at`]
/// describes.
pub fn parse_godebug_spec(input: &[u8], pos: usize) -> (r: Result<
    (usize, Context<(Vec<u8>, Vec<u8>)>),
    ParseError,
>)
    requires
        pos <= input@.len(),
        input@.len() < u32::MAX,
    ensures
        match r {
            Result::Ok((g, c)) => godebug_entry_at(input@, pos as int) == Result::<
                (int, CtxView<(Seq<u8>, Seq<u8>)>),
                int,
            >::Ok((g as int, c@)) && pos < g <= input@.len(),
            Result::Err(e) => godebug_entry_at(input@, pos as int) == Result::<
                (int, CtxView<(Seq<u8>, Seq<u8>)>),
                int,
            >::Err(e.offset as int) && e == perr_of(input@, e.offset as int) && e.offset
                <= input@.len(),
        },
{
    proof {
        lemma_godebug_entry_at_consumes(input@, pos as int);
    }
    match parse_gd_token(input, pos) {
        Option::None => Result::Err(perr(input, pos)),
        Option::Some((e, key)) => {
            let d = delims_to(input, e);
            if !(d < input.len() && input[d] == '=' as u8) {
                return Result::Err(perr(input, d));
            }
            let d2 = delims_to(input, d + 1);
            match parse_gd_token(input, d2) {
                Option::None => Result::Err(perr(input, d2)),
                Option::Some((f, val)) => match parse_inline_comment(input, f) {
                    Option::None => Result::Err(perr(input, f)),
                    Option::Some((g, su)) => {
                        let start = locate(input, pos);
                        let end = locate(input, g);
                        let mut comments: Vec<Vec<u8>> = Vec::new();
                        proof {
                            assert(bytes_seq_view(comments@) =~~= Seq::<Seq<u8>>::empty());
                        }
                        push_trail(&mut comments, su);
                        proof {
                            assert(Seq::<Seq<u8>>::empty() + trail(comment_at(
                                input@,
                                f as int,
                            )->Some_0.1) =~~= trail(comment_at(input@, f as int)->Some_0.1));
                        }
                        let ctx = Context { range: (start, end), comments, value: (key, val) };
                        Result::Ok((g, ctx))
                    },
                },
            }
        },
    }
}

/// Reads the entries of a `godebug` block from `pos`, exactly as
/// [`godebug_entries_at`] describes; the third result is the position at
/// which the entry that ended the run failed.
fn parse_godebug_entries(input: &[u8], pos: usize) -> (r: (
    usize,
    Vec<Context<(Vec<u8>, Vec<u8>)>>,
    usize,
))
    requires
        pos <= input@.len(),
        input@.len() < u32::MAX,
    ensures
        godebug_entries_at(input@, pos as int) == (
            r.0 as int,
            ctx_seq_view(r.1@),
            r.2 as int,
        ),
        pos <= r.0 <= input@.len(),
{
    let mut cur = pos;
    let mut acc: Vec<Context<(Vec<u8>, Vec<u8>)>> = Vec::new();
    let mut last: usize = 0;
    loop
        invariant
            pos <= cur <= input@.len(),
            input@.len() < u32::MAX,
            godebug_entries_at(input@, pos as int).0 == godebug_entries_at(input@, cur as int).0,
            godebug_entries_at(input@, pos as int).1 == ctx_seq_view(acc@) + godebug_entries_at(
                input@,
                cur as int,
            ).1,
            godebug_entries_at(input@, pos as int).2 == godebug_entries_at(input@, cur as int).2,
        ensures
            godebug_entries_at(input@, cur as int) == (
                cur as int,
                Seq::<CtxView<(Seq<u8>, Seq<u8>)>>::empty(),
                last as int,
            ),
        decreases input@.len() - cur,
    {
        let (cc, lead) = parse_comments(input, cur);
        let d = delims_to(input, cc);
        proof {
            lemma_godebug_entry_at_consumes(input@, d as int);
        }
        match parse_godebug_spec(input, d) {
            Result::Err(e) => {
                last = e.offset;
                break ;
            },
            Result::Ok((k, ctx)) => {
                let Context { range, comments, value } = ctx;
                let mut cs = lead;
                append_comments(&mut cs, comments);
                let ctx2 = Context { range, comments: cs, value };
                proof {
                    let spec_c = godebug_entry_at(input@, d as int)->Ok_0.1;
                    let spec_c2 = CtxView {
                        range: spec_c.range,
                        comments: comments_at(input@, cur as int).1 + spec_c.comments,
                        value: spec_c.value,
                    };
                    assert(ctx2@ == spec_c2);
                    lemma_ctx_seq_view_push(acc@, ctx2);
                    let rest = godebug_entries_at(input@, k as int);
                    assert(ctx_seq_view(acc@) + (seq![spec_c2] + rest.1) =~~= (ctx_seq_view(acc@)
                        + seq![spec_c2]) + rest.1);
                }
                acc.push(ctx2);
                cur = k;
            },
        }
    }
    proof {
        lemma_ctx_seq_view_concat_empty::<(Vec<u8>, Vec<u8>)>(acc@);
    }
    (cur, acc, last)
}

/// Reads the body of a `godebug` directive from `pos` (just after the
/// keyword), exactly as [`godebug_body_at`] describes.
pub(crate) fn parse_godebug_body(input: &[u8], k: usize) -> (r: Result<
    (usize, Vec<Context<(Vec<u8>, Vec<u8>)>>, Vec<Vec<u8>>),
    usize,
>)
    requires
        k <= input@.len(),
        input@.len() < u32::MAX,
    ensures
        match r {
            Result::Ok((f, ents, tr)) => godebug_body_at(input@, k as int) == Result::<
                (int, Seq<CtxView<(Seq<u8>, Seq<u8>)>>, Seq<Seq<u8>>),
                int,
            >::Ok((f as int, ctx_seq_view(ents@), bytes_seq_view(tr@))) && k < f <= input@.len(),
            Result::Err(p) => godebug_body_at(input@, k as int) == Result::<
                (int, Seq<CtxView<(Seq<u8>, Seq<u8>)>>, Seq<Seq<u8>>),
                int,
            >::Err(p as int) && p <= input@.len(),
        },
{
    proof {
        lemma_godebug_body_at_bounds(input@, k as int);
    }
    let d = delims_to(input, k);
    let mut p1: usize = k;
    if d != k {
        match parse_godebug_spec(input, d) {
            Result::Ok((f, c)) => {
                let mut ents: Vec<Context<(Vec<u8>, Vec<u8>)>> = Vec::new();
                proof {
                    lemma_ctx_seq_view_push(ents@, c);
                    assert(Seq::<CtxView<(Seq<u8>, Seq<u8>)>>::empty() + seq![c@] =~~= seq![c@]);
                }
                ents.push(c);
                let tr: Vec<Vec<u8>> = Vec::new();
                proof {
                    assert(bytes_seq_view(tr@) =~~= Seq::<Seq<u8>>::empty());
                }
                return Result::Ok((f, ents, tr));
            },
            Result::Err(e) => {
                p1 = e.offset;
            },
        }
    }
    if !(d < input.len() && input[d] == '(' as u8) {
        return Result::Err(if p1 >= d {
            p1
        } else {
            d
        });
    }
    match parse_inline_comment(input, d + 1) {
        Option::None => Result::Err(if p1 >= d + 1 {
            p1
        } else {
            d + 1
        }),
        Option::Some((g, su1)) => {
            let mut tr: Vec<Vec<u8>> = Vec::new();
            proof {
                assert(bytes_seq_view(tr@) =~~= Seq::<Seq<u8>>::empty());
            }
            push_trail(&mut tr, su1);
            let (stop, ents, last) = parse_godebug_entries(input, g);
            let (c3, lead3) = parse_comments(input, stop);
            append_comments(&mut tr, lead3);
            let d3 = delims_to(input, c3);
            let p2 = if p1 >= last {
                p1
            } else {
                last
            };
            if !(d3 < input.len() && input[d3] == ')' as u8) {
                return Result::Err(if p2 >= d3 {
                    p2
                } else {
                    d3
                });
            }
            match parse_inline_comment(input, d3 + 1) {
                Option::None => Result::Err(if p2 >= d3 + 1 {
                    p2
                } else {
                    d3 + 1
                }),
                Option::Some((f, su3)) => {
                    push_trail(&mut tr, su3);
                    proof {
                        if let Option::Some((g_, su1_)) = comment_at(input@, d as int + 1) {
                            let ents_ = godebug_entries_at(input@, g_);
                            let lead3_ = comments_at(input@, ents_.0);
                            if let Option::Some((f_, su3_)) = comment_at(
                                input@,
                                delims_end(input@, lead3_.0) + 1,
                            ) {
                                assert(((Seq::<Seq<u8>>::empty() + trail(su1_)) + lead3_.1 + trail(
                                    su3_,
                                )) =~~= trail(su1_) + lead3_.1 + trail(su3_));
                            }
                        }
                    }
                    Result::Ok((f, ents, tr))
                },
            }
        },
    }
}

/// Reads a `godebug` directive at `pos`, exactly as [`godebug_at`]
/// describes.
pub fn parse_godebug_directive(input: &[u8], pos: usize) -> (r: Result<
    (usize, Context<Directive>),
    ParseError,
>)
    requires
        pos <= input@.len(),
        input@.len() < u32::MAX,
    ensures
        match r {
            Result::Ok((f, c)) => godebug_at(input@, pos as int) == Result::<
                (int, CtxView<DirectiveView>),
                int,
            >::Ok((f as int, c@)) && pos < f <= input@.len(),
            Result::Err(e) => godebug_at(input@, pos as int) == Result::<
                (int, CtxView<DirectiveView>),
                int,
            >::Err(e.offset as int) && e == perr_of(input@, e.offset as int) && e.offset
                <= input@.len(),
        },
{
    proof {
        lemma_godebug_at_consumes(input@, pos as int);
        lemma_comments_at_bounds(input@, pos as int);
    }
    let (c0, lead) = parse_comments(input, pos);
    let j = delims_to(input, c0);
    let kw: [u8; 7] = [
        'g' as u8,
        'o' as u8,
        'd' as u8,
        'e' as u8,
        'b' as u8,
        'u' as u8,
        'g' as u8,
    ];
    proof {
        assert(kw@ =~= kw_godebug());
    }
    if !match_bytes(input, j, kw.as_slice()) {
        return Result::Err(perr(input, j));
    }
    match parse_godebug_body(input, j + 7) {
        Result::Err(p) => Result::Err(perr(input, p)),
        Result::Ok((f, ents, tr)) => {
            let start = locate(input, j);
            let end = locate(input, f);
            let mut comments = lead;
            append_comments(&mut comments, tr);
            let ctx = Context {
                range: (start, end),
                comments,
                value: Directive::Godebug { specs: ents },
            };
            Result::Ok((f, ctx))
        },
    }
}

} // verus!
