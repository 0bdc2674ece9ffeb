//! Properties of every successful parse.
//!
//! The executable parser is proved equal to the spec-level grammar, so the
//! facts proved here of [`crate::parser::gomod_at`] hold of everything
//! [`crate::parse_gomod`] returns: every directive's range starts at its
//! keyword and stays inside the input, the entries of a block stay inside
//! their directive's range, and the directives of a document stand in
//! non-decreasing, non-overlapping source order.

use vstd::prelude::*;
use crate::grammar::{
    comment_at, comments_at, ident_at, kw_exclude, kw_go, kw_godebug, kw_module, kw_replace,
    kw_require, kw_retract, kw_toolchain, lemma_comment_at_consumes, lemma_comments_at_bounds,
    lemma_ident_at_consumes,
};
use crate::model::{bytes_at, delims_end, lemma_delims_end_bounds, CtxView, DirectiveView};
use crate::parser::exclude_directive::exclude_at;
use crate::parser::go_directive::go_at;
use crate::parser::godebug_directive::{
    godebug_at, godebug_body_at, godebug_entries_at, godebug_entry_at,
    lemma_godebug_entry_at_consumes,
};
use crate::parser::module_directive::module_at;
use crate::parser::replace_directive::{
    lemma_replace_entry_at_consumes, replace_at, replace_body_at, replace_entries_at,
    replace_entry_at,
};
use crate::parser::require_directive::{
    lemma_require_entry_at_consumes, require_at, require_body_at, require_entries_at,
    require_entry_at,
};
use crate::parser::retract_directive::{
    lemma_retract_entry_at_consumes, retract_at, retract_body_at, retract_entries_at,
    retract_entry_at,
};
use crate::parser::toolchain_directive::toolchain_at;
use crate::parser::{directive_at, gomod_at, gomod_tail_at, lemma_directive_at_consumes};

verus! {

// ---------------------------------------------------------------------------
// What holds of one range, one entry list, one directive
// ---------------------------------------------------------------------------

/// The range of `c` lies between `lo` and `hi`, start before end.
pub open spec fn range_between<V>(c: CtxView<V>, lo: int, hi: int) -> bool {
    lo <= c.range.0.offset as int && c.range.0.offset <= c.range.1.offset && c.range.1.offset
        as int <= hi
}

/// Consecutive entries never overlap: each ends at or before the next
/// one's start.
pub open spec fn entries_ordered<V>(ds: Seq<CtxView<V>>) -> bool {
    forall|k: int| 0 <= k && k + 1 < ds.len() ==> ds[k].range.1.offset <= ds[k + 1].range.0.offset
}

/// Every entry's range lies between `lo` and `hi`.
pub open spec fn entries_between<V>(ds: Seq<CtxView<V>>, lo: int, hi: int) -> bool {
    forall|k: int| 0 <= k < ds.len() ==> range_between(#[trigger] ds[k], lo, hi)
}

/// The keyword that a directive's source text begins with.
pub open spec fn keyword_of(d: DirectiveView) -> Seq<u8> {
    match d {
        DirectiveView::Module { .. } => kw_module(),
        DirectiveView::Go { .. } => kw_go(),
        DirectiveView::Require { .. } => kw_require(),
        DirectiveView::Toolchain { .. } => kw_toolchain(),
        DirectiveView::Godebug { .. } => kw_godebug(),
        DirectiveView::Replace { .. } => kw_replace(),
        DirectiveView::Exclude { .. } => kw_exclude(),
        DirectiveView::Retract { .. } => kw_retract(),
    }
}

/// What holds of every parsed directive: its range lies inside the input
/// with its keyword at the range's start, and the entries of a block form
/// lie inside the directive's range, in source order.
pub open spec fn directive_wf(s: Seq<u8>, c: CtxView<DirectiveView>) -> bool {
    let lo = c.range.0.offset as int;
    let hi = c.range.1.offset as int;
    &&& 0 <= lo <= hi <= s.len()
    &&& bytes_at(s, lo, keyword_of(c.value))
    &&& match c.value {
        DirectiveView::Require { specs } => entries_between(specs, lo, hi) && entries_ordered(
            specs,
        ),
        DirectiveView::Exclude { specs } => entries_between(specs, lo, hi) && entries_ordered(
            specs,
        ),
        DirectiveView::Godebug { specs } => entries_between(specs, lo, hi) && entries_ordered(
            specs,
        ),
        DirectiveView::Replace { specs } => entries_between(specs, lo, hi) && entries_ordered(
            specs,
        ),
        DirectiveView::Retract { specs } => entries_between(specs, lo, hi) && entries_ordered(
            specs,
        ),
        _ => true,
    }
}

// ---------------------------------------------------------------------------
// Entry ranges
// ---------------------------------------------------------------------------

proof fn lemma_require_entry_at_range(s: Seq<u8>, i: int)
    requires
        0 <= i <= s.len(),
        s.len() <= usize::MAX,
    ensures
        match require_entry_at(s, i) {
            Result::Ok((g, c)) => c.range.0.offset as int == i && c.range.1.offset as int == g,
            Result::Err(p) => true,
        },
{
    lemma_require_entry_at_consumes(s, i);
}

proof fn lemma_godebug_entry_at_range(s: Seq<u8>, i: int)
    requires
        0 <= i <= s.len(),
        s.len() <= usize::MAX,
    ensures
        match godebug_entry_at(s, i) {
            Result::Ok((g, c)) => c.range.0.offset as int == i && c.range.1.offset as int == g,
            Result::Err(p) => true,
        },
{
    lemma_godebug_entry_at_consumes(s, i);
}

proof fn lemma_replace_entry_at_range(s: Seq<u8>, i: int)
    requires
        0 <= i <= s.len(),
        s.len() <= usize::MAX,
    ensures
        match replace_entry_at(s, i) {
            Result::Ok((g, c)) => c.range.0.offset as int == i && c.range.1.offset as int == g,
            Result::Err(p) => true,
        },
{
    lemma_replace_entry_at_consumes(s, i);
}

proof fn lemma_retract_entry_at_range(s: Seq<u8>, i: int)
    requires
        0 <= i <= s.len(),
        s.len() <= usize::MAX,
    ensures
        match retract_entry_at(s, i) {
            Result::Ok((g, c)) => c.range.0.offset as int == i && c.range.1.offset as int == g,
            Result::Err(p) => true,
        },
{
    lemma_retract_entry_at_consumes(s, i);
}

// ---------------------------------------------------------------------------
// Entry lists and directive bodies
// ---------------------------------------------------------------------------

proof fn lemma_entries_between_widen<V>(ds: Seq<CtxView<V>>, lo1: int, hi1: int, lo: int, hi: int)
    requires
        entries_between(ds, lo1, hi1),
        lo <= lo1,
        hi1 <= hi,
    ensures
        entries_between(ds, lo, hi),
{
    assert forall|k: int| 0 <= k < ds.len() implies range_between(#[trigger] ds[k], lo, hi) by {
        assert(range_between(ds[k], lo1, hi1));
    }
}

proof fn lemma_require_entries_at_ranges(s: Seq<u8>, i: int)
    requires
        0 <= i <= s.len(),
        s.len() <= usize::MAX,
    ensures
        ({
            let r = require_entries_at(s, i);
            &&& i <= r.0 <= s.len()
            &&& entries_between(r.1, i, r.0)
            &&& entries_ordered(r.1)
        }),
    decreases s.len() - i,
{
    lemma_comments_at_bounds(s, i);
    let lead = comments_at(s, i);
    lemma_delims_end_bounds(s, lead.0);
    let d = delims_end(s, lead.0);
    lemma_require_entry_at_consumes(s, d);
    lemma_require_entry_at_range(s, d);
    match require_entry_at(s, d) {
        Result::Err(p) => {},
        Result::Ok((k, c)) => {
            if i < k <= s.len() {
                lemma_require_entries_at_ranges(s, k);
                let c2 = CtxView { range: c.range, comments: lead.1 + c.comments, value: c.value };
                let rest = require_entries_at(s, k);
                let all = seq![c2] + rest.1;
                assert forall|q: int| 0 <= q < all.len() implies range_between(
                    #[trigger] all[q],
                    i,
                    rest.0,
                ) by {
                    if q == 0 {
                        assert(all[0] == c2);
                    } else {
                        assert(all[q] == rest.1[q - 1]);
                        assert(range_between(rest.1[q - 1], k, rest.0));
                    }
                }
                assert forall|q: int|
                    0 <= q && q + 1 < all.len() implies all[q].range.1.offset <= all[q
                    + 1].range.0.offset by {
                    if q == 0 {
                        assert(all[0] == c2);
                        assert(all[1] == rest.1[0]);
                        assert(range_between(rest.1[0], k, rest.0));
                    } else {
                        assert(all[q] == rest.1[q - 1]);
                        assert(all[q + 1] == rest.1[q]);
                    }
                }
            }
        },
    }
}

proof fn lemma_require_body_at_ranges(s: Seq<u8>, k: int)
    requires
        0 <= k <= s.len(),
        s.len() <= usize::MAX,
    ensures
        match require_body_at(s, k) {
            Result::Ok((f, ents, tr)) => k < f <= s.len() && entries_between(ents, k, f)
                && entries_ordered(ents),
            Result::Err(p) => true,
        },
{
    crate::parser::require_directive::lemma_require_body_at_bounds(s, k);
    lemma_delims_end_bounds(s, k);
    let d = delims_end(s, k);
    lemma_require_entry_at_consumes(s, d);
    lemma_require_entry_at_range(s, d);
    let inline = if d == k {
        Result::<(int, CtxView<(Seq<u8>, crate::model::IdentView)>), int>::Err(k)
    } else {
        require_entry_at(s, d)
    };
    match inline {
        Result::Ok((f, c)) => {
            assert(entries_between(seq![c], k, f));
            assert(entries_ordered(seq![c]));
        },
        Result::Err(p1) => {
            if d < s.len() && s[d] == 40 {
                lemma_comment_at_consumes(s, d + 1);
                if let Option::Some((g, su1)) = comment_at(s, d + 1) {
                    lemma_require_entries_at_ranges(s, g);
                    let ents = require_entries_at(s, g);
                    lemma_comments_at_bounds(s, ents.0);
                    let lead3 = comments_at(s, ents.0);
                    lemma_delims_end_bounds(s, lead3.0);
                    let d3 = delims_end(s, lead3.0);
                    if d3 < s.len() && s[d3] == 41 {
                        lemma_comment_at_consumes(s, d3 + 1);
                        if let Option::Some((f, su3)) = comment_at(s, d3 + 1) {
                            lemma_entries_between_widen(ents.1, g, ents.0, k, f);
                        }
                    }
                }
            }
        },
    }
}

proof fn lemma_godebug_entries_at_ranges(s: Seq<u8>, i: int)
    requires
        0 <= i <= s.len(),
        s.len() <= usize::MAX,
    ensures
        ({
            let r = godebug_entries_at(s, i);
            &&& i <= r.0 <= s.len()
            &&& entries_between(r.1, i, r.0)
            &&& entries_ordered(r.1)
        }),
    decreases s.len() - i,
{
    lemma_comments_at_bounds(s, i);
    let lead = comments_at(s, i);
    lemma_delims_end_bounds(s, lead.0);
    let d = delims_end(s, lead.0);
    lemma_godebug_entry_at_consumes(s, d);
    lemma_godebug_entry_at_range(s, d);
    match godebug_entry_at(s, d) {
        Result::Err(p) => {},
        Result::Ok((k, c)) => {
            if i < k <= s.len() {
                lemma_godebug_entries_at_ranges(s, k);
                let c2 = CtxView { range: c.range, comments: lead.1 + c.comments, value: c.value };
                let rest = godebug_entries_at(s, k);
                let all = seq![c2] + rest.1;
                assert forall|q: int| 0 <= q < all.len() implies range_between(
                    #[trigger] all[q],
                    i,
                    rest.0,
                ) by {
                    if q == 0 {
                        assert(all[0] == c2);
                    } else {
                        assert(all[q] == rest.1[q - 1]);
                        assert(range_between(rest.1[q - 1], k, rest.0));
                    }
                }
                assert forall|q: int|
                    0 <= q && q + 1 < all.len() implies all[q].range.1.offset <= all[q
                    + 1].range.0.offset by {
                    if q == 0 {
                        assert(all[0] == c2);
                        assert(all[1] == rest.1[0]);
                        assert(range_between(rest.1[0], k, rest.0));
                    } else {
                        assert(all[q] == rest.1[q - 1]);
                        assert(all[q + 1] == rest.1[q]);
                    }
                }
            }
        },
    }
}

proof fn lemma_godebug_body_at_ranges(s: Seq<u8>, k: int)
    requires
        0 <= k <= s.len(),
        s.len() <= usize::MAX,
    ensures
        match godebug_body_at(s, k) {
            Result::Ok((f, ents, tr)) => k < f <= s.len() && entries_between(ents, k, f)
                && entries_ordered(ents),
            Result::Err(p) => true,
        },
{
    crate::parser::godebug_directive::lemma_godebug_body_at_bounds(s, k);
    lemma_delims_end_bounds(s, k);
    let d = delims_end(s, k);
    lemma_godebug_entry_at_consumes(s, d);
    lemma_godebug_entry_at_range(s, d);
    let inline = if d == k {
        Result::<(int, CtxView<(Seq<u8>, Seq<u8>)>), int>::Err(k)
    } else {
        godebug_entry_at(s, d)
    };
    match inline {
        Result::Ok((f, c)) => {
            assert(entries_between(seq![c], k, f));
            assert(entries_ordered(seq![c]));
        },
        Result::Err(p1) => {
            if d < s.len() && s[d] == 40 {
                lemma_comment_at_consumes(s, d + 1);
                if let Option::Some((g, su1)) = comment_at(s, d + 1) {
                    lemma_godebug_entries_at_ranges(s, g);
                    let ents = godebug_entries_at(s, g);
                    lemma_comments_at_bounds(s, ents.0);
                    let lead3 = comments_at(s, ents.0);
                    lemma_delims_end_bounds(s, lead3.0);
                    let d3 = delims_end(s, lead3.0);
                    if d3 < s.len() && s[d3] == 41 {
                        lemma_comment_at_consumes(s, d3 + 1);
                        if let Option::Some((f, su3)) = comment_at(s, d3 + 1) {
                            lemma_entries_between_widen(ents.1, g, ents.0, k, f);
                        }
                    }
                }
            }
        },
    }
}

proof fn lemma_replace_entries_at_ranges(s: Seq<u8>, i: int)
    requires
        0 <= i <= s.len(),
        s.len() <= usize::MAX,
    ensures
        ({
            let r = replace_entries_at(s, i);
            &&& i <= r.0 <= s.len()
            &&& entries_between(r.1, i, r.0)
            &&& entries_ordered(r.1)
        }),
    decreases s.len() - i,
{
    lemma_comments_at_bounds(s, i);
    let lead = comments_at(s, i);
    lemma_delims_end_bounds(s, lead.0);
    let d = delims_end(s, lead.0);
    lemma_replace_entry_at_consumes(s, d);
    lemma_replace_entry_at_range(s, d);
    match replace_entry_at(s, d) {
        Result::Err(p) => {},
        Result::Ok((k, c)) => {
            if i < k <= s.len() {
                lemma_replace_entries_at_ranges(s, k);
                let c2 = CtxView { range: c.range, comments: lead.1 + c.comments, value: c.value };
                let rest = replace_entries_at(s, k);
                let all = seq![c2] + rest.1;
                assert forall|q: int| 0 <= q < all.len() implies range_between(
                    #[trigger] all[q],
                    i,
                    rest.0,
                ) by {
                    if q == 0 {
                        assert(all[0] == c2);
                    } else {
                        assert(all[q] == rest.1[q - 1]);
                        assert(range_between(rest.1[q - 1], k, rest.0));
                    }
                }
                assert forall|q: int|
                    0 <= q && q + 1 < all.len() implies all[q].range.1.offset <= all[q
                    + 1].range.0.offset by {
                    if q == 0 {
                        assert(all[0] == c2);
                        assert(all[1] == rest.1[0]);
                        assert(range_between(rest.1[0], k, rest.0));
                    } else {
                        assert(all[q] == rest.1[q - 1]);
                        assert(all[q + 1] == rest.1[q]);
                    }
                }
            }
        },
    }
}

proof fn lemma_replace_body_at_ranges(s: Seq<u8>, k: int)
    requires
        0 <= k <= s.len(),
        s.len() <= usize::MAX,
    ensures
        match replace_body_at(s, k) {
            Result::Ok((f, ents, tr)) => k < f <= s.len() && entries_between(ents, k, f)
                && entries_ordered(ents),
            Result::Err(p) => true,
        },
{
    crate::parser::replace_directive::lemma_replace_body_at_bounds(s, k);
    lemma_delims_end_bounds(s, k);
    let d = delims_end(s, k);
    lemma_replace_entry_at_consumes(s, d);
    lemma_replace_entry_at_range(s, d);
    let inline = if d == k {
        Result::<(int, CtxView<crate::model::ReplaceSpecView>), int>::Err(k)
    } else {
        replace_entry_at(s, d)
    };
    match inline {
        Result::Ok((f, c)) => {
            assert(entries_between(seq![c], k, f));
            assert(entries_ordered(seq![c]));
        },
        Result::Err(p1) => {
            if d < s.len() && s[d] == 40 {
                lemma_comment_at_consumes(s, d + 1);
                if let Option::Some((g, su1)) = comment_at(s, d + 1) {
                    lemma_replace_entries_at_ranges(s, g);
                    let ents = replace_entries_at(s, g);
                    lemma_comments_at_bounds(s, ents.0);
                    let lead3 = comments_at(s, ents.0);
                    lemma_delims_end_bounds(s, lead3.0);
                    let d3 = delims_end(s, lead3.0);
                    if d3 < s.len() && s[d3] == 41 {
                        lemma_comment_at_consumes(s, d3 + 1);
                        if let Option::Some((f, su3)) = comment_at(s, d3 + 1) {
                            lemma_entries_between_widen(ents.1, g, ents.0, k, f);
                        }
                    }
                }
            }
        },
    }
}

proof fn lemma_retract_entries_at_ranges(s: Seq<u8>, i: int)
    requires
        0 <= i <= s.len(),
        s.len() <= usize::MAX,
    ensures
        ({
            let r = retract_entries_at(s, i);
            &&& i <= r.0 <= s.len()
            &&& entries_between(r.1, i, r.0)
            &&& entries_ordered(r.1)
        }),
    decreases s.len() - i,
{
    lemma_comments_at_bounds(s, i);
    let lead = comments_at(s, i);
    lemma_delims_end_bounds(s, lead.0);
    let d = delims_end(s, lead.0);
    lemma_retract_entry_at_consumes(s, d);
    lemma_retract_entry_at_range(s, d);
    match retract_entry_at(s, d) {
        Result::Err(p) => {},
        Result::Ok((k, c)) => {
            if i < k <= s.len() {
                lemma_retract_entries_at_ranges(s, k);
                let c2 = CtxView { range: c.range, comments: lead.1 + c.comments, value: c.value };
                let rest = retract_entries_at(s, k);
                let all = seq![c2] + rest.1;
                assert forall|q: int| 0 <= q < all.len() implies range_between(
                    #[trigger] all[q],
                    i,
                    rest.0,
                ) by {
                    if q == 0 {
                        assert(all[0] == c2);
                    } else {
                        assert(all[q] == rest.1[q - 1]);
                        assert(range_between(rest.1[q - 1], k, rest.0));
                    }
                }
                assert forall|q: int|
                    0 <= q && q + 1 < all.len() implies all[q].range.1.offset <= all[q
                    + 1].range.0.offset by {
                    if q == 0 {
                        assert(all[0] == c2);
                        assert(all[1] == rest.1[0]);
                        assert(range_between(rest.1[0], k, rest.0));
                    } else {
                        assert(all[q] == rest.1[q - 1]);
                        assert(all[q + 1] == rest.1[q]);
                    }
                }
            }
        },
    }
}

proof fn lemma_retract_body_at_ranges(s: Seq<u8>, k: int)
    requires
        0 <= k <= s.len(),
        s.len() <= usize::MAX,
    ensures
        match retract_body_at(s, k) {
            Result::Ok((f, ents, tr)) => k < f <= s.len() && entries_between(ents, k, f)
                && entries_ordered(ents),
            Result::Err(p) => true,
        },
{
    crate::parser::retract_directive::lemma_retract_body_at_bounds(s, k);
    lemma_delims_end_bounds(s, k);
    let d = delims_end(s, k);
    lemma_retract_entry_at_consumes(s, d);
    lemma_retract_entry_at_range(s, d);
    let inline = if d == k {
        Result::<(int, CtxView<crate::model::RetractSpecView>), int>::Err(k)
    } else {
        retract_entry_at(s, d)
    };
    match inline {
        Result::Ok((f, c)) => {
            assert(entries_between(seq![c], k, f));
            assert(entries_ordered(seq![c]));
        },
        Result::Err(p1) => {
            if d < s.len() && s[d] == 40 {
                lemma_comment_at_consumes(s, d + 1);
                if let Option::Some((g, su1)) = comment_at(s, d + 1) {
                    lemma_retract_entries_at_ranges(s, g);
                    let ents = retract_entries_at(s, g);
                    lemma_comments_at_bounds(s, ents.0);
                    let lead3 = comments_at(s, ents.0);
                    lemma_delims_end_bounds(s, lead3.0);
                    let d3 = delims_end(s, lead3.0);
                    if d3 < s.len() && s[d3] == 41 {
                        lemma_comment_at_consumes(s, d3 + 1);
                        if let Option::Some((f, su3)) = comment_at(s, d3 + 1) {
                            lemma_entries_between_widen(ents.1, g, ents.0, k, f);
                        }
                    }
                }
            }
        },
    }
}


// ---------------------------------------------------------------------------
// Directives
// ---------------------------------------------------------------------------

proof fn lemma_go_at_wf(s: Seq<u8>, i: int)
    requires
        0 <= i <= s.len(),
        s.len() <= usize::MAX,
    ensures
        match go_at(s, i) {
            Result::Ok((f, c)) => directive_wf(s, c) && i <= c.range.0.offset as int
                && c.range.1.offset as int == f,
            Result::Err(p) => true,
        },
{
    crate::parser::go_directive::lemma_go_at_consumes(s, i);
    lemma_comments_at_bounds(s, i);
    let lead = comments_at(s, i);
    lemma_delims_end_bounds(s, lead.0);
    let j = delims_end(s, lead.0);
    if bytes_at(s, j, kw_go()) {
        let k = j + kw_go().len();
        lemma_delims_end_bounds(s, k);
        let d = delims_end(s, k);
        if d != k {
            lemma_ident_at_consumes(s, d);
            if let Option::Some((e, ver)) = ident_at(s, d) {
                lemma_comment_at_consumes(s, e);
            }
        }
    }
}

proof fn lemma_toolchain_at_wf(s: Seq<u8>, i: int)
    requires
        0 <= i <= s.len(),
        s.len() <= usize::MAX,
    ensures
        match toolchain_at(s, i) {
            Result::Ok((f, c)) => directive_wf(s, c) && i <= c.range.0.offset as int
                && c.range.1.offset as int == f,
            Result::Err(p) => true,
        },
{
    crate::parser::toolchain_directive::lemma_toolchain_at_consumes(s, i);
    lemma_comments_at_bounds(s, i);
    let lead = comments_at(s, i);
    lemma_delims_end_bounds(s, lead.0);
    let j = delims_end(s, lead.0);
    if bytes_at(s, j, kw_toolchain()) {
        let k = j + kw_toolchain().len();
        lemma_delims_end_bounds(s, k);
        let d = delims_end(s, k);
        if d != k {
            lemma_ident_at_consumes(s, d);
            if let Option::Some((e, ver)) = ident_at(s, d) {
                lemma_comment_at_consumes(s, e);
            }
        }
    }
}

proof fn lemma_module_at_wf(s: Seq<u8>, i: int)
    requires
        0 <= i <= s.len(),
        s.len() <= usize::MAX,
    ensures
        match module_at(s, i) {
            Result::Ok((f, c)) => directive_wf(s, c) && i <= c.range.0.offset as int
                && c.range.1.offset as int == f,
            Result::Err(p) => true,
        },
{
    crate::parser::module_directive::lemma_module_at_consumes(s, i);
    lemma_comments_at_bounds(s, i);
    let lead = comments_at(s, i);
    lemma_delims_end_bounds(s, lead.0);
    let j = delims_end(s, lead.0);
    if bytes_at(s, j, kw_module()) {
        let k = j + kw_module().len();
        crate::parser::module_directive::lemma_module_inline_at_bounds(s, k);
        crate::parser::module_directive::lemma_module_block_at_bounds(s, k);
    }
}

proof fn lemma_require_at_wf(s: Seq<u8>, i: int)
    requires
        0 <= i <= s.len(),
        s.len() <= usize::MAX,
    ensures
        match require_at(s, i) {
            Result::Ok((f, c)) => directive_wf(s, c) && i <= c.range.0.offset as int
                && c.range.1.offset as int == f,
            Result::Err(p) => true,
        },
{
    lemma_comments_at_bounds(s, i);
    let lead = comments_at(s, i);
    lemma_delims_end_bounds(s, lead.0);
    let j = delims_end(s, lead.0);
    if bytes_at(s, j, kw_require()) {
        let k = j + kw_require().len();
        lemma_require_body_at_ranges(s, k);
        if let Result::Ok((f, ents, tr)) = require_body_at(s, k) {
            lemma_entries_between_widen(ents, k, f, j, f);
        }
    }
}

proof fn lemma_exclude_at_wf(s: Seq<u8>, i: int)
    requires
        0 <= i <= s.len(),
        s.len() <= usize::MAX,
    ensures
        match exclude_at(s, i) {
            Result::Ok((f, c)) => directive_wf(s, c) && i <= c.range.0.offset as int
                && c.range.1.offset as int == f,
            Result::Err(p) => true,
        },
{
    lemma_comments_at_bounds(s, i);
    let lead = comments_at(s, i);
    lemma_delims_end_bounds(s, lead.0);
    let j = delims_end(s, lead.0);
    if bytes_at(s, j, kw_exclude()) {
        let k = j + kw_exclude().len();
        lemma_require_body_at_ranges(s, k);
        if let Result::Ok((f, ents, tr)) = require_body_at(s, k) {
            lemma_entries_between_widen(ents, k, f, j, f);
        }
    }
}

proof fn lemma_godebug_at_wf(s: Seq<u8>, i: int)
    requires
        0 <= i <= s.len(),
        s.len() <= usize::MAX,
    ensures
        match godebug_at(s, i) {
            Result::Ok((f, c)) => directive_wf(s, c) && i <= c.range.0.offset as int
                && c.range.1.offset as int == f,
            Result::Err(p) => true,
        },
{
    lemma_comments_at_bounds(s, i);
    let lead = comments_at(s, i);
    lemma_delims_end_bounds(s, lead.0);
    let j = delims_end(s, lead.0);
    if bytes_at(s, j, kw_godebug()) {
        let k = j + kw_godebug().len();
        lemma_godebug_body_at_ranges(s, k);
        if let Result::Ok((f, ents, tr)) = godebug_body_at(s, k) {
            lemma_entries_between_widen(ents, k, f, j, f);
        }
    }
}

proof fn lemma_replace_at_wf(s: Seq<u8>, i: int)
    requires
        0 <= i <= s.len(),
        s.len() <= usize::MAX,
    ensures
        match replace_at(s, i) {
            Result::Ok((f, c)) => directive_wf(s, c) && i <= c.range.0.offset as int
                && c.range.1.offset as int == f,
            Result::Err(p) => true,
        },
{
    lemma_comments_at_bounds(s, i);
    let lead = comments_at(s, i);
    lemma_delims_end_bounds(s, lead.0);
    let j = delims_end(s, lead.0);
    if bytes_at(s, j, kw_replace()) {
        let k = j + kw_replace().len();
        lemma_replace_body_at_ranges(s, k);
        if let Result::Ok((f, ents, tr)) = replace_body_at(s, k) {
            lemma_entries_between_widen(ents, k, f, j, f);
        }
    }
}

proof fn lemma_retract_at_wf(s: Seq<u8>, i: int)
    requires
        0 <= i <= s.len(),
        s.len() <= usize::MAX,
    ensures
        match retract_at(s, i) {
            Result::Ok((f, c)) => directive_wf(s, c) && i <= c.range.0.offset as int
                && c.range.1.offset as int == f,
            Result::Err(p) => true,
        },
{
    lemma_comments_at_bounds(s, i);
    let lead = comments_at(s, i);
    lemma_delims_end_bounds(s, lead.0);
    let j = delims_end(s, lead.0);
    if bytes_at(s, j, kw_retract()) {
        let k = j + kw_retract().len();
        lemma_retract_body_at_ranges(s, k);
        if let Result::Ok((f, ents, tr)) = retract_body_at(s, k) {
            lemma_entries_between_widen(ents, k, f, j, f);
        }
    }
}

proof fn lemma_directive_at_wf(s: Seq<u8>, i: int)
    requires
        0 <= i <= s.len(),
        s.len() <= usize::MAX,
    ensures
        match directive_at(s, i) {
            Result::Ok((j, c)) => directive_wf(s, c) && i <= c.range.0.offset as int
                && c.range.1.offset as int == j,
            Result::Err(p) => true,
        },
{
    lemma_go_at_wf(s, i);
    lemma_module_at_wf(s, i);
    lemma_exclude_at_wf(s, i);
    lemma_godebug_at_wf(s, i);
    lemma_replace_at_wf(s, i);
    lemma_require_at_wf(s, i);
    lemma_retract_at_wf(s, i);
    lemma_toolchain_at_wf(s, i);
}

// ---------------------------------------------------------------------------
// Whole documents
// ---------------------------------------------------------------------------

proof fn lemma_gomod_tail_at_ranges(s: Seq<u8>, i: int)
    requires
        0 <= i <= s.len(),
        s.len() <= usize::MAX,
    ensures
        match gomod_tail_at(s, i) {
            Result::Ok((e, ds)) => i <= e <= s.len() && entries_between(ds, i, e)
                && entries_ordered(ds) && (forall|k: int|
                0 <= k < ds.len() ==> directive_wf(s, #[trigger] ds[k])),
            Result::Err(p) => true,
        },
    decreases s.len() - i,
{
    lemma_directive_at_consumes(s, i);
    lemma_directive_at_wf(s, i);
    match directive_at(s, i) {
        Result::Ok((j, c)) => {
            if i < j <= s.len() {
                lemma_gomod_tail_at_ranges(s, j);
                if let Result::Ok((e, rest)) = gomod_tail_at(s, j) {
                    let all = seq![c] + rest;
                    assert forall|q: int| 0 <= q < all.len() implies range_between(
                        #[trigger] all[q],
                        i,
                        e,
                    ) && directive_wf(s, all[q]) by {
                        if q == 0 {
                            assert(all[0] == c);
                        } else {
                            assert(all[q] == rest[q - 1]);
                            assert(range_between(rest[q - 1], j, e));
                        }
                    }
                    assert forall|q: int|
                        0 <= q && q + 1 < all.len() implies all[q].range.1.offset <= all[q
                        + 1].range.0.offset by {
                        if q == 0 {
                            assert(all[0] == c);
                            assert(all[1] == rest[0]);
                            assert(range_between(rest[0], j, e));
                        } else {
                            assert(all[q] == rest[q - 1]);
                            assert(all[q + 1] == rest[q]);
                        }
                    }
                }
            }
        },
        Result::Err(p) => {
            lemma_comments_at_bounds(s, i);
        },
    }
}

/// Directive ranges never overlap and appear in non-decreasing source
/// order: in every document the parser accepts, each directive's range
/// ends at or before the next directive's range starts, and every range
/// lies inside the input with its start before its end.
pub proof fn lemma_directive_ranges_ordered(s: Seq<u8>)
    requires
        s.len() <= usize::MAX,
    ensures
        match gomod_at(s, 0) {
            Result::Ok((e, ds)) => entries_ordered(ds) && entries_between(ds, 0, s.len() as int),
            Result::Err(p) => true,
        },
{
    lemma_gomod_tail_at_ranges(s, 0);
    if let Result::Ok((e, ds)) = gomod_tail_at(s, 0) {
        lemma_entries_between_widen(ds, 0, e, 0, s.len() as int);
    }
}

/// Slicing the input by any directive's or entry's range stays within the
/// directive's own text: every directive's range begins exactly at its
/// keyword, and the range of each entry of a block lies between its
/// directive's start and end.  With [`lemma_directive_ranges_ordered`],
/// every such slice ends at or before the next directive's start.
pub proof fn lemma_ranges_within_directives(s: Seq<u8>)
    requires
        s.len() <= usize::MAX,
    ensures
        match gomod_at(s, 0) {
            Result::Ok((e, ds)) => forall|k: int|
                0 <= k < ds.len() ==> directive_wf(s, #[trigger] ds[k]),
            Result::Err(p) => true,
        },
{
    lemma_gomod_tail_at_ranges(s, 0);
}


// ---------------------------------------------------------------------------
// Quoting transparency
// ---------------------------------------------------------------------------

/// Quoting is transparent where nothing is escaped: when the body of an
/// interpreted string holds no backslash, its decoded value is the body
/// verbatim.  A raw string and a bare token are verbatim by construction,
/// so the three spellings of such a token all read to the same bytes.
pub proof fn lemma_interp_without_escapes_verbatim(s: Seq<u8>, i: int)
    requires
        0 <= i <= s.len(),
    ensures
        match crate::grammar::interp_tail_at(s, i) {
            Option::Some((e, v)) => (forall|k: int| i <= k < e - 1 ==> s[k] != 92) ==> v
                =~= s.subrange(i, e - 1),
            Option::None => true,
        },
    decreases s.len() - i,
{
    crate::grammar::lemma_interp_tail_at_bounds(s, i);
    if 0 <= i < s.len() {
        if s[i] == 34 {
        } else if s[i] == 92 {
            if i + 1 < s.len() {
                crate::grammar::lemma_interp_tail_at_bounds(s, i + 2);
            }
        } else if crate::model::is_interp_plain(s[i]) {
            lemma_interp_without_escapes_verbatim(s, i + 1);
            crate::grammar::lemma_interp_tail_at_bounds(s, i + 1);
            if let Option::Some((e, v2)) = crate::grammar::interp_tail_at(s, i + 1) {
                if forall|k: int| i <= k < e - 1 ==> s[k] != 92 {
                    assert(v2 =~= s.subrange(i + 1, e - 1));
                    assert(seq![s[i]] + v2 =~= s.subrange(i, e - 1));
                }
            }
        }
    }
}

} // verus!
