//! The mathematical model of the parser.
//!
//! Every executable parsing function in this crate is specified against a
//! spec-level reading of the same grammar, written here over `Seq<u8>`.
//! A position is an `int` index into the input sequence; a scanning
//! function returns the index one past what it consumed.

use vstd::prelude::*;
use crate::{Context, Directive, Identifier, Location, ParseError, ReplaceSpec, Replacement, RetractSpec, Sundry};

verus! {

// ---------------------------------------------------------------------------
// Views of the public data types
// ---------------------------------------------------------------------------

/// Model of [`Sundry`]: one classified physical line.
pub enum SundryView {
    Comment(Seq<u8>),
    Empty,
    EOF,
}

/// Model of [`Identifier`].
pub enum IdentView {
    Raw(Seq<u8>),
    Interpreted(Seq<u8>),
}

impl IdentView {
    /// The token's bytes, whichever variant holds them.
    pub open spec fn bytes(self) -> Seq<u8> {
        match self {
            IdentView::Raw(b) => b,
            IdentView::Interpreted(b) => b,
        }
    }
}

/// Model of [`Context`]: the range is kept as-is (it is made of integers),
/// the comments become a sequence of byte sequences.
#[verifier::ext_equal]
pub struct CtxView<V> {
    pub range: (Location, Location),
    pub comments: Seq<Seq<u8>>,
    pub value: V,
}

/// Model of [`Replacement`].
pub enum ReplacementView {
    FilePath(IdentView),
    Module((Seq<u8>, IdentView)),
}

/// Model of [`ReplaceSpec`].
#[verifier::ext_equal]
pub struct ReplaceSpecView {
    pub path: Seq<u8>,
    pub version: Option<IdentView>,
    pub replacement: ReplacementView,
}

/// Model of [`RetractSpec`].
pub enum RetractSpecView {
    Version(IdentView),
    Range((IdentView, IdentView)),
}

/// Model of [`Directive`].
pub enum DirectiveView {
    Module { path: Seq<u8> },
    Go { version: IdentView },
    Require { specs: Seq<CtxView<(Seq<u8>, IdentView)>> },
    Toolchain { name: IdentView },
    Godebug { specs: Seq<CtxView<(Seq<u8>, Seq<u8>)>> },
    Replace { specs: Seq<CtxView<ReplaceSpecView>> },
    Exclude { specs: Seq<CtxView<(Seq<u8>, IdentView)>> },
    Retract { specs: Seq<CtxView<RetractSpecView>> },
}

impl View for Sundry {
    type V = SundryView;

    open spec fn view(&self) -> SundryView {
        match self {
            Sundry::Comment(t) => SundryView::Comment(t@),
            Sundry::Empty => SundryView::Empty,
            Sundry::EOF => SundryView::EOF,
        }
    }
}

impl View for Identifier {
    type V = IdentView;

    open spec fn view(&self) -> IdentView {
        match self {
            Identifier::Raw(t) => IdentView::Raw(t@),
            Identifier::Interpreted(t) => IdentView::Interpreted(t@),
        }
    }
}

impl<T: View> View for Context<T> {
    type V = CtxView<T::V>;

    open spec fn view(&self) -> CtxView<T::V> {
        CtxView {
            range: self.range,
            comments: bytes_seq_view(self.comments@),
            value: self.value@,
        }
    }
}

impl View for Replacement {
    type V = ReplacementView;

    open spec fn view(&self) -> ReplacementView {
        match self {
            Replacement::FilePath(f) => ReplacementView::FilePath(f@),
            Replacement::Module(m) => ReplacementView::Module((m.0@, m.1@)),
        }
    }
}

impl View for ReplaceSpec {
    type V = ReplaceSpecView;

    open spec fn view(&self) -> ReplaceSpecView {
        ReplaceSpecView {
            path: self.path@,
            version: match self.version {
                Option::Some(v) => Option::Some(v@),
                Option::None => Option::None,
            },
            replacement: self.replacement@,
        }
    }
}

impl View for RetractSpec {
    type V = RetractSpecView;

    open spec fn view(&self) -> RetractSpecView {
        match self {
            RetractSpec::Version(v) => RetractSpecView::Version(v@),
            RetractSpec::Range(r) => RetractSpecView::Range((r.0@, r.1@)),
        }
    }
}

impl View for Directive {
    type V = DirectiveView;

    open spec fn view(&self) -> DirectiveView {
        match self {
            Directive::Module { path } => DirectiveView::Module { path: path@ },
            Directive::Go { version } => DirectiveView::Go { version: version@ },
            Directive::Require { specs } => DirectiveView::Require { specs: ctx_seq_view(specs@) },
            Directive::Toolchain { name } => DirectiveView::Toolchain { name: name@ },
            Directive::Godebug { specs } => DirectiveView::Godebug { specs: ctx_seq_view(specs@) },
            Directive::Replace { specs } => DirectiveView::Replace { specs: ctx_seq_view(specs@) },
            Directive::Exclude { specs } => DirectiveView::Exclude { specs: ctx_seq_view(specs@) },
            Directive::Retract { specs } => DirectiveView::Retract { specs: ctx_seq_view(specs@) },
        }
    }
}

/// The element-wise view of a sequence of contexts.
pub open spec fn ctx_seq_view<T: View>(s: Seq<Context<T>>) -> Seq<CtxView<T::V>> {
    Seq::new(s.len(), |i: int| s[i]@)
}

/// The element-wise view of a sequence of byte vectors.
pub open spec fn bytes_seq_view(v: Seq<Vec<u8>>) -> Seq<Seq<u8>> {
    Seq::new(v.len(), |i: int| v[i]@)
}

// ---------------------------------------------------------------------------
// Characters
// ---------------------------------------------------------------------------

/// In-line delimiters: space, tab and carriage return, but not newline.
pub open spec fn is_delim(b: u8) -> bool {
    b == ' ' as u8 || b == '\t' as u8 || b == '\r' as u8
}

/// The bytes allowed in one module-path segment: ASCII letters and digits
/// plus `-`, `_`, `.` and `~`.
pub open spec fn is_path_byte(b: u8) -> bool {
    ||| '0' as u8 <= b <= '9' as u8
    ||| 'A' as u8 <= b <= 'Z' as u8
    ||| 'a' as u8 <= b <= 'z' as u8
    ||| b == '-' as u8
    ||| b == '_' as u8
    ||| b == '.' as u8
    ||| b == '~' as u8
}

/// The bytes that end a `godebug` key or value token: whitespace, comma,
/// either kind of quote, apostrophe and the equals sign.
pub open spec fn is_gd_stop(b: u8) -> bool {
    ||| b == ' ' as u8 || b == '\t' as u8 || b == '\r' as u8 || b == '\n' as u8
    ||| b == ',' as u8
    ||| b == '\"' as u8
    ||| b == '\'' as u8
    ||| b == '`' as u8
    ||| b == '=' as u8
}

/// The bytes excluded from an unescaped position of an interpreted string:
/// the control whitespace bytes, the closing quote and the backslash.
pub open spec fn is_interp_plain(b: u8) -> bool {
    b != '\n' as u8 && b != '\r' as u8 && b != '\t' as u8 && b != 8 && b != 12 && b
        != '\"' as u8 && b != '\\' as u8
}

// ---------------------------------------------------------------------------
// Lines and locations
// ---------------------------------------------------------------------------

/// How many newline bytes stand before position `n`.
pub open spec fn newline_count(s: Seq<u8>, n: int) -> int
    decreases n,
{
    if n <= 0 {
        0
    } else {
        newline_count(s, n - 1) + if s[n - 1] == '\n' as u8 { 1int } else { 0int }
    }
}

/// The 1-based line number of position `n`.
pub open spec fn line_of(s: Seq<u8>, n: int) -> int {
    1 + newline_count(s, n)
}

/// The [`Location`] of position `n`.
pub open spec fn loc_of(s: Seq<u8>, n: int) -> Location {
    Location { line: line_of(s, n) as u32, offset: n as usize }
}

pub proof fn lemma_newline_count_bounds(s: Seq<u8>, n: int)
    requires
        0 <= n,
    ensures
        0 <= newline_count(s, n) <= n,
    decreases n,
{
    if n > 0 {
        lemma_newline_count_bounds(s, n - 1);
    }
}

/// The [`crate::ParseError`] that points at position `n`.
pub open spec fn perr_of(s: Seq<u8>, n: int) -> ParseError {
    ParseError { line: line_of(s, n) as u32, offset: n as usize }
}

pub proof fn lemma_bytes_seq_view_push(v: Seq<Vec<u8>>, t: Vec<u8>)
    ensures
        bytes_seq_view(v.push(t)) == bytes_seq_view(v) + seq![t@],
{
    assert(bytes_seq_view(v.push(t)) =~~= bytes_seq_view(v) + seq![t@]);
}

pub proof fn lemma_bytes_seq_view_concat_empty(v: Seq<Vec<u8>>)
    ensures
        bytes_seq_view(v) + Seq::<Seq<u8>>::empty() == bytes_seq_view(v),
{
    assert(bytes_seq_view(v) + Seq::<Seq<u8>>::empty() =~~= bytes_seq_view(v));
}

pub proof fn lemma_bytes_seq_view_concat(a: Seq<Vec<u8>>, b: Seq<Vec<u8>>)
    ensures
        bytes_seq_view(a + b) == bytes_seq_view(a) + bytes_seq_view(b),
{
    assert(bytes_seq_view(a + b) =~~= bytes_seq_view(a) + bytes_seq_view(b));
}

pub proof fn lemma_ctx_seq_view_push<T: View>(v: Seq<Context<T>>, c: Context<T>)
    ensures
        ctx_seq_view(v.push(c)) == ctx_seq_view(v) + seq![c@],
{
    assert(ctx_seq_view(v.push(c)) =~~= ctx_seq_view(v) + seq![c@]);
}

pub proof fn lemma_ctx_seq_view_concat_empty<T: View>(v: Seq<Context<T>>)
    ensures
        ctx_seq_view(v) + Seq::<CtxView<T::V>>::empty() == ctx_seq_view(v),
{
    assert(ctx_seq_view(v) + Seq::<CtxView<T::V>>::empty() =~~= ctx_seq_view(v));
}

// ---------------------------------------------------------------------------
// Elementary scans
// ---------------------------------------------------------------------------

/// The first position at or after `i` that does not hold an in-line
/// delimiter.
pub open spec fn delims_end(s: Seq<u8>, i: int) -> int
    decreases s.len() - i,
{
    if 0 <= i < s.len() && is_delim(s[i]) {
        delims_end(s, i + 1)
    } else {
        i
    }
}

pub proof fn lemma_delims_end_bounds(s: Seq<u8>, i: int)
    requires
        0 <= i <= s.len(),
    ensures
        i <= delims_end(s, i) <= s.len(),
    decreases s.len() - i,
{
    if i < s.len() && is_delim(s[i]) {
        lemma_delims_end_bounds(s, i + 1);
    }
}

/// The first position at or after `i` that holds a newline, or the length
/// of the input if none does.
pub open spec fn line_end(s: Seq<u8>, i: int) -> int
    decreases s.len() - i,
{
    if 0 <= i < s.len() && s[i] != '\n' as u8 {
        line_end(s, i + 1)
    } else {
        i
    }
}

pub proof fn lemma_line_end_bounds(s: Seq<u8>, i: int)
    requires
        0 <= i <= s.len(),
    ensures
        i <= line_end(s, i) <= s.len(),
    decreases s.len() - i,
{
    if i < s.len() && s[i] != '\n' as u8 {
        lemma_line_end_bounds(s, i + 1);
    }
}

/// Whether the bytes of `pat` stand at position `i` of `s`.
pub open spec fn bytes_at(s: Seq<u8>, i: int, pat: Seq<u8>) -> bool {
    0 <= i && i + pat.len() <= s.len() && s.subrange(i, i + pat.len()) == pat
}

} // verus!
