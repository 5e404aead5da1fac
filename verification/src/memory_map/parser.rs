//! Parser for `memory.x` linker scripts.
//!
//! Finds the `MEMORY { .. }` block of a linker script, then parses each region
//! declaration in it, evaluating its `ORIGIN` and `LENGTH` expressions against
//! the regions declared before it.
use vstd::prelude::*;

use super::expression::{evaluate_spec, evaluate_tokens, regions_view, EvaluateError};
use super::tokenizer::{joins_at_line_feed, lemma_lex_prefix_extend, lex_prefix, tokenize_prefix, tokens_view, Token, TokenView, TokenizeError};
use super::{Region, RegionView};
use crate::text::{chars_eq_ignore_ascii_case, chars_of, eq_ignore_ascii_case};

verus! {

/// A delimiter that the parser requires at some point.
#[derive(Clone, Copy, Debug, PartialEq, Eq)]
pub enum Delimiter {
    LeftBrace,
    LeftParen,
    Colon,
    Comma,
    Equals,
}

/// Why a `memory.x` text could not be parsed.
#[derive(Clone, Copy, Debug, PartialEq, Eq)]
pub enum ParseError {
    /// The text could not be tokenized.
    Tokenize(TokenizeError),
    /// No identifier `MEMORY` (in any case) in the text.
    NoMemoryBlock,
    /// Another token, or the end, where the delimiter belongs.
    Expected(Delimiter),
    /// Something other than an identifier or `}` where a region starts.
    ExpectedRegionName,
    /// The tokens ran out before the `}` that closes `MEMORY { .. }`.
    NoClosingBrace,
    /// The tokens ran out inside a region's `( .. )` attributes.
    UnclosedRegionAttributes,
    /// Something other than `ORIGIN`/`org`/`LENGTH`/`len` before `=`.
    ExpectedAssignment,
    /// A region that assigns `ORIGIN` twice or `LENGTH` twice.
    MissingOriginOrLength,
    /// An `ORIGIN` or `LENGTH` expression could not be evaluated.
    Expression(EvaluateError),
}

/// Which region field an assignment sets.
#[derive(Clone, Copy, Debug, PartialEq, Eq)]
pub enum AssignmentKind {
    Origin,
    Length,
}

/// What ends an assignment's expression.
#[derive(Clone, Copy, Debug, PartialEq, Eq)]
pub enum Terminator {
    /// A `,` (the first assignment of a region).
    Comma,
    /// A line break or `}` (the second assignment of a region).
    LineEnd,
}

// ---------------------------------------------------------------------------
// Specification
// ---------------------------------------------------------------------------

pub open spec fn memory_keyword() -> Seq<char> {
    seq!['M', 'E', 'M', 'O', 'R', 'Y']
}

pub open spec fn origin_names() -> (Seq<char>, Seq<char>) {
    (seq!['O', 'R', 'I', 'G', 'I', 'N'], seq!['o', 'r', 'g'])
}

pub open spec fn length_names() -> (Seq<char>, Seq<char>) {
    (seq!['L', 'E', 'N', 'G', 'T', 'H'], seq!['l', 'e', 'n'])
}

pub open spec fn is_delimiter(t: TokenView, d: Delimiter) -> bool {
    match d {
        Delimiter::LeftBrace => t is LeftBrace,
        Delimiter::LeftParen => t is LeftParen,
        Delimiter::Colon => t is Colon,
        Delimiter::Comma => t is Comma,
        Delimiter::Equals => t is Equals,
    }
}

pub open spec fn ends_expression(t: TokenView, term: Terminator) -> bool {
    match term {
        Terminator::Comma => t is Comma,
        Terminator::LineEnd => t is Newline || t is RightBrace,
    }
}

/// The position after the first identifier `MEMORY` (in any case) at or
/// after `i`.
pub open spec fn after_memory_keyword(t: Seq<TokenView>, i: int) -> Option<int>
    decreases t.len() - i,
{
    if i < 0 || i >= t.len() {
        None
    } else if t[i] matches TokenView::Identifier(name) && eq_ignore_ascii_case(name, memory_keyword()) {
        Some(i + 1)
    } else {
        after_memory_keyword(t, i + 1)
    }
}

/// The first position at or after `i` that holds no `Newline`.
pub open spec fn skip_newlines_spec(t: Seq<TokenView>, i: int) -> int
    decreases t.len() - i,
{
    if 0 <= i < t.len() && t[i] is Newline {
        skip_newlines_spec(t, i + 1)
    } else {
        i
    }
}

/// The position after the `)` that brings the nesting `depth` of region
/// attributes from `j` on to zero.
pub open spec fn attributes_end(t: Seq<TokenView>, j: int, depth: nat) -> Option<int>
    decreases t.len() - j,
{
    if j < 0 || j >= t.len() {
        None
    } else if t[j] is LeftParen {
        attributes_end(t, j + 1, depth + 1)
    } else if t[j] is RightParen {
        if depth <= 1 {
            Some(j + 1)
        } else {
            attributes_end(t, j + 1, (depth - 1) as nat)
        }
    } else {
        attributes_end(t, j + 1, depth)
    }
}

/// The expression tokens from `j` up to (not including) the terminator, line
/// breaks left out, and the position of the terminator (or the end).
pub open spec fn collect_spec(t: Seq<TokenView>, j: int, term: Terminator) -> (Seq<TokenView>, int)
    decreases t.len() - j,
{
    if j < 0 || j >= t.len() || ends_expression(t[j], term) {
        (Seq::empty(), j)
    } else {
        let (rest, k) = collect_spec(t, j + 1, term);
        if t[j] is Newline {
            (rest, k)
        } else {
            (seq![t[j]] + rest, k)
        }
    }
}

/// The assignment name at `i`: `ORIGIN`/`org` or `LENGTH`/`len`, in any case.
pub open spec fn assignment_kind_spec(t: Seq<TokenView>, i: int) -> Result<AssignmentKind, ParseError> {
    if 0 <= i < t.len() && t[i] is Identifier {
        let name = t[i]->Identifier_0;
        if eq_ignore_ascii_case(name, origin_names().0) || eq_ignore_ascii_case(name, origin_names().1) {
            Ok(AssignmentKind::Origin)
        } else if eq_ignore_ascii_case(name, length_names().0) || eq_ignore_ascii_case(
            name,
            length_names().1,
        ) {
            Ok(AssignmentKind::Length)
        } else {
            Err(ParseError::ExpectedAssignment)
        }
    } else {
        Err(ParseError::ExpectedAssignment)
    }
}

/// `NAME = expression` at `i`, the expression ending at `term`: the kind, the
/// value against the regions `rs`, and the position of the terminator.
pub open spec fn assignment_spec(t: Seq<TokenView>, i: int, rs: Seq<RegionView>, term: Terminator) -> Result<
    (AssignmentKind, u64, int),
    ParseError,
> {
    match assignment_kind_spec(t, i) {
        Err(e) => Err(e),
        Ok(kind) => {
            if !(i + 1 < t.len() && t[i + 1] is Equals) {
                Err(ParseError::Expected(Delimiter::Equals))
            } else {
                let (expression, k) = collect_spec(t, i + 2, term);
                match evaluate_spec(expression, rs) {
                    Ok(v) => Ok((kind, v, k)),
                    Err(e) => Err(ParseError::Expression(e)),
                }
            }
        },
    }
}

/// The region declaration whose name is at `i`:
/// `NAME [( attributes )] : ORIGIN = e1, LENGTH = e2` (either order), and the
/// position after it and the line breaks that follow it.
pub open spec fn region_spec(t: Seq<TokenView>, i: int, rs: Seq<RegionView>) -> Result<
    (RegionView, int),
    ParseError,
> {
    let name = t[i]->Identifier_0;
    let after_attributes = if i + 1 < t.len() && t[i + 1] is LeftParen {
        attributes_end(t, i + 2, 1)
    } else {
        Some(i + 1)
    };
    match after_attributes {
        None => Err(ParseError::UnclosedRegionAttributes),
        Some(p) => {
            if !(p < t.len() && t[p] is Colon) {
                Err(ParseError::Expected(Delimiter::Colon))
            } else {
                match assignment_spec(t, p + 1, rs, Terminator::Comma) {
                    Err(e) => Err(e),
                    Ok((first_kind, first_value, q)) => {
                        if !(q < t.len() && t[q] is Comma) {
                            Err(ParseError::Expected(Delimiter::Comma))
                        } else {
                            match assignment_spec(t, q + 1, rs, Terminator::LineEnd) {
                                Err(e) => Err(e),
                                Ok((second_kind, second_value, e)) => {
                                    let end = skip_newlines_spec(t, e);
                                    if first_kind == AssignmentKind::Origin && second_kind
                                        == AssignmentKind::Length {
                                        Ok(
                                            (
                                                RegionView {
                                                    name,
                                                    start: first_value,
                                                    length: second_value,
                                                },
                                                end,
                                            ),
                                        )
                                    } else if first_kind == AssignmentKind::Length && second_kind
                                        == AssignmentKind::Origin {
                                        Ok(
                                            (
                                                RegionView {
                                                    name,
                                                    start: second_value,
                                                    length: first_value,
                                                },
                                                end,
                                            ),
                                        )
                                    } else {
                                        Err(ParseError::MissingOriginOrLength)
                                    }
                                },
                            }
                        }
                    },
                }
            }
        },
    }
}

pub proof fn lemma_skip_newlines_bounds(t: Seq<TokenView>, i: int)
    requires
        0 <= i <= t.len(),
    ensures
        i <= skip_newlines_spec(t, i) <= t.len(),
    decreases t.len() - i,
{
    if i < t.len() && t[i] is Newline {
        lemma_skip_newlines_bounds(t, i + 1);
    }
}

pub proof fn lemma_attributes_end_bounds(t: Seq<TokenView>, j: int, depth: nat)
    requires
        0 <= j,
    ensures
        attributes_end(t, j, depth) matches Some(k) ==> j < k <= t.len(),
    decreases t.len() - j,
{
    if 0 <= j < t.len() {
        if t[j] is LeftParen {
            lemma_attributes_end_bounds(t, j + 1, depth + 1);
        } else if t[j] is RightParen {
            if depth > 1 {
                lemma_attributes_end_bounds(t, j + 1, (depth - 1) as nat);
            }
        } else {
            lemma_attributes_end_bounds(t, j + 1, depth);
        }
    }
}

pub proof fn lemma_collect_bounds(t: Seq<TokenView>, j: int, term: Terminator)
    requires
        0 <= j <= t.len(),
    ensures
        j <= collect_spec(t, j, term).1 <= t.len(),
    decreases t.len() - j,
{
    if j < t.len() && !ends_expression(t[j], term) {
        lemma_collect_bounds(t, j + 1, term);
    }
}

/// A region declaration ends after its name and within the tokens.
pub proof fn lemma_region_advances(t: Seq<TokenView>, i: int, rs: Seq<RegionView>)
    requires
        0 <= i < t.len(),
    ensures
        region_spec(t, i, rs) matches Ok((_, k)) ==> i < k <= t.len(),
{
    if i + 1 < t.len() && t[i + 1] is LeftParen {
        lemma_attributes_end_bounds(t, i + 2, 1);
    }
    let after_attributes = if i + 1 < t.len() && t[i + 1] is LeftParen {
        attributes_end(t, i + 2, 1)
    } else {
        Some(i + 1)
    };
    if let Some(p) = after_attributes {
        if p < t.len() && t[p] is Colon {
            if p + 3 <= t.len() {
                lemma_collect_bounds(t, p + 3, Terminator::Comma);
            }
            if let Ok((_, _, q)) = assignment_spec(t, p + 1, rs, Terminator::Comma) {
                if q < t.len() && t[q] is Comma {
                    if q + 3 <= t.len() {
                        lemma_collect_bounds(t, q + 3, Terminator::LineEnd);
                    }
                    if let Ok((_, _, e)) = assignment_spec(t, q + 1, rs, Terminator::LineEnd) {
                        lemma_skip_newlines_bounds(t, e);
                    }
                }
            }
        }
    }
}

/// The regions of the block body from position `i` on, after the regions
/// `rs` declared before it, up to the closing `}`.
pub open spec fn block_body_spec(t: Seq<TokenView>, i: int, rs: Seq<RegionView>) -> Result<
    Seq<RegionView>,
    ParseError,
>
    decreases t.len() - i,
    via block_body_decreases
{
    if i < 0 || i > t.len() {
        Err(ParseError::NoClosingBrace)
    } else {
        let j = skip_newlines_spec(t, i);
        if j >= t.len() {
            Err(ParseError::NoClosingBrace)
        } else if t[j] is RightBrace {
            Ok(rs)
        } else if t[j] is Identifier {
            match region_spec(t, j, rs) {
                Ok((r, k)) => block_body_spec(t, k, rs.push(r)),
                Err(e) => Err(e),
            }
        } else {
            Err(ParseError::ExpectedRegionName)
        }
    }
}

#[via_fn]
proof fn block_body_decreases(t: Seq<TokenView>, i: int, rs: Seq<RegionView>) {
    if 0 <= i <= t.len() {
        lemma_skip_newlines_bounds(t, i);
        let j = skip_newlines_spec(t, i);
        if j < t.len() {
            lemma_region_advances(t, j, rs);
        }
    }
}

/// No token of `e` ends an assignment's expression or is a line break.
pub open spec fn plain_expression(e: Seq<TokenView>) -> bool {
    forall|k: int|
        0 <= k < e.len() ==> !(#[trigger] e[k] is Comma || e[k] is Newline || e[k] is RightBrace)
}

/// `name : ORIGIN = origin, LENGTH = length` and a line break.
pub open spec fn origin_first(name: Seq<char>, origin: Seq<TokenView>, length: Seq<TokenView>) -> Seq<
    TokenView,
> {
    seq![
        TokenView::Identifier(name),
        TokenView::Colon,
        TokenView::Identifier(origin_names().0),
        TokenView::Equals,
    ] + origin + seq![
        TokenView::Comma,
        TokenView::Identifier(length_names().0),
        TokenView::Equals,
    ] + length + seq![TokenView::Newline]
}

/// `name : LENGTH = length, ORIGIN = origin` and a line break.
pub open spec fn length_first(name: Seq<char>, origin: Seq<TokenView>, length: Seq<TokenView>) -> Seq<
    TokenView,
> {
    seq![
        TokenView::Identifier(name),
        TokenView::Colon,
        TokenView::Identifier(length_names().0),
        TokenView::Equals,
    ] + length + seq![
        TokenView::Comma,
        TokenView::Identifier(origin_names().0),
        TokenView::Equals,
    ] + origin + seq![TokenView::Newline]
}

/// Collecting a plain expression stops at the terminator right after it.
proof fn lemma_collect_plain(t: Seq<TokenView>, j: int, e: Seq<TokenView>, term: Terminator, m: int)
    requires
        0 <= j,
        0 <= m <= e.len(),
        j + e.len() < t.len(),
        t.subrange(j, j + e.len()) == e,
        plain_expression(e),
        ends_expression(t[j + e.len()], term),
    ensures
        collect_spec(t, j + m, term) == (e.skip(m), j + e.len()),
    decreases e.len() - m,
{
    if m == e.len() {
        assert(e.skip(m) =~= Seq::<TokenView>::empty());
    } else {
        lemma_collect_plain(t, j, e, term, m + 1);
        assert(t[j + m] == e[m]);
        assert(!(e[m] is Comma || e[m] is Newline || e[m] is RightBrace));
        assert(seq![e[m]] + e.skip(m + 1) =~= e.skip(m));
    }
}

proof fn lemma_keywords_differ()
    ensures
        !eq_ignore_ascii_case(length_names().0, origin_names().0),
        !eq_ignore_ascii_case(length_names().0, origin_names().1),
        eq_ignore_ascii_case(length_names().0, length_names().0),
        eq_ignore_ascii_case(origin_names().0, origin_names().0),
{
    assert(crate::text::ascii_lower(length_names().0[0]) != crate::text::ascii_lower(
        origin_names().0[0],
    ));
}

/// The order of the `ORIGIN` and `LENGTH` assignments of a region does not
/// matter: where both expressions evaluate, either order declares the same
/// region, and the declaration ends at the same place.
#[verifier::spinoff_prover]
#[verifier::rlimit(40)]
pub proof fn law_assignment_order_does_not_matter(
    name: Seq<char>,
    origin: Seq<TokenView>,
    length: Seq<TokenView>,
    rs: Seq<RegionView>,
    start: u64,
    size: u64,
)
    requires
        plain_expression(origin),
        plain_expression(length),
        evaluate_spec(origin, rs) == Ok::<u64, EvaluateError>(start),
        evaluate_spec(length, rs) == Ok::<u64, EvaluateError>(size),
    ensures
        region_spec(origin_first(name, origin, length), 0, rs) == Ok::<
            (RegionView, int),
            ParseError,
        >((RegionView { name, start, length: size }, origin_first(name, origin, length).len() as int)),
        region_spec(length_first(name, origin, length), 0, rs) == Ok::<
            (RegionView, int),
            ParseError,
        >((RegionView { name, start, length: size }, length_first(name, origin, length).len() as int)),
{
    lemma_keywords_differ();
    let a = origin.len() as int;
    let b = length.len() as int;
    let t1 = origin_first(name, origin, length);
    let t2 = length_first(name, origin, length);
    // ORIGIN first.
    assert(t1[0] == TokenView::Identifier(name) && t1[1] == TokenView::Colon);
    assert(t1[2] == TokenView::Identifier(origin_names().0) && t1[3] == TokenView::Equals);
    assert(t1.subrange(4, 4 + a) =~= origin);
    assert(t1[4 + a] == TokenView::Comma);
    lemma_collect_plain(t1, 4, origin, Terminator::Comma, 0);
    assert(origin.skip(0) =~= origin);
    assert(t1[5 + a] == TokenView::Identifier(length_names().0) && t1[6 + a] == TokenView::Equals);
    assert(t1.subrange(7 + a, 7 + a + b) =~= length);
    assert(t1[7 + a + b] == TokenView::Newline);
    lemma_collect_plain(t1, 7 + a, length, Terminator::LineEnd, 0);
    assert(length.skip(0) =~= length);
    assert(assignment_spec(t1, 2, rs, Terminator::Comma) == Ok::<
        (AssignmentKind, u64, int),
        ParseError,
    >((AssignmentKind::Origin, start, 4 + a)));
    assert(assignment_spec(t1, 5 + a, rs, Terminator::LineEnd) == Ok::<
        (AssignmentKind, u64, int),
        ParseError,
    >((AssignmentKind::Length, size, 7 + a + b)));
    assert(skip_newlines_spec(t1, 8 + a + b) == 8 + a + b);
    assert(skip_newlines_spec(t1, 7 + a + b) == 8 + a + b);
    // LENGTH first.
    assert(t2[0] == TokenView::Identifier(name) && t2[1] == TokenView::Colon);
    assert(t2[2] == TokenView::Identifier(length_names().0) && t2[3] == TokenView::Equals);
    assert(t2.subrange(4, 4 + b) =~= length);
    assert(t2[4 + b] == TokenView::Comma);
    lemma_collect_plain(t2, 4, length, Terminator::Comma, 0);
    assert(t2[5 + b] == TokenView::Identifier(origin_names().0) && t2[6 + b] == TokenView::Equals);
    assert(t2.subrange(7 + b, 7 + b + a) =~= origin);
    assert(t2[7 + b + a] == TokenView::Newline);
    lemma_collect_plain(t2, 7 + b, origin, Terminator::LineEnd, 0);
    assert(assignment_spec(t2, 2, rs, Terminator::Comma) == Ok::<
        (AssignmentKind, u64, int),
        ParseError,
    >((AssignmentKind::Length, size, 4 + b)));
    assert(assignment_spec(t2, 5 + b, rs, Terminator::LineEnd) == Ok::<
        (AssignmentKind, u64, int),
        ParseError,
    >((AssignmentKind::Origin, start, 7 + b + a)));
    assert(skip_newlines_spec(t2, 8 + a + b) == 8 + a + b);
    assert(skip_newlines_spec(t2, 7 + a + b) == 8 + a + b);
}

// ---------------------------------------------------------------------------
// Tokens after the block
// ---------------------------------------------------------------------------

proof fn lemma_after_memory_extend(t: Seq<TokenView>, u: Seq<TokenView>, i: int)
    requires
        0 <= i,
        after_memory_keyword(t, i) is Some,
    ensures
        after_memory_keyword(t + u, i) == after_memory_keyword(t, i),
    decreases t.len() - i,
{
    if i < t.len() {
        assert((t + u)[i] == t[i]);
        if !(t[i] matches TokenView::Identifier(name) && eq_ignore_ascii_case(
            name,
            memory_keyword(),
        )) {
            lemma_after_memory_extend(t, u, i + 1);
        }
    }
}

proof fn lemma_skip_newlines_extend(t: Seq<TokenView>, u: Seq<TokenView>, i: int)
    requires
        0 <= i,
        skip_newlines_spec(t, i) < t.len(),
    ensures
        skip_newlines_spec(t + u, i) == skip_newlines_spec(t, i),
    decreases t.len() - i,
{
    if i < t.len() {
        assert((t + u)[i] == t[i]);
        if t[i] is Newline {
            lemma_skip_newlines_extend(t, u, i + 1);
        }
    }
}

proof fn lemma_attributes_end_extend(t: Seq<TokenView>, u: Seq<TokenView>, j: int, depth: nat)
    requires
        0 <= j,
        attributes_end(t, j, depth) is Some,
    ensures
        attributes_end(t + u, j, depth) == attributes_end(t, j, depth),
    decreases t.len() - j,
{
    if j < t.len() {
        assert((t + u)[j] == t[j]);
        if t[j] is LeftParen {
            lemma_attributes_end_extend(t, u, j + 1, depth + 1);
        } else if t[j] is RightParen {
            if depth > 1 {
                lemma_attributes_end_extend(t, u, j + 1, (depth - 1) as nat);
            }
        } else {
            lemma_attributes_end_extend(t, u, j + 1, depth);
        }
    }
}

proof fn lemma_collect_extend(t: Seq<TokenView>, u: Seq<TokenView>, j: int, term: Terminator)
    requires
        0 <= j,
        collect_spec(t, j, term).1 < t.len(),
    ensures
        collect_spec(t + u, j, term) == collect_spec(t, j, term),
    decreases t.len() - j,
{
    if j < t.len() {
        assert((t + u)[j] == t[j]);
        if !ends_expression(t[j], term) {
            lemma_collect_extend(t, u, j + 1, term);
        }
    }
}

proof fn lemma_assignment_extend(
    t: Seq<TokenView>,
    u: Seq<TokenView>,
    i: int,
    rs: Seq<RegionView>,
    term: Terminator,
)
    requires
        0 <= i,
        assignment_spec(t, i, rs, term) matches Ok((_, _, k)) && k < t.len(),
    ensures
        assignment_spec(t + u, i, rs, term) == assignment_spec(t, i, rs, term),
{
    let v = t + u;
    assert(v[i] == t[i]);
    assert(v[i + 1] == t[i + 1]);
    lemma_collect_extend(t, u, i + 2, term);
}

proof fn lemma_region_extend(t: Seq<TokenView>, u: Seq<TokenView>, i: int, rs: Seq<RegionView>)
    requires
        0 <= i < t.len(),
        region_spec(t, i, rs) matches Ok((_, k)) && k < t.len(),
    ensures
        region_spec(t + u, i, rs) == region_spec(t, i, rs),
{
    let v = t + u;
    assert(v[i] == t[i]);
    if i + 1 < t.len() {
        assert(v[i + 1] == t[i + 1]);
    }
    if i + 1 < t.len() && t[i + 1] is LeftParen {
        lemma_attributes_end_extend(t, u, i + 2, 1);
        lemma_attributes_end_bounds(t, i + 2, 1);
    }
    let after_attributes = if i + 1 < t.len() && t[i + 1] is LeftParen {
        attributes_end(t, i + 2, 1)
    } else {
        Some(i + 1)
    };
    let p = after_attributes->Some_0;
    assert(p < t.len() && t[p] is Colon);
    assert(v[p] == t[p]);
    let first = assignment_spec(t, p + 1, rs, Terminator::Comma);
    assert(first is Ok);
    if p + 3 <= t.len() {
        lemma_collect_bounds(t, p + 3, Terminator::Comma);
    }
    let (_, _, q) = first->Ok_0;
    assert(q < t.len() && t[q] is Comma);
    lemma_assignment_extend(t, u, p + 1, rs, Terminator::Comma);
    assert(v[q] == t[q]);
    let second = assignment_spec(t, q + 1, rs, Terminator::LineEnd);
    assert(second is Ok);
    let (_, _, e) = second->Ok_0;
    if q + 3 <= t.len() {
        lemma_collect_bounds(t, q + 3, Terminator::LineEnd);
    }
    if e <= t.len() {
        lemma_skip_newlines_bounds(t, e);
    }
    assert(e < t.len());
    lemma_assignment_extend(t, u, q + 1, rs, Terminator::LineEnd);
    lemma_skip_newlines_extend(t, u, e);
}

proof fn lemma_block_body_extend(t: Seq<TokenView>, u: Seq<TokenView>, i: int, rs: Seq<RegionView>)
    requires
        block_body_spec(t, i, rs) is Ok,
    ensures
        block_body_spec(t + u, i, rs) == block_body_spec(t, i, rs),
    decreases t.len() - i,
{
    let v = t + u;
    assert(0 <= i <= t.len());
    lemma_skip_newlines_bounds(t, i);
    let j = skip_newlines_spec(t, i);
    assert(j < t.len());
    lemma_skip_newlines_extend(t, u, i);
    assert(v[j] == t[j]);
    if t[j] is Identifier {
        lemma_region_advances(t, j, rs);
        let (r, k) = region_spec(t, j, rs)->Ok_0;
        assert(block_body_spec(t, k, rs.push(r)) is Ok);
        lemma_skip_newlines_bounds(t, k);
        assert(skip_newlines_spec(t, k) < t.len());
        lemma_region_extend(t, u, j, rs);
        lemma_block_body_extend(t, u, k, rs.push(r));
    }
}

proof fn lemma_after_memory_bounds(t: Seq<TokenView>, i: int)
    requires
        0 <= i,
    ensures
        after_memory_keyword(t, i) matches Some(k) ==> i < k <= t.len(),
    decreases t.len() - i,
{
    if i < t.len() {
        lemma_after_memory_bounds(t, i + 1);
    }
}

/// Tokens after a `MEMORY { .. }` block that parses do not change its regions.
pub proof fn lemma_parse_tokens_extend(t: Seq<TokenView>, u: Seq<TokenView>)
    requires
        parse_tokens_spec(t) is Ok,
    ensures
        parse_tokens_spec(t + u) == parse_tokens_spec(t),
{
    let v = t + u;
    lemma_after_memory_extend(t, u, 0);
    lemma_after_memory_bounds(t, 0);
    let i = after_memory_keyword(t, 0)->Some_0;
    lemma_skip_newlines_bounds(t, i);
    let j = skip_newlines_spec(t, i);
    assert(j < t.len());
    lemma_skip_newlines_extend(t, u, i);
    assert(v[j] == t[j]);
    lemma_block_body_extend(t, u, j + 1, Seq::empty());
}

/// Text after a `MEMORY { .. }` block that parses, from a new line on, does
/// not change its regions, whatever that text holds (a `SECTIONS` block that
/// the tokenizer refuses, say).
pub proof fn law_text_after_block_is_ignored(a: Seq<char>, x: Seq<char>)
    requires
        parse_spec(a) is Ok,
        joins_at_line_feed(a, x),
    ensures
        parse_spec(a + x) == parse_spec(a),
{
    lemma_lex_prefix_extend(a, x, 0);
    let t = lex_prefix(a).0;
    let t2 = lex_prefix(a + x).0;
    assert(t2 =~= t + t2.skip(t.len() as int));
    lemma_parse_tokens_extend(t, t2.skip(t.len() as int));
}

/// The regions of the `MEMORY { .. }` block of the token sequence `t`.
pub open spec fn parse_tokens_spec(t: Seq<TokenView>) -> Result<Seq<RegionView>, ParseError> {
    match after_memory_keyword(t, 0) {
        None => Err(ParseError::NoMemoryBlock),
        Some(i) => {
            let j = skip_newlines_spec(t, i);
            if j < t.len() && t[j] is LeftBrace {
                block_body_spec(t, j + 1, Seq::empty())
            } else {
                Err(ParseError::Expected(Delimiter::LeftBrace))
            }
        },
    }
}

/// The regions of the `MEMORY { .. }` block of the linker script text `s`.
///
/// The block is read from the tokens that come before the first text that
/// cannot be tokenized; so text after the block that the tokenizer refuses
/// (the statements of a `SECTIONS` block, say) does not change the result.
/// Where the block does not parse from those tokens, a tokenizing error is
/// reported before a parse error.
pub open spec fn parse_spec(s: Seq<char>) -> Result<Seq<RegionView>, ParseError> {
    let (t, stop) = lex_prefix(s);
    match parse_tokens_spec(t) {
        Ok(rs) => Ok(rs),
        Err(pe) => match stop {
            Some(e) => Err(ParseError::Tokenize(e)),
            None => Err(pe),
        },
    }
}


// ---------------------------------------------------------------------------
// Implementation
// ---------------------------------------------------------------------------

struct Parser {
    tokens: Vec<Token>,
    index: usize,
    regions: Vec<Region>,
}

/// Whether the identifier `name` matches one of the keywords, ASCII
/// case-insensitively.
fn is_keyword(name: &String, keyword: &[char]) -> (b: bool)
    ensures
        b == eq_ignore_ascii_case(name@, keyword@),
{
    let chars = chars_of(name.as_str());
    chars_eq_ignore_ascii_case(chars.as_slice(), keyword)
}

fn delimiter_matches(token: &Token, d: Delimiter) -> (b: bool)
    ensures
        b == is_delimiter(token@, d),
{
    match (token, d) {
        (Token::LeftBrace, Delimiter::LeftBrace) => true,
        (Token::LeftParen, Delimiter::LeftParen) => true,
        (Token::Colon, Delimiter::Colon) => true,
        (Token::Comma, Delimiter::Comma) => true,
        (Token::Equals, Delimiter::Equals) => true,
        _ => false,
    }
}

fn terminates(token: &Token, term: Terminator) -> (b: bool)
    ensures
        b == ends_expression(token@, term),
{
    match (token, term) {
        (Token::Comma, Terminator::Comma) => true,
        (Token::Newline, Terminator::LineEnd) => true,
        (Token::RightBrace, Terminator::LineEnd) => true,
        _ => false,
    }
}

impl Parser {
    spec fn toks(&self) -> Seq<TokenView> {
        tokens_view(self.tokens@)
    }

    spec fn regs(&self) -> Seq<RegionView> {
        regions_view(self.regions@)
    }

    /// Everything but the position and the regions is unchanged from `old`.
    spec fn same_tokens(&self, old: &Parser) -> bool {
        &&& self.tokens == old.tokens
        &&& self.index <= self.tokens@.len()
    }

    fn skip_newlines(&mut self)
        requires
            old(self).index <= old(self).tokens@.len(),
        ensures
            final(self).same_tokens(old(self)),
            final(self).regions == old(self).regions,
            final(self).index == skip_newlines_spec(old(self).toks(), old(self).index as int),
    {
        let ghost i0 = self.index as int;
        while self.index < self.tokens.len() && matches!(self.tokens[self.index], Token::Newline)
            invariant
                self.tokens == old(self).tokens,
                self.regions == old(self).regions,
                i0 == old(self).index,
                i0 <= self.index <= self.tokens@.len(),
                skip_newlines_spec(self.toks(), i0) == skip_newlines_spec(
                    self.toks(),
                    self.index as int,
                ),
            decreases self.tokens@.len() - self.index,
        {
            self.index = self.index + 1;
        }
    }

    fn expect_next(&mut self, expected: Delimiter) -> (res: Result<(), ParseError>)
        requires
            old(self).index <= old(self).tokens@.len(),
        ensures
            final(self).same_tokens(old(self)),
            final(self).regions == old(self).regions,
            ({
                let t = old(self).toks();
                let i = old(self).index as int;
                if i < t.len() && is_delimiter(t[i], expected) {
                    res is Ok && final(self).index == i + 1
                } else {
                    res == Err::<(), ParseError>(ParseError::Expected(expected))
                }
            }),
    {
        if self.index < self.tokens.len() && delimiter_matches(&self.tokens[self.index], expected) {
            self.index = self.index + 1;
            Ok(())
        } else {
            Err(ParseError::Expected(expected))
        }
    }

    /// Moves past the first identifier `MEMORY` (in any case).
    fn skip_until_memory(&mut self) -> (res: Result<(), ParseError>)
        requires
            old(self).index <= old(self).tokens@.len(),
        ensures
            final(self).same_tokens(old(self)),
            final(self).regions == old(self).regions,
            match after_memory_keyword(old(self).toks(), old(self).index as int) {
                Some(k) => res is Ok && final(self).index == k,
                None => res == Err::<(), ParseError>(ParseError::NoMemoryBlock),
            },
    {
        let ghost i0 = self.index as int;
        while self.index < self.tokens.len()
            invariant
                self.tokens == old(self).tokens,
                self.regions == old(self).regions,
                i0 == old(self).index,
                i0 <= self.index <= self.tokens@.len(),
                after_memory_keyword(self.toks(), i0) == after_memory_keyword(
                    self.toks(),
                    self.index as int,
                ),
            decreases self.tokens@.len() - self.index,
        {
            let found = match &self.tokens[self.index] {
                Token::Identifier(name) => is_keyword(name, &['M', 'E', 'M', 'O', 'R', 'Y']),
                _ => false,
            };
            proof {
                assert(seq!['M', 'E', 'M', 'O', 'R', 'Y'] =~= memory_keyword());
            }
            self.index = self.index + 1;
            if found {
                return Ok(());
            }
        }
        Err(ParseError::NoMemoryBlock)
    }

    /// Skips `( .. )` region attributes, nested parentheses included.
    fn skip_parenthesized_attributes(&mut self) -> (res: Result<(), ParseError>)
        requires
            old(self).index < old(self).tokens@.len(),
            old(self).toks()[old(self).index as int] is LeftParen,
        ensures
            final(self).same_tokens(old(self)),
            final(self).regions == old(self).regions,
            match attributes_end(old(self).toks(), old(self).index + 1, 1) {
                Some(k) => res is Ok && final(self).index == k,
                None => res == Err::<(), ParseError>(ParseError::UnclosedRegionAttributes),
            },
    {
        let ghost i0 = self.index as int;
        match self.expect_next(Delimiter::LeftParen) {
            Ok(()) => {},
            Err(e) => {
                return Err(e);
            },
        }
        let mut depth: usize = 1;
        while self.index < self.tokens.len()
            invariant
                self.tokens == old(self).tokens,
                self.regions == old(self).regions,
                i0 == old(self).index,
                i0 < self.index <= self.tokens@.len(),
                1 <= depth <= self.index - i0,
                attributes_end(self.toks(), i0 + 1, 1) == attributes_end(
                    self.toks(),
                    self.index as int,
                    depth as nat,
                ),
            decreases self.tokens@.len() - self.index,
        {
            let token = &self.tokens[self.index];
            self.index = self.index + 1;
            match token {
                Token::LeftParen => {
                    depth = depth + 1;
                },
                Token::RightParen => {
                    if depth <= 1 {
                        return Ok(());
                    }
                    depth = depth - 1;
                },
                _ => {},
            }
        }
        Err(ParseError::UnclosedRegionAttributes)
    }

    fn parse_assignment_kind(&mut self) -> (res: Result<AssignmentKind, ParseError>)
        requires
            old(self).index <= old(self).tokens@.len(),
        ensures
            final(self).same_tokens(old(self)),
            final(self).regions == old(self).regions,
            res == assignment_kind_spec(old(self).toks(), old(self).index as int),
            res is Ok ==> final(self).index == old(self).index + 1,
    {
        if self.index >= self.tokens.len() {
            return Err(ParseError::ExpectedAssignment);
        }
        let kind = match &self.tokens[self.index] {
            Token::Identifier(name) => {
                proof {
                    assert(seq!['O', 'R', 'I', 'G', 'I', 'N'] =~= origin_names().0);
                    assert(seq!['o', 'r', 'g'] =~= origin_names().1);
                    assert(seq!['L', 'E', 'N', 'G', 'T', 'H'] =~= length_names().0);
                    assert(seq!['l', 'e', 'n'] =~= length_names().1);
                }
                if is_keyword(name, &['O', 'R', 'I', 'G', 'I', 'N']) || is_keyword(
                    name,
                    &['o', 'r', 'g'],
                ) {
                    AssignmentKind::Origin
                } else if is_keyword(name, &['L', 'E', 'N', 'G', 'T', 'H']) || is_keyword(
                    name,
                    &['l', 'e', 'n'],
                ) {
                    AssignmentKind::Length
                } else {
                    return Err(ParseError::ExpectedAssignment);
                }
            },
            _ => {
                return Err(ParseError::ExpectedAssignment);
            },
        };
        self.index = self.index + 1;
        Ok(kind)
    }

    /// The tokens up to (not including) the terminator, line breaks left out.
    fn collect_expression_until(&mut self, term: Terminator) -> (expression: Vec<Token>)
        requires
            old(self).index <= old(self).tokens@.len(),
        ensures
            final(self).same_tokens(old(self)),
            final(self).regions == old(self).regions,
            (tokens_view(expression@), final(self).index as int) == collect_spec(
                old(self).toks(),
                old(self).index as int,
                term,
            ),
    {
        let ghost i0 = self.index as int;
        let mut expression: Vec<Token> = Vec::new();
        proof {
            assert(tokens_view(expression@) =~= Seq::<TokenView>::empty());
        }
        while self.index < self.tokens.len() && !terminates(&self.tokens[self.index], term)
            invariant
                self.tokens == old(self).tokens,
                self.regions == old(self).regions,
                i0 == old(self).index,
                i0 <= self.index <= self.tokens@.len(),
                collect_spec(self.toks(), i0, term) == ({
                    let (rest, k) = collect_spec(self.toks(), self.index as int, term);
                    (tokens_view(expression@) + rest, k)
                }),
            decreases self.tokens@.len() - self.index,
        {
            let ghost before = expression@;
            let ghost j = self.index as int;
            let token = self.tokens[self.index].duplicate();
            self.index = self.index + 1;
            proof {
                let (rest, k) = collect_spec(self.toks(), self.index as int, term);
                if self.toks()[j] is Newline {
                } else {
                    assert(tokens_view(before) + (seq![self.toks()[j]] + rest) =~= tokens_view(
                        before.push(token),
                    ) + rest);
                }
            }
            if !matches!(token, Token::Newline) {
                expression.push(token);
            }
        }
        proof {
            assert(tokens_view(expression@) + Seq::<TokenView>::empty() =~= tokens_view(
                expression@,
            ));
        }
        expression
    }

    /// `NAME = expression`, the expression ending at `term` (not consumed).
    fn parse_assignment(&mut self, term: Terminator) -> (res: Result<(AssignmentKind, u64), ParseError>)
        requires
            old(self).index <= old(self).tokens@.len(),
        ensures
            final(self).same_tokens(old(self)),
            final(self).regions == old(self).regions,
            match res {
                Ok((kind, value)) => assignment_spec(
                    old(self).toks(),
                    old(self).index as int,
                    old(self).regs(),
                    term,
                ) == Ok::<(AssignmentKind, u64, int), ParseError>(
                    (kind, value, final(self).index as int),
                ),
                Err(e) => assignment_spec(
                    old(self).toks(),
                    old(self).index as int,
                    old(self).regs(),
                    term,
                ) == Err::<(AssignmentKind, u64, int), ParseError>(e),
            },
    {
        let kind = match self.parse_assignment_kind() {
            Ok(k) => k,
            Err(e) => {
                return Err(e);
            },
        };
        match self.expect_next(Delimiter::Equals) {
            Ok(()) => {},
            Err(e) => {
                return Err(e);
            },
        }
        let expression = self.collect_expression_until(term);
        match evaluate_tokens(expression.as_slice(), self.regions.as_slice()) {
            Ok(value) => Ok((kind, value)),
            Err(e) => Err(ParseError::Expression(e)),
        }
    }

    /// `NAME = expression` ending at a line break or `}` (not consumed).
    fn parse_assignment_until_line_end(&mut self) -> (res: Result<(AssignmentKind, u64), ParseError>)
        requires
            old(self).index <= old(self).tokens@.len(),
        ensures
            final(self).same_tokens(old(self)),
            final(self).regions == old(self).regions,
            match res {
                Ok((kind, value)) => assignment_spec(
                    old(self).toks(),
                    old(self).index as int,
                    old(self).regs(),
                    Terminator::LineEnd,
                ) == Ok::<(AssignmentKind, u64, int), ParseError>(
                    (kind, value, final(self).index as int),
                ),
                Err(e) => assignment_spec(
                    old(self).toks(),
                    old(self).index as int,
                    old(self).regs(),
                    Terminator::LineEnd,
                ) == Err::<(AssignmentKind, u64, int), ParseError>(e),
            },
    {
        self.parse_assignment(Terminator::LineEnd)
    }

    /// The region declaration whose name is the current token; on success it
    /// is appended to the regions.
    fn parse_region(&mut self) -> (res: Result<(), ParseError>)
        requires
            old(self).index < old(self).tokens@.len(),
            old(self).toks()[old(self).index as int] is Identifier,
        ensures
            final(self).same_tokens(old(self)),
            match region_spec(old(self).toks(), old(self).index as int, old(self).regs()) {
                Ok((r, k)) => {
                    &&& res is Ok
                    &&& final(self).index == k
                    &&& final(self).regs() == old(self).regs().push(r)
                },
                Err(e) => {
                    &&& res == Err::<(), ParseError>(e)
                    &&& final(self).regions == old(self).regions
                },
            },
    {
        let count = self.tokens.len();
        let name = match &self.tokens[self.index] {
            Token::Identifier(name) => name.clone(),
            _ => {
                return Err(ParseError::ExpectedRegionName);
            },
        };
        self.index = self.index + 1;
        if self.index < count && matches!(self.tokens[self.index], Token::LeftParen) {
            match self.skip_parenthesized_attributes() {
                Ok(()) => {},
                Err(e) => {
                    return Err(e);
                },
            }
        }
        match self.expect_next(Delimiter::Colon) {
            Ok(()) => {},
            Err(e) => {
                return Err(e);
            },
        }
        let (first_kind, first_value) = match self.parse_assignment(Terminator::Comma) {
            Ok(a) => a,
            Err(e) => {
                return Err(e);
            },
        };
        match self.expect_next(Delimiter::Comma) {
            Ok(()) => {},
            Err(e) => {
                return Err(e);
            },
        }
        let (second_kind, second_value) = match self.parse_assignment_until_line_end() {
            Ok(a) => a,
            Err(e) => {
                return Err(e);
            },
        };
        let (start, length) = match (first_kind, second_kind) {
            (AssignmentKind::Origin, AssignmentKind::Length) => (first_value, second_value),
            (AssignmentKind::Length, AssignmentKind::Origin) => (second_value, first_value),
            _ => {
                return Err(ParseError::MissingOriginOrLength);
            },
        };
        let ghost before = self.regions@;
        self.regions.push(Region { name, start, length });
        proof {
            assert(regions_view(self.regions@) =~= regions_view(before).push(
                self.regions@.last()@,
            ));
        }
        self.skip_newlines();
        Ok(())
    }

    /// The `MEMORY { .. }` block: every region declaration up to the closing
    /// `}`.
    fn parse_memory_block(&mut self) -> (res: Result<(), ParseError>)
        requires
            old(self).index == 0,
            old(self).regions@.len() == 0,
        ensures
            match parse_tokens_spec(old(self).toks()) {
                Ok(rs) => res is Ok && final(self).regs() == rs,
                Err(e) => res == Err::<(), ParseError>(e),
            },
    {
        match self.skip_until_memory() {
            Ok(()) => {},
            Err(e) => {
                return Err(e);
            },
        }
        self.skip_newlines();
        match self.expect_next(Delimiter::LeftBrace) {
            Ok(()) => {},
            Err(e) => {
                return Err(e);
            },
        }
        let ghost t = self.toks();
        proof {
            assert(regions_view(self.regions@) =~= Seq::<RegionView>::empty());
        }
        loop
            invariant
                self.tokens == old(self).tokens,
                t == old(self).toks(),
                self.index <= self.tokens@.len(),
                parse_tokens_spec(t) == block_body_spec(t, self.index as int, self.regs()),
            decreases self.tokens@.len() - self.index,
        {
            let ghost i = self.index as int;
            proof {
                lemma_skip_newlines_bounds(t, i);
            }
            self.skip_newlines();
            if self.index >= self.tokens.len() {
                return Err(ParseError::NoClosingBrace);
            }
            match &self.tokens[self.index] {
                Token::RightBrace => {
                    self.index = self.index + 1;
                    return Ok(());
                },
                Token::Identifier(_) => {
                    proof {
                        lemma_region_advances(t, self.index as int, self.regs());
                    }
                    match self.parse_region() {
                        Ok(()) => {},
                        Err(e) => {
                            return Err(e);
                        },
                    }
                },
                _ => {
                    return Err(ParseError::ExpectedRegionName);
                },
            }
        }
    }
}

/// Parses the text of a `memory.x` linker script into its list of regions.
///
/// The result is exactly `parse_spec(source@)`: the regions of the first
/// `MEMORY { .. }` block in declaration order, each with the values of its
/// `ORIGIN` and `LENGTH` expressions evaluated against the regions before it;
/// or the first error. The block is read from the tokens before the first text
/// that cannot be tokenized, so such text after the block does not matter.
pub fn parse(source: &str) -> (res: Result<Vec<Region>, ParseError>)
    ensures
        match res {
            Ok(rs) => parse_spec(source@) == Ok::<Seq<RegionView>, ParseError>(regions_view(rs@)),
            Err(e) => parse_spec(source@) == Err::<Seq<RegionView>, ParseError>(e),
        },
{
    let (tokens, stop) = tokenize_prefix(source);
    let mut parser = Parser { tokens, index: 0, regions: Vec::new() };
    match parser.parse_memory_block() {
        Ok(()) => Ok(parser.regions),
        Err(e) => match stop {
            Some(t) => Err(ParseError::Tokenize(t)),
            None => Err(e),
        },
    }
}

} // verus!
