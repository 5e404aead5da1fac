//! Evaluator for `memory.x` numeric expressions.
//!
//! Evaluates expressions of the form used in `ORIGIN` and `LENGTH` values:
//!
//! - Hex literals (`0x1234ABCD`) and decimal literals
//! - `K` / `M` multiplier suffixes (`16K`, `2M`)
//! - `ORIGIN(NAME)` and `LENGTH(NAME)` references to already-resolved regions
//! - Binary `+` and `-` operators (left-to-right, equal precedence, wrapping)
//! - Parenthesised sub-expressions (`(ORIGIN(RAM) + LENGTH(RAM))`)
use vstd::prelude::*;

use super::tokenizer::{lex, tokenize, tokens_view, Token, TokenView, TokenizeError};
use super::{Region, RegionView};
use crate::text::{chars_eq_ignore_ascii_case, chars_of, eq_ignore_ascii_case};

verus! {

/// Why a token sequence is not a valid expression.
#[derive(Clone, Copy, Debug, PartialEq, Eq)]
pub enum EvaluateError {
    /// The expression has no token at all.
    EmptyExpression,
    /// An identifier other than `ORIGIN` or `LENGTH` where a value belongs.
    UnexpectedIdentifier,
    /// Another token, or the end, where a value belongs.
    ExpectedValue,
    /// Something other than `(` after `ORIGIN` or `LENGTH`.
    ExpectedLeftParen,
    /// Something other than `)` where one closes a parenthesis.
    ExpectedRightParen,
    /// Something other than an identifier inside `ORIGIN(..)` or `LENGTH(..)`.
    ExpectedRegionName,
    /// `ORIGIN(NAME)` or `LENGTH(NAME)` of a region not resolved yet.
    UnknownRegion,
    /// A token left over after a complete expression.
    TrailingToken,
}

/// Why the text of an expression could not be evaluated.
#[derive(Clone, Copy, Debug, PartialEq, Eq)]
pub enum ExpressionError {
    Tokenize(TokenizeError),
    Evaluate(EvaluateError),
}

/// The two fields of a region that an expression can refer to.
#[derive(Clone, Copy, Debug, PartialEq, Eq)]
pub enum RegionField {
    /// `ORIGIN(NAME)`: the start address.
    Start,
    /// `LENGTH(NAME)`: the length.
    Length,
}

/// A binary operator of an expression.
pub enum Operator {
    Plus,
    Minus,
}

// ---------------------------------------------------------------------------
// Specification
// ---------------------------------------------------------------------------

/// The views of a sequence of regions.
pub open spec fn regions_view(rs: Seq<Region>) -> Seq<RegionView> {
    rs.map_values(|r: Region| r@)
}

pub open spec fn origin_keyword() -> Seq<char> {
    seq!['O', 'R', 'I', 'G', 'I', 'N']
}

pub open spec fn length_keyword() -> Seq<char> {
    seq!['L', 'E', 'N', 'G', 'T', 'H']
}

/// `a + b` modulo 2^64.
pub open spec fn wrapping_add_spec(a: u64, b: u64) -> u64 {
    if a + b > u64::MAX {
        (a + b - 0x1_0000_0000_0000_0000) as u64
    } else {
        (a + b) as u64
    }
}

/// `a - b` modulo 2^64.
pub open spec fn wrapping_sub_spec(a: u64, b: u64) -> u64 {
    if a >= b {
        (a - b) as u64
    } else {
        (a - b + 0x1_0000_0000_0000_0000) as u64
    }
}

pub open spec fn field_value(r: RegionView, f: RegionField) -> u64 {
    match f {
        RegionField::Start => r.start,
        RegionField::Length => r.length,
    }
}

/// The index of the first region from `i` on whose name matches `name`
/// ASCII case-insensitively.
pub open spec fn find_region_from(name: Seq<char>, rs: Seq<RegionView>, i: int) -> Option<int>
    decreases rs.len() - i,
{
    if i < 0 || i >= rs.len() {
        None
    } else if eq_ignore_ascii_case(rs[i].name, name) {
        Some(i)
    } else {
        find_region_from(name, rs, i + 1)
    }
}

/// The index of the first region whose name matches `name` ASCII
/// case-insensitively.
pub open spec fn find_region(name: Seq<char>, rs: Seq<RegionView>) -> Option<int> {
    find_region_from(name, rs, 0)
}

/// `( NAME )` at position `j`, after `ORIGIN` or `LENGTH`: the field of the
/// named region and the position after `)`.
pub open spec fn region_reference_spec(
    t: Seq<TokenView>,
    j: int,
    rs: Seq<RegionView>,
    f: RegionField,
) -> Result<(u64, int), EvaluateError> {
    if !(0 <= j < t.len() && t[j] is LeftParen) {
        Err(EvaluateError::ExpectedLeftParen)
    } else if !(j + 1 < t.len() && t[j + 1] is Identifier) {
        Err(EvaluateError::ExpectedRegionName)
    } else if !(j + 2 < t.len() && t[j + 2] is RightParen) {
        Err(EvaluateError::ExpectedRightParen)
    } else {
        match find_region(t[j + 1]->Identifier_0, rs) {
            Some(k) => Ok((field_value(rs[k], f), j + 3)),
            None => Err(EvaluateError::UnknownRegion),
        }
    }
}

/// The value that starts at position `i` (a number, a region reference or a
/// parenthesised expression) and the position after it.
pub open spec fn value_spec(t: Seq<TokenView>, i: int, rs: Seq<RegionView>) -> Result<
    (u64, int),
    EvaluateError,
>
    decreases t.len() - i, 0int,
{
    if i < 0 || i >= t.len() {
        Err(EvaluateError::ExpectedValue)
    } else {
        match t[i] {
            TokenView::Number(v) => Ok((v, i + 1)),
            TokenView::Identifier(id) => {
                if eq_ignore_ascii_case(id, origin_keyword()) {
                    region_reference_spec(t, i + 1, rs, RegionField::Start)
                } else if eq_ignore_ascii_case(id, length_keyword()) {
                    region_reference_spec(t, i + 1, rs, RegionField::Length)
                } else {
                    Err(EvaluateError::UnexpectedIdentifier)
                }
            },
            TokenView::LeftParen => match expression_spec(t, i + 1, rs) {
                Ok((v, j)) => {
                    if 0 <= j < t.len() && t[j] is RightParen {
                        Ok((v, j + 1))
                    } else {
                        Err(EvaluateError::ExpectedRightParen)
                    }
                },
                Err(e) => Err(e),
            },
            _ => Err(EvaluateError::ExpectedValue),
        }
    }
}

/// The rest of an expression from position `k`, where `acc` is the value of
/// what came before: further `+ value` or `- value`, applied left to right.
/// (A value always ends after where it starts: see `lemma_value_advances`;
/// the bounds tested before each recursive use are for termination.)
pub open spec fn rest_spec(t: Seq<TokenView>, k: int, rs: Seq<RegionView>, acc: u64) -> Result<
    (u64, int),
    EvaluateError,
>
    decreases t.len() - k, 1int,
{
    if 0 <= k < t.len() && (t[k] is Plus || t[k] is Minus) {
        match value_spec(t, k + 1, rs) {
            Ok((v, j)) => {
                if k < j <= t.len() {
                    let next = if t[k] is Plus {
                        wrapping_add_spec(acc, v)
                    } else {
                        wrapping_sub_spec(acc, v)
                    };
                    rest_spec(t, j, rs, next)
                } else {
                    Err(EvaluateError::ExpectedValue)
                }
            },
            Err(e) => Err(e),
        }
    } else {
        Ok((acc, k))
    }
}

/// The expression that starts at position `i` and the position after it.
pub open spec fn expression_spec(t: Seq<TokenView>, i: int, rs: Seq<RegionView>) -> Result<
    (u64, int),
    EvaluateError,
>
    decreases t.len() - i, 2int,
{
    if i < 0 || i > t.len() {
        Err(EvaluateError::ExpectedValue)
    } else {
        match value_spec(t, i, rs) {
            Ok((v, j)) => {
                if i < j <= t.len() {
                    rest_spec(t, j, rs, v)
                } else {
                    Err(EvaluateError::ExpectedValue)
                }
            },
            Err(e) => Err(e),
        }
    }
}

/// The value of the whole token sequence `t` as one expression.
pub open spec fn evaluate_spec(t: Seq<TokenView>, rs: Seq<RegionView>) -> Result<u64, EvaluateError> {
    if t.len() == 0 {
        Err(EvaluateError::EmptyExpression)
    } else {
        match expression_spec(t, 0, rs) {
            Ok((v, j)) => {
                if j == t.len() {
                    Ok(v)
                } else {
                    Err(EvaluateError::TrailingToken)
                }
            },
            Err(e) => Err(e),
        }
    }
}

/// The value of the expression text `s`.
pub open spec fn evaluate_text_spec(s: Seq<char>, rs: Seq<RegionView>) -> Result<u64, ExpressionError> {
    match lex(s) {
        Ok(t) => match evaluate_spec(t, rs) {
            Ok(v) => Ok(v),
            Err(e) => Err(ExpressionError::Evaluate(e)),
        },
        Err(e) => Err(ExpressionError::Tokenize(e)),
    }
}

/// Values, rests and expressions end after where they start.
pub proof fn lemma_value_advances(t: Seq<TokenView>, i: int, rs: Seq<RegionView>)
    ensures
        value_spec(t, i, rs) matches Ok((_, j)) ==> 0 <= i < j <= t.len(),
        expression_spec(t, i, rs) matches Ok((_, j)) ==> 0 <= i < j <= t.len(),
    decreases t.len() - i,
{
    if 0 <= i < t.len() {
        if t[i] is LeftParen {
            lemma_value_advances(t, i + 1, rs);
        }
        lemma_rest_advances_value(t, i, rs);
    }
}

proof fn lemma_rest_advances_value(t: Seq<TokenView>, i: int, rs: Seq<RegionView>)
    requires
        0 <= i < t.len(),
    ensures
        expression_spec(t, i, rs) matches Ok((_, j)) ==> i < j <= t.len(),
{
    if let Ok((v, j)) = value_spec(t, i, rs) {
        if i < j <= t.len() {
            lemma_rest_advances(t, j, rs, v);
        }
    }
}

pub proof fn lemma_rest_advances(t: Seq<TokenView>, k: int, rs: Seq<RegionView>, acc: u64)
    requires
        0 <= k <= t.len(),
    ensures
        rest_spec(t, k, rs, acc) matches Ok((_, j)) ==> k <= j <= t.len(),
    decreases t.len() - k,
{
    if k < t.len() && (t[k] is Plus || t[k] is Minus) {
        if let Ok((v, j)) = value_spec(t, k + 1, rs) {
            if k < j <= t.len() {
                let next = if t[k] is Plus {
                    wrapping_add_spec(acc, v)
                } else {
                    wrapping_sub_spec(acc, v)
                };
                lemma_rest_advances(t, j, rs, next);
            }
        }
    }
}


// ---------------------------------------------------------------------------
// Laws
// ---------------------------------------------------------------------------

/// `ORIGIN(NAME)` and `LENGTH(NAME)` read back the start and length of the
/// region `NAME` refers to: the first region whose name matches it ASCII
/// case-insensitively. The keywords may be written in any case.
pub proof fn law_reference_reads_back_region(
    rs: Seq<RegionView>,
    k: int,
    name: Seq<char>,
    keyword: Seq<char>,
)
    requires
        0 <= k < rs.len(),
        find_region(name, rs) == Some(k),
    ensures
        eq_ignore_ascii_case(keyword, origin_keyword()) ==> evaluate_spec(
            seq![
                TokenView::Identifier(keyword),
                TokenView::LeftParen,
                TokenView::Identifier(name),
                TokenView::RightParen,
            ],
            rs,
        ) == Ok::<u64, EvaluateError>(rs[k].start),
        eq_ignore_ascii_case(keyword, length_keyword()) ==> evaluate_spec(
            seq![
                TokenView::Identifier(keyword),
                TokenView::LeftParen,
                TokenView::Identifier(name),
                TokenView::RightParen,
            ],
            rs,
        ) == Ok::<u64, EvaluateError>(rs[k].length),
{
    let t = seq![
        TokenView::Identifier(keyword),
        TokenView::LeftParen,
        TokenView::Identifier(name),
        TokenView::RightParen,
    ];
    assert(!eq_ignore_ascii_case(origin_keyword(), length_keyword())) by {
        assert(ascii_lower_of(origin_keyword()[0]) != ascii_lower_of(length_keyword()[0]));
    }
    if eq_ignore_ascii_case(keyword, length_keyword()) {
        lemma_eq_ignore_case_transitive(keyword, origin_keyword(), length_keyword());
    }
    assert(rest_spec(t, 4, rs, rs[k].start) == Ok::<(u64, int), EvaluateError>((rs[k].start, 4)));
    assert(rest_spec(t, 4, rs, rs[k].length) == Ok::<(u64, int), EvaluateError>((rs[k].length, 4)));
}

spec fn ascii_lower_of(c: char) -> char {
    crate::text::ascii_lower(c)
}

proof fn lemma_eq_ignore_case_transitive(a: Seq<char>, b: Seq<char>, c: Seq<char>)
    requires
        eq_ignore_ascii_case(a, c),
        !eq_ignore_ascii_case(b, c),
    ensures
        !eq_ignore_ascii_case(a, b),
{
    if eq_ignore_ascii_case(a, b) {
        assert forall|i: int| 0 <= i < b.len() implies #[trigger] crate::text::ascii_lower(b[i])
            == crate::text::ascii_lower(c[i]) by {
            assert(crate::text::ascii_lower(a[i]) == crate::text::ascii_lower(b[i]));
            assert(crate::text::ascii_lower(a[i]) == crate::text::ascii_lower(c[i]));
        }
    }
}

/// `+` and `-` have equal precedence and apply from left to right, with
/// wrapping arithmetic: `a - b - c` is `(a - b) - c`, `a - b + c` is
/// `(a - b) + c`, and so on.
pub proof fn law_operators_apply_left_to_right(
    a: u64,
    b: u64,
    c: u64,
    first_plus: bool,
    second_plus: bool,
    rs: Seq<RegionView>,
)
    ensures
        ({
            let op1 = if first_plus {
                TokenView::Plus
            } else {
                TokenView::Minus
            };
            let op2 = if second_plus {
                TokenView::Plus
            } else {
                TokenView::Minus
            };
            let ab = if first_plus {
                wrapping_add_spec(a, b)
            } else {
                wrapping_sub_spec(a, b)
            };
            let abc = if second_plus {
                wrapping_add_spec(ab, c)
            } else {
                wrapping_sub_spec(ab, c)
            };
            evaluate_spec(
                seq![TokenView::Number(a), op1, TokenView::Number(b), op2, TokenView::Number(c)],
                rs,
            ) == Ok::<u64, EvaluateError>(abc)
        }),
{
    let op1 = if first_plus {
        TokenView::Plus
    } else {
        TokenView::Minus
    };
    let op2 = if second_plus {
        TokenView::Plus
    } else {
        TokenView::Minus
    };
    let t = seq![TokenView::Number(a), op1, TokenView::Number(b), op2, TokenView::Number(c)];
    let ab = if first_plus {
        wrapping_add_spec(a, b)
    } else {
        wrapping_sub_spec(a, b)
    };
    let abc = if second_plus {
        wrapping_add_spec(ab, c)
    } else {
        wrapping_sub_spec(ab, c)
    };
    assert(rest_spec(t, 5, rs, abc) == Ok::<(u64, int), EvaluateError>((abc, 5)));
    assert(t[3] == op2 && t[1] == op1 && t[4] == TokenView::Number(c) && t[2] == TokenView::Number(b));
    assert(value_spec(t, 4, rs) == Ok::<(u64, int), EvaluateError>((c, 5)));
    assert(value_spec(t, 2, rs) == Ok::<(u64, int), EvaluateError>((b, 3)));
    assert(rest_spec(t, 3, rs, ab) == Ok::<(u64, int), EvaluateError>((abc, 5)));
    assert(rest_spec(t, 1, rs, a) == Ok::<(u64, int), EvaluateError>((abc, 5)));
}

/// A result with its position moved by `d`.
pub open spec fn shift_result(r: Result<(u64, int), EvaluateError>, d: int) -> Result<
    (u64, int),
    EvaluateError,
> {
    match r {
        Ok((v, j)) => Ok((v, j + d)),
        Err(e) => Err(e),
    }
}

proof fn lemma_reference_shift(p: Seq<TokenView>, u: Seq<TokenView>, j: int, rs: Seq<RegionView>, f: RegionField)
    requires
        0 <= j <= u.len(),
    ensures
        region_reference_spec(p + u, p.len() + j, rs, f) == shift_result(
            region_reference_spec(u, j, rs, f),
            p.len() as int,
        ),
{
    let q = p + u;
    let d = p.len() as int;
    if j < u.len() {
        assert(q[d + j] == u[j]);
    }
    if j + 1 < u.len() {
        assert(q[d + j + 1] == u[j + 1]);
    }
    if j + 2 < u.len() {
        assert(q[d + j + 2] == u[j + 2]);
    }
}

proof fn lemma_value_shift(p: Seq<TokenView>, u: Seq<TokenView>, i: int, rs: Seq<RegionView>)
    requires
        0 <= i <= u.len(),
    ensures
        value_spec(p + u, p.len() + i, rs) == shift_result(value_spec(u, i, rs), p.len() as int),
    decreases u.len() - i, 0int,
{
    let q = p + u;
    let d = p.len() as int;
    if i < u.len() {
        assert(q[d + i] == u[i]);
        match u[i] {
            TokenView::Identifier(_) => {
                lemma_reference_shift(p, u, i + 1, rs, RegionField::Start);
                lemma_reference_shift(p, u, i + 1, rs, RegionField::Length);
            },
            TokenView::LeftParen => {
                lemma_expression_shift(p, u, i + 1, rs);
                lemma_value_advances(u, i + 1, rs);
                if let Ok((v, j)) = expression_spec(u, i + 1, rs) {
                    if 0 <= j < u.len() {
                        assert(q[d + j] == u[j]);
                    }
                }
            },
            _ => {},
        }
    }
}

proof fn lemma_rest_shift(p: Seq<TokenView>, u: Seq<TokenView>, k: int, rs: Seq<RegionView>, acc: u64)
    requires
        0 <= k <= u.len(),
    ensures
        rest_spec(p + u, p.len() + k, rs, acc) == shift_result(
            rest_spec(u, k, rs, acc),
            p.len() as int,
        ),
    decreases u.len() - k, 1int,
{
    let q = p + u;
    let d = p.len() as int;
    if k < u.len() {
        assert(q[d + k] == u[k]);
        if u[k] is Plus || u[k] is Minus {
            lemma_value_shift(p, u, k + 1, rs);
            if let Ok((v, j)) = value_spec(u, k + 1, rs) {
                if k < j <= u.len() {
                    let next = if u[k] is Plus {
                        wrapping_add_spec(acc, v)
                    } else {
                        wrapping_sub_spec(acc, v)
                    };
                    lemma_rest_shift(p, u, j, rs, next);
                }
            }
        }
    }
}

proof fn lemma_expression_shift(p: Seq<TokenView>, u: Seq<TokenView>, i: int, rs: Seq<RegionView>)
    requires
        0 <= i <= u.len(),
    ensures
        expression_spec(p + u, p.len() + i, rs) == shift_result(
            expression_spec(u, i, rs),
            p.len() as int,
        ),
    decreases u.len() - i, 2int,
{
    lemma_value_shift(p, u, i, rs);
    if let Ok((v, j)) = value_spec(u, i, rs) {
        if i < j <= u.len() {
            lemma_rest_shift(p, u, j, rs, v);
        }
    }
}

proof fn lemma_value_extend(t: Seq<TokenView>, y: TokenView, i: int, rs: Seq<RegionView>)
    requires
        !(y is Plus || y is Minus),
        value_spec(t, i, rs) is Ok,
    ensures
        value_spec(t.push(y), i, rs) == value_spec(t, i, rs),
    decreases t.len() - i, 0int,
{
    let q = t.push(y);
    if 0 <= i < t.len() {
        assert(q[i] == t[i]);
        if i + 1 < t.len() {
            assert(q[i + 1] == t[i + 1]);
        }
        if i + 2 < t.len() {
            assert(q[i + 2] == t[i + 2]);
        }
        if i + 3 < t.len() {
            assert(q[i + 3] == t[i + 3]);
        }
        match t[i] {
            TokenView::LeftParen => {
                lemma_expression_extend(t, y, i + 1, rs);
                if let Ok((v, j)) = expression_spec(t, i + 1, rs) {
                    if 0 <= j < t.len() {
                        assert(q[j] == t[j]);
                    }
                }
            },
            _ => {},
        }
    }
}

proof fn lemma_rest_extend(t: Seq<TokenView>, y: TokenView, k: int, rs: Seq<RegionView>, acc: u64)
    requires
        !(y is Plus || y is Minus),
        0 <= k <= t.len(),
        rest_spec(t, k, rs, acc) is Ok,
    ensures
        rest_spec(t.push(y), k, rs, acc) == rest_spec(t, k, rs, acc),
    decreases t.len() - k, 1int,
{
    let q = t.push(y);
    if k < t.len() {
        assert(q[k] == t[k]);
        if t[k] is Plus || t[k] is Minus {
            lemma_value_extend(t, y, k + 1, rs);
            if let Ok((v, j)) = value_spec(t, k + 1, rs) {
                if k < j <= t.len() {
                    let next = if t[k] is Plus {
                        wrapping_add_spec(acc, v)
                    } else {
                        wrapping_sub_spec(acc, v)
                    };
                    lemma_rest_extend(t, y, j, rs, next);
                }
            }
        }
    } else {
        assert(q[k] == y);
    }
}

proof fn lemma_expression_extend(t: Seq<TokenView>, y: TokenView, i: int, rs: Seq<RegionView>)
    requires
        !(y is Plus || y is Minus),
        expression_spec(t, i, rs) is Ok,
    ensures
        expression_spec(t.push(y), i, rs) == expression_spec(t, i, rs),
    decreases t.len() - i, 2int,
{
    lemma_value_extend(t, y, i, rs);
    if let Ok((v, j)) = value_spec(t, i, rs) {
        if i < j <= t.len() {
            lemma_rest_extend(t, y, j, rs, v);
        }
    }
}

/// A parenthesised expression has the value of the expression inside.
pub proof fn law_parentheses_keep_the_value(t: Seq<TokenView>, rs: Seq<RegionView>, v: u64)
    requires
        evaluate_spec(t, rs) == Ok::<u64, EvaluateError>(v),
    ensures
        evaluate_spec(seq![TokenView::LeftParen] + t + seq![TokenView::RightParen], rs) == Ok::<
            u64,
            EvaluateError,
        >(v),
{
    let n = t.len() as int;
    let u = t.push(TokenView::RightParen);
    let p = seq![TokenView::LeftParen];
    let q = p + u;
    assert(seq![TokenView::LeftParen] + t + seq![TokenView::RightParen] =~= q);
    lemma_value_advances(t, 0, rs);
    lemma_expression_extend(t, TokenView::RightParen, 0, rs);
    lemma_expression_shift(p, u, 0, rs);
    assert(expression_spec(q, 1, rs) == Ok::<(u64, int), EvaluateError>((v, n + 1)));
    assert(q[0] == TokenView::LeftParen);
    assert(q[n + 1] == TokenView::RightParen);
    assert(value_spec(q, 0, rs) == Ok::<(u64, int), EvaluateError>((v, n + 2)));
    assert(rest_spec(q, n + 2, rs, v) == Ok::<(u64, int), EvaluateError>((v, n + 2)));
}

// ---------------------------------------------------------------------------
// Implementation
// ---------------------------------------------------------------------------

/// A recursive-descent evaluator over a token slice.
struct Parser<'a> {
    tokens: &'a [Token],
    index: usize,
    resolved: &'a [Region],
}

impl<'a> Parser<'a> {
    spec fn toks(&self) -> Seq<TokenView> {
        tokens_view(self.tokens@)
    }

    spec fn regions(&self) -> Seq<RegionView> {
        regions_view(self.resolved@)
    }

    /// The spec result of a step from `start`, read against where `self` now
    /// stands.
    spec fn agrees(&self, spec_result: Result<(u64, int), EvaluateError>, res: Result<u64, EvaluateError>) -> bool {
        match res {
            Ok(v) => spec_result == Ok::<(u64, int), EvaluateError>((v, self.index as int)),
            Err(e) => spec_result == Err::<(u64, int), EvaluateError>(e),
        }
    }

    fn peek(&self) -> (t: Option<&Token>)
        ensures
            self.index < self.tokens@.len() ==> t == Some(&self.tokens@[self.index as int]),
            self.index >= self.tokens@.len() ==> t is None,
    {
        if self.index < self.tokens.len() {
            Some(&self.tokens[self.index])
        } else {
            None
        }
    }

    fn next(&mut self) -> (t: Option<Token>)
        ensures
            final(self).tokens == old(self).tokens,
            final(self).resolved == old(self).resolved,
            old(self).index < old(self).tokens@.len() ==> {
                &&& t matches Some(tok) && tok@ == old(self).tokens@[old(self).index as int]@
                &&& final(self).index == old(self).index + 1
            },
            old(self).index >= old(self).tokens@.len() ==> t is None && final(self).index
                == old(self).index,
            old(self).index <= old(self).tokens@.len() ==> final(self).index
                <= final(self).tokens@.len(),
    {
        if self.index < self.tokens.len() {
            let t = self.tokens[self.index].duplicate();
            self.index = self.index + 1;
            Some(t)
        } else {
            None
        }
    }

    fn next_operator(&mut self) -> (op: Option<Operator>)
        requires
            old(self).index <= old(self).tokens@.len(),
        ensures
            final(self).tokens == old(self).tokens,
            final(self).resolved == old(self).resolved,
            ({
                let t = old(self).toks();
                let i = old(self).index as int;
                if i < t.len() && t[i] is Plus {
                    op matches Some(Operator::Plus) && final(self).index == i + 1
                } else if i < t.len() && t[i] is Minus {
                    op matches Some(Operator::Minus) && final(self).index == i + 1
                } else {
                    op is None && final(self).index == i
                }
            }),
    {
        if self.index >= self.tokens.len() {
            return None;
        }
        match &self.tokens[self.index] {
            Token::Plus => {
                self.index = self.index + 1;
                Some(Operator::Plus)
            },
            Token::Minus => {
                self.index = self.index + 1;
                Some(Operator::Minus)
            },
            _ => None,
        }
    }

    fn expect_left_paren(&mut self) -> (res: Result<(), EvaluateError>)
        requires
            old(self).index <= old(self).tokens@.len(),
        ensures
            final(self).index <= final(self).tokens@.len(),
            final(self).tokens == old(self).tokens,
            final(self).resolved == old(self).resolved,
            ({
                let t = old(self).toks();
                let i = old(self).index as int;
                if i < t.len() && t[i] is LeftParen {
                    res is Ok && final(self).index == i + 1
                } else {
                    res == Err::<(), EvaluateError>(EvaluateError::ExpectedLeftParen)
                }
            }),
    {
        match self.next() {
            Some(Token::LeftParen) => Ok(()),
            _ => Err(EvaluateError::ExpectedLeftParen),
        }
    }

    fn expect_right_paren(&mut self) -> (res: Result<(), EvaluateError>)
        requires
            old(self).index <= old(self).tokens@.len(),
        ensures
            final(self).index <= final(self).tokens@.len(),
            final(self).tokens == old(self).tokens,
            final(self).resolved == old(self).resolved,
            ({
                let t = old(self).toks();
                let i = old(self).index as int;
                if i < t.len() && t[i] is RightParen {
                    res is Ok && final(self).index == i + 1
                } else {
                    res == Err::<(), EvaluateError>(EvaluateError::ExpectedRightParen)
                }
            }),
    {
        match self.next() {
            Some(Token::RightParen) => Ok(()),
            _ => Err(EvaluateError::ExpectedRightParen),
        }
    }

    fn expect_end(&self) -> (res: Result<(), EvaluateError>)
        ensures
            res is Ok <==> self.index >= self.tokens@.len(),
            res is Err ==> res == Err::<(), EvaluateError>(EvaluateError::TrailingToken),
    {
        match self.peek() {
            None => Ok(()),
            Some(_) => Err(EvaluateError::TrailingToken),
        }
    }

    /// `( NAME )` after `ORIGIN` or `LENGTH`: the field of the named region.
    fn parse_region_reference(&mut self, field: RegionField) -> (res: Result<u64, EvaluateError>)
        requires
            old(self).index <= old(self).tokens@.len(),
        ensures
            final(self).index <= final(self).tokens@.len(),
            final(self).tokens == old(self).tokens,
            final(self).resolved == old(self).resolved,
            final(self).agrees(
                region_reference_spec(old(self).toks(), old(self).index as int, old(self).regions(), field),
                res,
            ),
    {
        let ghost start = self.index as int;
        if let Err(e) = self.expect_left_paren() {
            return Err(e);
        }
        let name = match self.next() {
            Some(Token::Identifier(name)) => name,
            _ => {
                return Err(EvaluateError::ExpectedRegionName);
            },
        };
        if let Err(e) = self.expect_right_paren() {
            return Err(e);
        }
        proof {
            assert(self.toks()[start + 1] == TokenView::Identifier(name@));
        }
        lookup(name.as_str(), self.resolved, field)
    }

    /// The value at the current position: a number, a region reference or a
    /// parenthesised expression.
    fn parse_value(&mut self) -> (res: Result<u64, EvaluateError>)
        requires
            old(self).index <= old(self).tokens@.len(),
        ensures
            final(self).tokens == old(self).tokens,
            final(self).resolved == old(self).resolved,
            final(self).agrees(value_spec(old(self).toks(), old(self).index as int, old(self).regions()), res),
            final(self).index <= final(self).tokens@.len(),
        decreases old(self).tokens@.len() - old(self).index, 0int,
    {
        let ghost start = self.index as int;
        match self.next() {
            Some(Token::Number(value)) => Ok(value),
            Some(Token::Identifier(name)) => {
                let chars = chars_of(name.as_str());
                if chars_eq_ignore_ascii_case(chars.as_slice(), &['O', 'R', 'I', 'G', 'I', 'N']) {
                    proof {
                        assert(seq!['O', 'R', 'I', 'G', 'I', 'N'] =~= origin_keyword());
                    }
                    self.parse_region_reference(RegionField::Start)
                } else if chars_eq_ignore_ascii_case(chars.as_slice(), &['L', 'E', 'N', 'G', 'T', 'H']) {
                    proof {
                        assert(seq!['L', 'E', 'N', 'G', 'T', 'H'] =~= length_keyword());
                    }
                    self.parse_region_reference(RegionField::Length)
                } else {
                    Err(EvaluateError::UnexpectedIdentifier)
                }
            },
            Some(Token::LeftParen) => {
                let value = match self.parse_expression() {
                    Ok(v) => v,
                    Err(e) => {
                        return Err(e);
                    },
                };
                match self.expect_right_paren() {
                    Ok(()) => Ok(value),
                    Err(e) => Err(e),
                }
            },
            _ => Err(EvaluateError::ExpectedValue),
        }
    }

    /// A value followed by any number of `+ value` / `- value`, applied left
    /// to right with wrapping arithmetic.
    fn parse_expression(&mut self) -> (res: Result<u64, EvaluateError>)
        requires
            old(self).index <= old(self).tokens@.len(),
        ensures
            final(self).tokens == old(self).tokens,
            final(self).resolved == old(self).resolved,
            final(self).agrees(
                expression_spec(old(self).toks(), old(self).index as int, old(self).regions()),
                res,
            ),
            final(self).index <= final(self).tokens@.len(),
        decreases old(self).tokens@.len() - old(self).index, 2int,
    {
        let ghost start = self.index as int;
        let ghost t = self.toks();
        let ghost rs = self.regions();
        proof {
            lemma_value_advances(t, start, rs);
        }
        let mut result = match self.parse_value() {
            Ok(v) => v,
            Err(e) => {
                return Err(e);
            },
        };
        loop
            invariant
                self.tokens == old(self).tokens,
                self.resolved == old(self).resolved,
                self.toks() == t,
                self.regions() == rs,
                start == old(self).index,
                t == old(self).toks(),
                rs == old(self).regions(),
                start < self.index <= self.tokens@.len(),
                expression_spec(t, start, rs) == rest_spec(t, self.index as int, rs, result),
            decreases self.tokens@.len() - self.index,
        {
            let ghost k = self.index as int;
            let op = self.next_operator();
            match op {
                None => {
                    return Ok(result);
                },
                Some(op) => {
                    proof {
                        lemma_value_advances(t, k + 1, rs);
                    }
                    let operand = match self.parse_value() {
                        Ok(v) => v,
                        Err(e) => {
                            return Err(e);
                        },
                    };
                    result = match op {
                        Operator::Plus => result.wrapping_add(operand),
                        Operator::Minus => result.wrapping_sub(operand),
                    };
                },
            }
        }
    }
}

/// The `field` of the first region in `resolved` whose name matches `name`
/// ASCII case-insensitively.
pub fn lookup(name: &str, resolved: &[Region], field: RegionField) -> (res: Result<u64, EvaluateError>)
    ensures
        res == match find_region(name@, regions_view(resolved@)) {
            Some(k) => Ok::<u64, EvaluateError>(field_value(regions_view(resolved@)[k], field)),
            None => Err(EvaluateError::UnknownRegion),
        },
{
    let ghost rs = regions_view(resolved@);
    let wanted = chars_of(name);
    let mut i: usize = 0;
    while i < resolved.len()
        invariant
            i <= resolved@.len(),
            rs == regions_view(resolved@),
            wanted@ == name@,
            find_region(name@, rs) == find_region_from(name@, rs, i as int),
        decreases resolved@.len() - i,
    {
        let region = &resolved[i];
        let candidate = chars_of(region.name.as_str());
        if chars_eq_ignore_ascii_case(candidate.as_slice(), wanted.as_slice()) {
            return Ok(
                match field {
                    RegionField::Start => region.start,
                    RegionField::Length => region.length,
                },
            );
        }
        i = i + 1;
    }
    Err(EvaluateError::UnknownRegion)
}

/// Evaluates a token sequence as one expression against the regions resolved
/// so far.
pub fn evaluate_tokens(tokens: &[Token], resolved: &[Region]) -> (res: Result<u64, EvaluateError>)
    ensures
        res == evaluate_spec(tokens_view(tokens@), regions_view(resolved@)),
{
    if tokens.len() == 0 {
        return Err(EvaluateError::EmptyExpression);
    }
    let mut parser = Parser { tokens, index: 0, resolved };
    let value = match parser.parse_expression() {
        Ok(v) => v,
        Err(e) => {
            return Err(e);
        },
    };
    match parser.expect_end() {
        Ok(()) => Ok(value),
        Err(e) => Err(e),
    }
}

/// Tokenizes and evaluates the expression text `expression` against the
/// regions resolved so far.
pub fn evaluate_expression(expression: &str, resolved: &[Region]) -> (res: Result<u64, ExpressionError>)
    ensures
        res == evaluate_text_spec(expression@, regions_view(resolved@)),
{
    let tokens = match tokenize(expression) {
        Ok(t) => t,
        Err(e) => {
            return Err(ExpressionError::Tokenize(e));
        },
    };
    match evaluate_tokens(tokens.as_slice(), resolved) {
        Ok(v) => Ok(v),
        Err(e) => Err(ExpressionError::Evaluate(e)),
    }
}

} // verus!
