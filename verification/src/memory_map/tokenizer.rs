//! Tokenizer for `memory.x` linker scripts and expressions.
//!
//! Splits source text into structural tokens. Horizontal whitespace is ignored,
//! while line breaks are kept as [`Token::Newline`]. Comments (`// ..` and
//! `/* .. */`) produce no tokens, except one `Newline` for each line break
//! inside a block comment.
use vstd::prelude::*;

use crate::arith::{saturating_mul, saturating_mul_spec};
use crate::text::{
    ascii_alpha, ascii_dec_digit, ascii_hex_digit, chars_of, is_ascii_alpha, is_ascii_dec_digit,
    is_ascii_hex_digit, is_white_space, string_from_chars, white_space,
};

verus! {

/// A single unit produced by the tokenizer.
#[derive(Clone, Debug, PartialEq, Eq)]
pub enum Token {
    /// A numeric literal, with any `K` / `M` suffix applied.
    Number(u64),
    /// An identifier, such as `ORIGIN`, `LENGTH`, or a region name.
    Identifier(String),
    /// A binary `+` operator.
    Plus,
    /// A binary `-` operator.
    Minus,
    /// A `(` delimiter.
    LeftParen,
    /// A `)` delimiter.
    RightParen,
    /// A `{` delimiter.
    LeftBrace,
    /// A `}` delimiter.
    RightBrace,
    /// A `:` delimiter.
    Colon,
    /// A `,` delimiter.
    Comma,
    /// A `=` delimiter.
    Equals,
    /// A line boundary.
    Newline,
}

/// The abstract value of a [`Token`]: identifiers as character sequences.
pub enum TokenView {
    Number(u64),
    Identifier(Seq<char>),
    Plus,
    Minus,
    LeftParen,
    RightParen,
    LeftBrace,
    RightBrace,
    Colon,
    Comma,
    Equals,
    Newline,
}

impl View for Token {
    type V = TokenView;

    open spec fn view(&self) -> TokenView {
        match self {
            Token::Number(n) => TokenView::Number(*n),
            Token::Identifier(s) => TokenView::Identifier(s@),
            Token::Plus => TokenView::Plus,
            Token::Minus => TokenView::Minus,
            Token::LeftParen => TokenView::LeftParen,
            Token::RightParen => TokenView::RightParen,
            Token::LeftBrace => TokenView::LeftBrace,
            Token::RightBrace => TokenView::RightBrace,
            Token::Colon => TokenView::Colon,
            Token::Comma => TokenView::Comma,
            Token::Equals => TokenView::Equals,
            Token::Newline => TokenView::Newline,
        }
    }
}

impl Token {
    /// A copy of this token.
    pub fn duplicate(&self) -> (t: Token)
        ensures
            t@ == self@,
    {
        match self {
            Token::Number(n) => Token::Number(*n),
            Token::Identifier(s) => Token::Identifier(s.clone()),
            Token::Plus => Token::Plus,
            Token::Minus => Token::Minus,
            Token::LeftParen => Token::LeftParen,
            Token::RightParen => Token::RightParen,
            Token::LeftBrace => Token::LeftBrace,
            Token::RightBrace => Token::RightBrace,
            Token::Colon => Token::Colon,
            Token::Comma => Token::Comma,
            Token::Equals => Token::Equals,
            Token::Newline => Token::Newline,
        }
    }
}

/// The views of a sequence of tokens.
pub open spec fn tokens_view(ts: Seq<Token>) -> Seq<TokenView> {
    ts.map_values(|t: Token| t@)
}

/// Why a source text could not be tokenized.
#[derive(Clone, Copy, Debug, PartialEq, Eq)]
pub enum TokenizeError {
    /// A character that starts no token (a lone `/` among them).
    UnexpectedCharacter(char),
    /// `0x` or `0X` with no hexadecimal digit after it.
    MissingHexDigits,
    /// A numeric literal (before its suffix) above `u64::MAX`.
    NumberTooLarge,
    /// A `/*` comment without its closing `*/`.
    UnterminatedBlockComment,
}

// ---------------------------------------------------------------------------
// Specification
// ---------------------------------------------------------------------------

/// The runs of characters that the tokenizer scans over.
#[derive(Clone, Copy)]
pub enum Run {
    /// ASCII hexadecimal digits.
    Hex,
    /// ASCII decimal digits.
    Dec,
    /// ASCII letters, digits and `_`.
    Identifier,
    /// Spaces and tabs.
    Blank,
    /// Anything but `\n` and `\r`.
    RestOfLine,
}

pub open spec fn in_run(c: char, r: Run) -> bool {
    match r {
        Run::Hex => is_ascii_hex_digit(c),
        Run::Dec => is_ascii_dec_digit(c),
        Run::Identifier => is_ascii_alpha(c) || is_ascii_dec_digit(c) || c == '_',
        Run::Blank => c == ' ' || c == '\t',
        Run::RestOfLine => c != '\n' && c != '\r',
    }
}

/// The first position at or after `j` whose character is not in `r`
/// (or the end of `s`).
pub open spec fn scan(s: Seq<char>, j: int, r: Run) -> int
    decreases s.len() - j,
{
    if 0 <= j < s.len() && in_run(s[j], r) {
        scan(s, j + 1, r)
    } else {
        j
    }
}

pub open spec fn starts_identifier(c: char) -> bool {
    is_ascii_alpha(c) || c == '_'
}

/// The value of an ASCII digit (decimal or hexadecimal, either case).
pub open spec fn digit_value(c: char) -> nat {
    if '0' <= c <= '9' {
        (c as u32 - '0' as u32) as nat
    } else if 'a' <= c <= 'f' {
        (c as u32 - 'a' as u32 + 10) as nat
    } else {
        (c as u32 - 'A' as u32 + 10) as nat
    }
}

/// The number that the digit sequence `d` writes in base `base`.
pub open spec fn digits_value(d: Seq<char>, base: nat) -> nat
    decreases d.len(),
{
    if d.len() == 0 {
        0
    } else {
        digits_value(d.drop_last(), base) * base + digit_value(d.last())
    }
}

/// Skips spaces and tabs after a literal, then applies a `k`/`K` (times
/// 1024) or `m`/`M` (times 1024 * 1024) suffix, saturating at `u64::MAX`.
/// Gives the value and the position after what was consumed.
pub open spec fn apply_suffix_spec(s: Seq<char>, v: u64, k: int) -> (u64, int) {
    let m = scan(s, k, Run::Blank);
    if m < s.len() && (s[m] == 'k' || s[m] == 'K') {
        (saturating_mul_spec(v, 1024), m + 1)
    } else if m < s.len() && (s[m] == 'm' || s[m] == 'M') {
        (saturating_mul_spec(saturating_mul_spec(v, 1024), 1024), m + 1)
    } else {
        (v, m)
    }
}

/// The numeric literal that starts with the digit at `i`: `0x`/`0X` and
/// hexadecimal digits, or decimal digits; then an optional suffix.
pub open spec fn number_spec(s: Seq<char>, i: int) -> Result<(u64, int), TokenizeError> {
    if s[i] == '0' && i + 1 < s.len() && (s[i + 1] == 'x' || s[i + 1] == 'X') {
        let k = scan(s, i + 2, Run::Hex);
        if k == i + 2 {
            Err(TokenizeError::MissingHexDigits)
        } else if digits_value(s.subrange(i + 2, k), 16) > u64::MAX {
            Err(TokenizeError::NumberTooLarge)
        } else {
            Ok(apply_suffix_spec(s, digits_value(s.subrange(i + 2, k), 16) as u64, k))
        }
    } else {
        let k = scan(s, i + 1, Run::Dec);
        if digits_value(s.subrange(i, k), 10) > u64::MAX {
            Err(TokenizeError::NumberTooLarge)
        } else {
            Ok(apply_suffix_spec(s, digits_value(s.subrange(i, k), 10) as u64, k))
        }
    }
}

/// The position after a line break that starts at `j` (`\r\n` counts as one).
pub open spec fn line_break_end(s: Seq<char>, j: int) -> int {
    let n = s.len();
    if s[j] == '\r' && j + 1 < n && s[j + 1] == '\n' {
        j + 2
    } else {
        j + 1
    }
}

/// The rest of a block comment from position `j` (`prev_star`: the character
/// before `j` was a `*` of the comment body): the `Newline` tokens of its line
/// breaks and the position after its closing `*/`.
pub open spec fn block_comment_spec(s: Seq<char>, j: int, prev_star: bool) -> Result<
    (Seq<TokenView>, int),
    TokenizeError,
>
    decreases s.len() - j,
{
    if j < 0 || j >= s.len() {
        Err(TokenizeError::UnterminatedBlockComment)
    } else if s[j] == '/' && prev_star {
        Ok((Seq::empty(), j + 1))
    } else if s[j] == '\n' || s[j] == '\r' {
        match block_comment_spec(s, line_break_end(s, j), false) {
            Ok((t, e)) => Ok((seq![TokenView::Newline] + t, e)),
            Err(err) => Err(err),
        }
    } else {
        block_comment_spec(s, j + 1, s[j] == '*')
    }
}

/// A `Newline` token for each line break of `s` from position `j` on
/// (`\r\n` counts as one).
pub open spec fn line_break_tokens(s: Seq<char>, j: int) -> Seq<TokenView>
    decreases s.len() - j,
{
    if j < 0 || j >= s.len() {
        Seq::empty()
    } else if s[j] == '\n' || s[j] == '\r' {
        seq![TokenView::Newline] + line_break_tokens(s, line_break_end(s, j))
    } else {
        line_break_tokens(s, j + 1)
    }
}

/// The single-character delimiters and operators.
pub open spec fn punctuation(c: char) -> Option<TokenView> {
    if c == '+' {
        Some(TokenView::Plus)
    } else if c == '-' {
        Some(TokenView::Minus)
    } else if c == '(' {
        Some(TokenView::LeftParen)
    } else if c == ')' {
        Some(TokenView::RightParen)
    } else if c == '{' {
        Some(TokenView::LeftBrace)
    } else if c == '}' {
        Some(TokenView::RightBrace)
    } else if c == ':' {
        Some(TokenView::Colon)
    } else if c == ',' {
        Some(TokenView::Comma)
    } else if c == '=' {
        Some(TokenView::Equals)
    } else {
        None
    }
}

/// One step of the tokenizer at position `i` (with `i < s.len()`): the tokens
/// it produces and the position where the next step starts.
pub open spec fn step_spec(s: Seq<char>, i: int) -> Result<(Seq<TokenView>, int), TokenizeError> {
    let c = s[i];
    if c == '\n' || c == '\r' {
        Ok((seq![TokenView::Newline], line_break_end(s, i)))
    } else if is_white_space(c) {
        Ok((Seq::empty(), i + 1))
    } else if c == '/' {
        if i + 1 < s.len() && s[i + 1] == '/' {
            Ok((Seq::empty(), scan(s, i + 2, Run::RestOfLine)))
        } else if i + 1 < s.len() && s[i + 1] == '*' {
            block_comment_spec(s, i + 2, false)
        } else {
            Err(TokenizeError::UnexpectedCharacter('/'))
        }
    } else if starts_identifier(c) {
        let k = scan(s, i, Run::Identifier);
        Ok((seq![TokenView::Identifier(s.subrange(i, k))], k))
    } else if punctuation(c) is Some {
        Ok((seq![punctuation(c)->0], i + 1))
    } else if is_ascii_dec_digit(c) {
        match number_spec(s, i) {
            Ok((v, k)) => Ok((seq![TokenView::Number(v)], k)),
            Err(e) => Err(e),
        }
    } else {
        Err(TokenizeError::UnexpectedCharacter(c))
    }
}

pub proof fn lemma_scan_bounds(s: Seq<char>, j: int, r: Run)
    requires
        0 <= j <= s.len(),
    ensures
        j <= scan(s, j, r) <= s.len(),
        forall|k: int| j <= k < scan(s, j, r) ==> in_run(#[trigger] s[k], r),
        scan(s, j, r) < s.len() ==> !in_run(s[scan(s, j, r)], r),
    decreases s.len() - j,
{
    if j < s.len() && in_run(s[j], r) {
        lemma_scan_bounds(s, j + 1, r);
    }
}

pub proof fn lemma_block_comment_advances(s: Seq<char>, j: int, prev_star: bool)
    requires
        0 <= j,
    ensures
        block_comment_spec(s, j, prev_star) matches Ok((_, e)) ==> j < e <= s.len(),
    decreases s.len() - j,
{
    if 0 <= j < s.len() {
        if s[j] == '/' && prev_star {
        } else if s[j] == '\n' || s[j] == '\r' {
            lemma_block_comment_advances(s, line_break_end(s, j), false);
        } else {
            lemma_block_comment_advances(s, j + 1, s[j] == '*');
        }
    }
}

/// Each step consumes at least one character and stays within the text.
pub proof fn lemma_step_advances(s: Seq<char>, i: int)
    requires
        0 <= i < s.len(),
    ensures
        step_spec(s, i) matches Ok((_, j)) ==> i < j <= s.len(),
{
    let c = s[i];
    if c == '/' {
        if i + 1 < s.len() && s[i + 1] == '/' {
            lemma_scan_bounds(s, i + 2, Run::RestOfLine);
        } else if i + 1 < s.len() && s[i + 1] == '*' {
            lemma_block_comment_advances(s, i + 2, false);
        }
    } else if starts_identifier(c) {
        lemma_scan_bounds(s, i, Run::Identifier);
    } else if is_ascii_dec_digit(c) {
        if s[i] == '0' && i + 1 < s.len() && (s[i + 1] == 'x' || s[i + 1] == 'X') {
            lemma_scan_bounds(s, i + 2, Run::Hex);
            let k = scan(s, i + 2, Run::Hex);
            lemma_scan_bounds(s, k, Run::Blank);
        } else {
            lemma_scan_bounds(s, i + 1, Run::Dec);
            let k = scan(s, i + 1, Run::Dec);
            lemma_scan_bounds(s, k, Run::Blank);
        }
    }
}

/// `t` put in front of the tokens of a successful result.
pub open spec fn prepend_tokens(t: Seq<TokenView>, r: Result<Seq<TokenView>, TokenizeError>) -> Result<
    Seq<TokenView>,
    TokenizeError,
> {
    match r {
        Ok(rest) => Ok(t + rest),
        Err(e) => Err(e),
    }
}

/// The tokens of `s` from position `i` on.
pub open spec fn lex_from(s: Seq<char>, i: int) -> Result<Seq<TokenView>, TokenizeError>
    decreases s.len() - i,
    via lex_from_decreases
{
    if i < 0 || i >= s.len() {
        Ok(Seq::empty())
    } else {
        match step_spec(s, i) {
            Ok((t, j)) => prepend_tokens(t, lex_from(s, j)),
            Err(e) => Err(e),
        }
    }
}

#[via_fn]
proof fn lex_from_decreases(s: Seq<char>, i: int) {
    if 0 <= i < s.len() {
        lemma_step_advances(s, i);
    }
}

/// The tokens of the whole text `s`.
pub open spec fn lex(s: Seq<char>) -> Result<Seq<TokenView>, TokenizeError> {
    lex_from(s, 0)
}


/// The tokens of `s` from position `i` up to the first step that fails, and
/// that step's error (`None` where no step fails).
pub open spec fn lex_prefix_from(s: Seq<char>, i: int) -> (Seq<TokenView>, Option<TokenizeError>)
    decreases s.len() - i,
    via lex_prefix_from_decreases
{
    if i < 0 || i >= s.len() {
        (Seq::empty(), None)
    } else {
        match step_spec(s, i) {
            Ok((t, j)) => {
                let rest = lex_prefix_from(s, j);
                (t + rest.0, rest.1)
            },
            Err(e) => (Seq::empty(), Some(e)),
        }
    }
}

#[via_fn]
proof fn lex_prefix_from_decreases(s: Seq<char>, i: int) {
    if 0 <= i < s.len() {
        lemma_step_advances(s, i);
    }
}

/// The tokens of the whole text `s` before its first tokenizing error, and
/// that error.
pub open spec fn lex_prefix(s: Seq<char>) -> (Seq<TokenView>, Option<TokenizeError>) {
    lex_prefix_from(s, 0)
}

/// `lex` fails exactly with the error that stops `lex_prefix`, and otherwise
/// gives its tokens.
pub proof fn lemma_lex_prefix_from(s: Seq<char>, i: int)
    ensures
        lex_from(s, i) == match lex_prefix_from(s, i) {
            (t, None) => Ok::<Seq<TokenView>, TokenizeError>(t),
            (_, Some(e)) => Err(e),
        },
    decreases s.len() - i,
{
    if 0 <= i < s.len() {
        lemma_step_advances(s, i);
        if let Ok((t, j)) = step_spec(s, i) {
            lemma_lex_prefix_from(s, j);
        }
    }
}

/// `t` put in front of the tokens of a successful step result.
pub open spec fn prepend_step(t: Seq<TokenView>, r: Result<(Seq<TokenView>, int), TokenizeError>) -> Result<
    (Seq<TokenView>, int),
    TokenizeError,
> {
    match r {
        Ok((rest, e)) => Ok((t + rest, e)),
        Err(err) => Err(err),
    }
}

pub proof fn lemma_digits_value_step(s: Seq<char>, a: int, k: int, base: nat)
    requires
        0 <= a <= k < s.len(),
    ensures
        digits_value(s.subrange(a, k + 1), base) == digits_value(s.subrange(a, k), base) * base
            + digit_value(s[k]),
{
    assert(s.subrange(a, k + 1).drop_last() =~= s.subrange(a, k));
}

pub proof fn lemma_digits_value_monotone(s: Seq<char>, a: int, k: int, m: int, base: nat)
    requires
        0 <= a <= k <= m <= s.len(),
        base >= 1,
    ensures
        digits_value(s.subrange(a, k), base) <= digits_value(s.subrange(a, m), base),
    decreases m - k,
{
    if k < m {
        lemma_digits_value_monotone(s, a, k, m - 1, base);
        lemma_digits_value_step(s, a, m - 1, base);
        let x = digits_value(s.subrange(a, m - 1), base);
        assert(x <= x * base) by (nonlinear_arith)
            requires
                base >= 1,
        ;
    }
}

// ---------------------------------------------------------------------------
// Laws
// ---------------------------------------------------------------------------

/// A step result with its positions moved by `d`.
pub open spec fn shift_step(r: Result<(Seq<TokenView>, int), TokenizeError>, d: int) -> Result<
    (Seq<TokenView>, int),
    TokenizeError,
> {
    match r {
        Ok((t, e)) => Ok((t, e + d)),
        Err(err) => Err(err),
    }
}

proof fn lemma_scan_shift(p: Seq<char>, s: Seq<char>, j: int, r: Run)
    requires
        0 <= j <= s.len(),
    ensures
        scan(p + s, p.len() + j, r) == p.len() + scan(s, j, r),
    decreases s.len() - j,
{
    if j < s.len() {
        assert((p + s)[p.len() + j] == s[j]);
        lemma_scan_shift(p, s, j + 1, r);
    }
}

proof fn lemma_block_comment_shift(p: Seq<char>, s: Seq<char>, j: int, prev_star: bool)
    requires
        0 <= j <= s.len(),
    ensures
        block_comment_spec(p + s, p.len() + j, prev_star) == shift_step(
            block_comment_spec(s, j, prev_star),
            p.len() as int,
        ),
    decreases s.len() - j,
{
    let q = p + s;
    let d = p.len() as int;
    if j < s.len() {
        assert(q[d + j] == s[j]);
        if j + 1 < s.len() {
            assert(q[d + j + 1] == s[j + 1]);
        }
        if s[j] == '/' && prev_star {
        } else if s[j] == '\n' || s[j] == '\r' {
            assert(line_break_end(q, d + j) == d + line_break_end(s, j));
            lemma_block_comment_shift(p, s, line_break_end(s, j), false);
        } else {
            lemma_block_comment_shift(p, s, j + 1, s[j] == '*');
        }
    }
}

proof fn lemma_number_shift(p: Seq<char>, s: Seq<char>, i: int)
    requires
        0 <= i < s.len(),
    ensures
        number_spec(p + s, p.len() + i) == match number_spec(s, i) {
            Ok((v, k)) => Ok::<(u64, int), TokenizeError>((v, k + p.len())),
            Err(e) => Err(e),
        },
{
    let q = p + s;
    let d = p.len() as int;
    assert(q[d + i] == s[i]);
    if i + 1 < s.len() {
        assert(q[d + i + 1] == s[i + 1]);
    }
    if s[i] == '0' && i + 1 < s.len() && (s[i + 1] == 'x' || s[i + 1] == 'X') {
        lemma_scan_bounds(s, i + 2, Run::Hex);
        lemma_scan_shift(p, s, i + 2, Run::Hex);
        let k = scan(s, i + 2, Run::Hex);
        assert(q.subrange(d + i + 2, d + k) =~= s.subrange(i + 2, k));
        lemma_scan_bounds(s, k, Run::Blank);
        lemma_scan_shift(p, s, k, Run::Blank);
        let m = scan(s, k, Run::Blank);
        if m < s.len() {
            assert(q[d + m] == s[m]);
        }
    } else {
        lemma_scan_bounds(s, i + 1, Run::Dec);
        lemma_scan_shift(p, s, i + 1, Run::Dec);
        let k = scan(s, i + 1, Run::Dec);
        assert(q.subrange(d + i, d + k) =~= s.subrange(i, k));
        lemma_scan_bounds(s, k, Run::Blank);
        lemma_scan_shift(p, s, k, Run::Blank);
        let m = scan(s, k, Run::Blank);
        if m < s.len() {
            assert(q[d + m] == s[m]);
        }
    }
}

/// A tokenizer step reads only the text from its position on.
proof fn lemma_step_shift(p: Seq<char>, s: Seq<char>, i: int)
    requires
        0 <= i < s.len(),
    ensures
        step_spec(p + s, p.len() + i) == shift_step(step_spec(s, i), p.len() as int),
{
    let q = p + s;
    let d = p.len() as int;
    assert(q[d + i] == s[i]);
    if i + 1 < s.len() {
        assert(q[d + i + 1] == s[i + 1]);
    }
    let c = s[i];
    if c == '\n' || c == '\r' {
        assert(line_break_end(q, d + i) == d + line_break_end(s, i));
    } else if is_white_space(c) {
    } else if c == '/' {
        if i + 1 < s.len() && s[i + 1] == '/' {
            lemma_scan_shift(p, s, i + 2, Run::RestOfLine);
        } else if i + 1 < s.len() && s[i + 1] == '*' {
            lemma_block_comment_shift(p, s, i + 2, false);
        }
    } else if starts_identifier(c) {
        lemma_scan_bounds(s, i, Run::Identifier);
        lemma_scan_shift(p, s, i, Run::Identifier);
        let k = scan(s, i, Run::Identifier);
        assert(q.subrange(d + i, d + k) =~= s.subrange(i, k));
    } else if punctuation(c) is Some {
    } else if is_ascii_dec_digit(c) {
        lemma_number_shift(p, s, i);
    }
}

/// Tokenizing reads only the text from the starting position on: the tokens
/// of `p + s` from `p.len() + i` are the tokens of `s` from `i`.
pub proof fn lemma_lex_shift(p: Seq<char>, s: Seq<char>, i: int)
    requires
        0 <= i <= s.len(),
    ensures
        lex_from(p + s, p.len() + i) == lex_from(s, i),
    decreases s.len() - i,
{
    if i < s.len() {
        lemma_step_shift(p, s, i);
        lemma_step_advances(s, i);
        if let Ok((t, j)) = step_spec(s, i) {
            lemma_lex_shift(p, s, j);
        }
    }
}

/// Horizontal white space in front of a text produces no token: the text
/// tokenizes the same with or without it.
pub proof fn law_leading_horizontal_space_is_ignored(c: char, s: Seq<char>)
    requires
        is_white_space(c),
        c != '\n',
        c != '\r',
    ensures
        lex(seq![c] + s) == lex(s),
{
    let q = seq![c] + s;
    assert(q[0] == c);
    assert(step_spec(q, 0) == Ok::<(Seq<TokenView>, int), TokenizeError>((Seq::empty(), 1)));
    lemma_lex_shift(seq![c], s, 0);
    match lex_from(s, 0) {
        Ok(r) => {
            assert(Seq::<TokenView>::empty() + r =~= r);
        },
        Err(_) => {},
    }
}

/// A line comment produces no token: `// comment` in front of a text that is
/// empty or starts a new line leaves its tokens unchanged.
pub proof fn law_line_comment_is_ignored(comment: Seq<char>, s: Seq<char>)
    requires
        forall|k: int| 0 <= k < comment.len() ==> in_run(#[trigger] comment[k], Run::RestOfLine),
        s.len() == 0 || s[0] == '\n' || s[0] == '\r',
    ensures
        lex(seq!['/', '/'] + comment + s) == lex(s),
{
    let p = seq!['/', '/'] + comment;
    let q = p + s;
    assert(seq!['/', '/'] + comment + s =~= q);
    assert(q[0] == '/' && q[1] == '/');
    assert(scan(q, 2, Run::RestOfLine) == p.len()) by {
        lemma_scan_through(q, 2, p.len() as int);
    }
    assert(step_spec(q, 0) == Ok::<(Seq<TokenView>, int), TokenizeError>((Seq::empty(), p.len() as int)));
    lemma_lex_shift(p, s, 0);
    if q.len() > 0 {
        match lex_from(s, 0) {
            Ok(r) => {
                assert(Seq::<TokenView>::empty() + r =~= r);
            },
            Err(_) => {},
        }
    }
}

/// `x` starts with a line feed, and `a` does not end with a carriage return
/// (which the line feed would join into one line break).
pub open spec fn joins_at_line_feed(a: Seq<char>, x: Seq<char>) -> bool {
    &&& x.len() > 0
    &&& x[0] == '\n'
    &&& (a.len() == 0 || a.last() != '\r')
}

proof fn lemma_scan_extend(a: Seq<char>, x: Seq<char>, j: int, r: Run)
    requires
        0 <= j <= a.len(),
        joins_at_line_feed(a, x),
    ensures
        scan(a + x, j, r) == scan(a, j, r),
    decreases a.len() - j,
{
    let q = a + x;
    if j < a.len() {
        assert(q[j] == a[j]);
        if in_run(a[j], r) {
            lemma_scan_extend(a, x, j + 1, r);
        }
    } else {
        assert(q[j] == '\n');
    }
}

proof fn lemma_line_break_end_extend(a: Seq<char>, x: Seq<char>, j: int)
    requires
        0 <= j < a.len(),
        joins_at_line_feed(a, x),
    ensures
        line_break_end(a + x, j) == line_break_end(a, j),
{
    let q = a + x;
    assert(q[j] == a[j]);
    if j + 1 < a.len() {
        assert(q[j + 1] == a[j + 1]);
    } else {
        assert(q[j + 1] == '\n');
        assert(a[j] == a.last());
    }
}

proof fn lemma_block_comment_extend(a: Seq<char>, x: Seq<char>, j: int, prev_star: bool)
    requires
        0 <= j,
        joins_at_line_feed(a, x),
        block_comment_spec(a, j, prev_star) is Ok,
    ensures
        block_comment_spec(a + x, j, prev_star) == block_comment_spec(a, j, prev_star),
    decreases a.len() - j,
{
    let q = a + x;
    if j < a.len() {
        assert(q[j] == a[j]);
        if a[j] == '/' && prev_star {
        } else if a[j] == '\n' || a[j] == '\r' {
            lemma_line_break_end_extend(a, x, j);
            lemma_block_comment_extend(a, x, line_break_end(a, j), false);
        } else {
            lemma_block_comment_extend(a, x, j + 1, a[j] == '*');
        }
    }
}

/// A block comment fails only for want of its closing `*/`.
proof fn lemma_block_comment_error(s: Seq<char>, j: int, prev_star: bool)
    ensures
        block_comment_spec(s, j, prev_star) is Err ==> block_comment_spec(s, j, prev_star)
            == Err::<(Seq<TokenView>, int), TokenizeError>(
            TokenizeError::UnterminatedBlockComment,
        ),
    decreases s.len() - j,
{
    if 0 <= j < s.len() {
        if s[j] == '/' && prev_star {
        } else if s[j] == '\n' || s[j] == '\r' {
            lemma_block_comment_error(s, line_break_end(s, j), false);
        } else {
            lemma_block_comment_error(s, j + 1, s[j] == '*');
        }
    }
}

proof fn lemma_number_extend(a: Seq<char>, x: Seq<char>, i: int)
    requires
        0 <= i < a.len(),
        joins_at_line_feed(a, x),
    ensures
        number_spec(a + x, i) == number_spec(a, i),
{
    let q = a + x;
    assert(q[i] == a[i]);
    if i + 1 < a.len() {
        assert(q[i + 1] == a[i + 1]);
    } else {
        assert(q[i + 1] == '\n');
    }
    if a[i] == '0' && i + 1 < a.len() && (a[i + 1] == 'x' || a[i + 1] == 'X') {
        lemma_scan_bounds(a, i + 2, Run::Hex);
        lemma_scan_extend(a, x, i + 2, Run::Hex);
        let k = scan(a, i + 2, Run::Hex);
        assert(q.subrange(i + 2, k) =~= a.subrange(i + 2, k));
        lemma_scan_bounds(a, k, Run::Blank);
        lemma_scan_extend(a, x, k, Run::Blank);
        let m = scan(a, k, Run::Blank);
        if m < a.len() {
            assert(q[m] == a[m]);
        } else {
            assert(q[m] == '\n');
        }
    } else {
        lemma_scan_bounds(a, i + 1, Run::Dec);
        lemma_scan_extend(a, x, i + 1, Run::Dec);
        let k = scan(a, i + 1, Run::Dec);
        assert(q.subrange(i, k) =~= a.subrange(i, k));
        lemma_scan_bounds(a, k, Run::Blank);
        lemma_scan_extend(a, x, k, Run::Blank);
        let m = scan(a, k, Run::Blank);
        if m < a.len() {
            assert(q[m] == a[m]);
        } else {
            assert(q[m] == '\n');
        }
    }
}

/// A step inside `a` reads the same in `a + x`, unless it runs into the end
/// of `a` inside a block comment.
proof fn lemma_step_extend(a: Seq<char>, x: Seq<char>, i: int)
    requires
        0 <= i < a.len(),
        joins_at_line_feed(a, x),
        step_spec(a, i) != Err::<(Seq<TokenView>, int), TokenizeError>(
            TokenizeError::UnterminatedBlockComment,
        ),
    ensures
        step_spec(a + x, i) == step_spec(a, i),
{
    let q = a + x;
    assert(q[i] == a[i]);
    if i + 1 < a.len() {
        assert(q[i + 1] == a[i + 1]);
    } else {
        assert(q[i + 1] == '\n');
    }
    let c = a[i];
    if c == '\n' || c == '\r' {
        lemma_line_break_end_extend(a, x, i);
    } else if is_white_space(c) {
    } else if c == '/' {
        if i + 1 < a.len() && a[i + 1] == '/' {
            lemma_scan_extend(a, x, i + 2, Run::RestOfLine);
        } else if i + 1 < a.len() && a[i + 1] == '*' {
            lemma_block_comment_error(a, i + 2, false);
            lemma_block_comment_extend(a, x, i + 2, false);
        }
    } else if starts_identifier(c) {
        lemma_scan_bounds(a, i, Run::Identifier);
        lemma_scan_extend(a, x, i, Run::Identifier);
        let k = scan(a, i, Run::Identifier);
        assert(q.subrange(i, k) =~= a.subrange(i, k));
    } else if punctuation(c) is Some {
    } else if is_ascii_dec_digit(c) {
        lemma_number_extend(a, x, i);
    }
}

/// Where `a` tokenizes from `i` on, `a + x` tokenizes from `i` on to the same
/// tokens followed by those of `a + x` from the end of `a`.
proof fn lemma_lex_extend(a: Seq<char>, x: Seq<char>, i: int)
    requires
        0 <= i <= a.len(),
        joins_at_line_feed(a, x),
        lex_from(a, i) is Ok,
    ensures
        lex_from(a + x, i) == prepend_tokens(lex_from(a, i)->Ok_0, lex_from(a + x, a.len() as int)),
    decreases a.len() - i,
{
    let q = a + x;
    if i == a.len() {
        match lex_from(q, i) {
            Ok(r) => {
                assert(Seq::<TokenView>::empty() + r =~= r);
            },
            Err(_) => {},
        }
    } else {
        lemma_step_advances(a, i);
        lemma_step_extend(a, x, i);
        let (t, j) = step_spec(a, i)->Ok_0;
        lemma_lex_extend(a, x, j);
        let rest = lex_from(a, j)->Ok_0;
        match lex_from(q, a.len() as int) {
            Ok(r) => {
                assert(t + (rest + r) =~= (t + rest) + r);
            },
            Err(_) => {},
        }
    }
}

/// The tokens that `a` gives before its first tokenizing error begin the
/// tokens that `a + x` gives before its own, where `x` starts a new line.
pub proof fn lemma_lex_prefix_extend(a: Seq<char>, x: Seq<char>, i: int)
    requires
        0 <= i <= a.len(),
        joins_at_line_feed(a, x),
    ensures
        lex_prefix_from(a, i).0.len() <= lex_prefix_from(a + x, i).0.len(),
        lex_prefix_from(a + x, i).0.subrange(0, lex_prefix_from(a, i).0.len() as int)
            == lex_prefix_from(a, i).0,
    decreases a.len() - i,
{
    let q = a + x;
    if i == a.len() {
        assert(lex_prefix_from(q, i).0.subrange(0, 0) =~= Seq::<TokenView>::empty());
    } else {
        lemma_step_advances(a, i);
        match step_spec(a, i) {
            Ok((t, j)) => {
                lemma_step_extend(a, x, i);
                lemma_lex_prefix_extend(a, x, j);
                let r = lex_prefix_from(a, j).0;
                let r2 = lex_prefix_from(q, j).0;
                assert((t + r2).subrange(0, (t + r).len() as int) =~= t + r);
            },
            Err(_) => {
                assert(lex_prefix_from(q, i).0.subrange(0, 0) =~= Seq::<TokenView>::empty());
            },
        }
    }
}

/// Two texts joined by a line feed tokenize to the tokens of the first, a
/// `Newline`, then the tokens of the second (where the first tokenizes and
/// does not end with a carriage return, which would join the line feed into
/// one line break).
pub proof fn law_line_feed_joins_tokens(a: Seq<char>, b: Seq<char>)
    requires
        lex(a) is Ok,
        a.len() == 0 || a.last() != '\r',
    ensures
        lex(a + seq!['\n'] + b) == prepend_tokens(lex(a)->Ok_0.push(TokenView::Newline), lex(b)),
{
    let x = seq!['\n'] + b;
    let q = a + x;
    assert(a + seq!['\n'] + b =~= q);
    let n = a.len() as int;
    assert(q[n] == '\n');
    lemma_lex_extend(a, x, 0);
    assert(step_spec(q, n) == Ok::<(Seq<TokenView>, int), TokenizeError>(
        (seq![TokenView::Newline], n + 1),
    ));
    let p = a + seq!['\n'];
    assert(q =~= p + b);
    lemma_lex_shift(p, b, 0);
    let ta = lex(a)->Ok_0;
    match lex(b) {
        Ok(tb) => {
            assert(ta + (seq![TokenView::Newline] + tb) =~= ta.push(TokenView::Newline) + tb);
        },
        Err(_) => {},
    }
}

/// `s` with the blank (space or tab) at `i` replaced by the blanks `w`.
pub open spec fn widen(s: Seq<char>, i: int, w: Seq<char>) -> Seq<char> {
    s.take(i) + w + s.skip(i + 1)
}

/// The blank at `i` of `s` may be replaced by the blanks `w`.
pub open spec fn widens(s: Seq<char>, i: int, w: Seq<char>) -> bool {
    &&& 0 <= i < s.len()
    &&& in_run(s[i], Run::Blank)
    &&& w.len() >= 1
    &&& forall|k: int| 0 <= k < w.len() ==> in_run(#[trigger] w[k], Run::Blank)
}

/// Where position `j` of `s` is in `widen(s, i, w)`.
pub open spec fn widened_at(i: int, w: Seq<char>, j: int) -> int {
    if j <= i {
        j
    } else {
        j + w.len() - 1
    }
}

/// A step result with its end moved to its place in `widen(s, i, w)`.
pub open spec fn widened_step(r: Result<(Seq<TokenView>, int), TokenizeError>, i: int, w: Seq<char>) -> Result<
    (Seq<TokenView>, int),
    TokenizeError,
> {
    match r {
        Ok((t, e)) => Ok((t, widened_at(i, w, e))),
        Err(err) => Err(err),
    }
}

proof fn lemma_widen_chars(s: Seq<char>, i: int, w: Seq<char>)
    requires
        widens(s, i, w),
    ensures
        widen(s, i, w).len() == s.len() + w.len() - 1,
        forall|j: int|
            0 <= j < s.len() && j != i ==> #[trigger] widen(s, i, w)[widened_at(i, w, j)] == s[j],
        forall|k: int| 0 <= k < w.len() ==> #[trigger] widen(s, i, w)[i + k] == w[k],
{
    let q = widen(s, i, w);
    assert forall|j: int| 0 <= j < s.len() && j != i implies #[trigger] q[widened_at(i, w, j)]
        == s[j] by {
        if j < i {
            assert(q[j] == s.take(i)[j]);
        } else {
            assert(q[j + w.len() - 1] == s.skip(i + 1)[j - i - 1]);
        }
    }
    assert forall|k: int| 0 <= k < w.len() implies #[trigger] q[i + k] == w[k] by {
        assert(q[i + k] == (s.take(i) + w)[i + k]);
    }
}

/// Blanks are all in a run or all out of it.
proof fn lemma_blank_runs(a: char, b: char, r: Run)
    requires
        in_run(a, Run::Blank),
        in_run(b, Run::Blank),
    ensures
        in_run(a, r) == in_run(b, r),
        is_white_space(a),
        !(a == '\n' || a == '\r' || a == '/' || a == '*'),
        !starts_identifier(a),
        !is_ascii_dec_digit(a),
        punctuation(a) is None,
{
}

proof fn lemma_scan_through_blanks(s: Seq<char>, i: int, w: Seq<char>, k: int, r: Run)
    requires
        widens(s, i, w),
        0 <= k <= w.len(),
        in_run(s[i], r),
    ensures
        scan(widen(s, i, w), i + k, r) == scan(widen(s, i, w), i + w.len(), r),
    decreases w.len() - k,
{
    lemma_widen_chars(s, i, w);
    if k < w.len() {
        lemma_blank_runs(s[i], w[k], r);
        assert(widen(s, i, w)[i + k] == w[k]);
        lemma_scan_through_blanks(s, i, w, k + 1, r);
    }
}

proof fn lemma_scan_widen(s: Seq<char>, i: int, w: Seq<char>, j: int, r: Run)
    requires
        widens(s, i, w),
        0 <= j <= s.len(),
    ensures
        scan(widen(s, i, w), widened_at(i, w, j), r) == widened_at(i, w, scan(s, j, r)),
    decreases s.len() - j,
{
    let q = widen(s, i, w);
    lemma_widen_chars(s, i, w);
    if j < s.len() && in_run(s[j], r) {
        lemma_scan_widen(s, i, w, j + 1, r);
        if j == i {
            lemma_scan_through_blanks(s, i, w, 0, r);
        } else {
            assert(q[widened_at(i, w, j)] == s[j]);
        }
    } else if j < s.len() {
        if j == i {
            lemma_blank_runs(s[i], w[0], r);
            assert(q[i + 0] == w[0]);
        } else {
            assert(q[widened_at(i, w, j)] == s[j]);
        }
    }
}

proof fn lemma_line_break_end_widen(s: Seq<char>, i: int, w: Seq<char>, j: int)
    requires
        widens(s, i, w),
        0 <= j < s.len(),
        s[j] == '\n' || s[j] == '\r',
    ensures
        line_break_end(widen(s, i, w), widened_at(i, w, j)) == widened_at(
            i,
            w,
            line_break_end(s, j),
        ),
{
    let q = widen(s, i, w);
    lemma_widen_chars(s, i, w);
    assert(j != i);
    assert(q[widened_at(i, w, j)] == s[j]);
    if j + 1 < s.len() {
        if j + 1 == i {
            assert(q[j + 1] == q[i + 0]);
        } else {
            assert(q[widened_at(i, w, j + 1)] == s[j + 1]);
        }
    }
}

proof fn lemma_block_comment_through_blanks(s: Seq<char>, i: int, w: Seq<char>, k: int, prev_star: bool)
    requires
        widens(s, i, w),
        0 <= k <= w.len(),
        k > 0 ==> !prev_star,
    ensures
        k > 0 ==> block_comment_spec(widen(s, i, w), i + k, prev_star) == block_comment_spec(
            widen(s, i, w),
            i + w.len(),
            false,
        ),
    decreases w.len() - k,
{
    lemma_widen_chars(s, i, w);
    if 0 < k < w.len() {
        lemma_blank_runs(w[k], w[k], Run::Blank);
        assert(widen(s, i, w)[i + k] == w[k]);
        lemma_block_comment_through_blanks(s, i, w, k + 1, false);
    }
}

proof fn lemma_block_comment_widen(s: Seq<char>, i: int, w: Seq<char>, j: int, prev_star: bool)
    requires
        widens(s, i, w),
        0 <= j <= s.len(),
    ensures
        block_comment_spec(widen(s, i, w), widened_at(i, w, j), prev_star) == widened_step(
            block_comment_spec(s, j, prev_star),
            i,
            w,
        ),
    decreases s.len() - j,
{
    let q = widen(s, i, w);
    lemma_widen_chars(s, i, w);
    if j < s.len() {
        if j == i {
            lemma_blank_runs(s[i], w[0], Run::Blank);
            assert(q[i + 0] == w[0]);
            lemma_blank_runs(w[0], w[0], Run::Blank);
            lemma_block_comment_through_blanks(s, i, w, 1, false);
            lemma_block_comment_widen(s, i, w, j + 1, false);
        } else {
            assert(q[widened_at(i, w, j)] == s[j]);
            if s[j] == '/' && prev_star {
            } else if s[j] == '\n' || s[j] == '\r' {
                lemma_line_break_end_widen(s, i, w, j);
                lemma_block_comment_widen(s, i, w, line_break_end(s, j), false);
                match block_comment_spec(s, line_break_end(s, j), false) {
                    Ok(_) => {},
                    Err(_) => {},
                }
            } else {
                assert(widened_at(i, w, j) + 1 == widened_at(i, w, j + 1));
                lemma_block_comment_widen(s, i, w, j + 1, s[j] == '*');
            }
        }
    } else {
        assert(widened_at(i, w, j) == q.len());
    }
}

/// The character after position `j` (`j != i`) reads the same in the
/// widened text, where there is one.
proof fn lemma_next_widen(s: Seq<char>, i: int, w: Seq<char>, j: int)
    requires
        widens(s, i, w),
        0 <= j < s.len(),
        j != i,
        j + 1 != i,
    ensures
        widened_at(i, w, j) + 1 == widened_at(i, w, j + 1),
        j + 1 < s.len() ==> widen(s, i, w)[widened_at(i, w, j) + 1] == s[j + 1],
        (j + 1 < s.len()) == (widened_at(i, w, j) + 1 < widen(s, i, w).len()),
{
    lemma_widen_chars(s, i, w);
    if j + 1 < s.len() {
        assert(widen(s, i, w)[widened_at(i, w, j + 1)] == s[j + 1]);
    }
}

proof fn lemma_number_widen(s: Seq<char>, i: int, w: Seq<char>, j: int)
    requires
        widens(s, i, w),
        0 <= j < s.len(),
        is_ascii_dec_digit(s[j]),
    ensures
        number_spec(widen(s, i, w), widened_at(i, w, j)) == match number_spec(s, j) {
            Ok((v, k)) => Ok::<(u64, int), TokenizeError>((v, widened_at(i, w, k))),
            Err(e) => Err(e),
        },
{
    let q = widen(s, i, w);
    let f = widened_at(i, w, j);
    lemma_widen_chars(s, i, w);
    lemma_blank_runs(s[i], s[i], Run::Blank);
    assert(j != i);
    assert(q[f] == s[j]);
    if j + 1 == i {
        assert(q[f + 1] == q[i + 0]);
        assert(q[i + 0] == w[0]);
        lemma_blank_runs(w[0], w[0], Run::Blank);
    } else {
        lemma_next_widen(s, i, w, j);
    }
    if s[j] == '0' && j + 1 < s.len() && (s[j + 1] == 'x' || s[j + 1] == 'X') {
        assert(j + 1 != i);
        lemma_scan_bounds(s, j + 2, Run::Hex);
        lemma_scan_widen(s, i, w, j + 2, Run::Hex);
        let k = scan(s, j + 2, Run::Hex);
        assert(!(j + 2 <= i < k));
        assert forall|m: int| j + 2 <= m < k implies #[trigger] q.subrange(
            widened_at(i, w, j + 2),
            widened_at(i, w, k),
        )[m - j - 2] == s.subrange(j + 2, k)[m - j - 2] by {
            assert(m != i);
            assert(widened_at(i, w, j + 2) + m - j - 2 == widened_at(i, w, m));
        }
        assert(q.subrange(widened_at(i, w, j + 2), widened_at(i, w, k)) =~= s.subrange(j + 2, k));
        assert(widened_at(i, w, j) + 2 == widened_at(i, w, j + 2));
        lemma_scan_bounds(s, k, Run::Blank);
        lemma_scan_widen(s, i, w, k, Run::Blank);
        let m = scan(s, k, Run::Blank);
        if m < s.len() {
            assert(m != i);
            assert(q[widened_at(i, w, m)] == s[m]);
        }
    } else {
        lemma_scan_bounds(s, j + 1, Run::Dec);
        if j + 1 == i {
            lemma_blank_runs(s[i], s[i], Run::Dec);
            assert(scan(s, j + 1, Run::Dec) == j + 1);
            lemma_blank_runs(w[0], w[0], Run::Dec);
            assert(scan(q, f + 1, Run::Dec) == f + 1);
            assert(widened_at(i, w, j + 1) == j + 1);
        } else {
            lemma_scan_widen(s, i, w, j + 1, Run::Dec);
        }
        let k = scan(s, j + 1, Run::Dec);
        assert(!(j <= i < k));
        assert forall|m: int| j <= m < k implies #[trigger] q.subrange(
            widened_at(i, w, j),
            widened_at(i, w, k),
        )[m - j] == s.subrange(j, k)[m - j] by {
            assert(m != i);
            assert(widened_at(i, w, j) + m - j == widened_at(i, w, m));
        }
        assert(q.subrange(widened_at(i, w, j), widened_at(i, w, k)) =~= s.subrange(j, k));
        lemma_scan_bounds(s, k, Run::Blank);
        lemma_scan_widen(s, i, w, k, Run::Blank);
        let m = scan(s, k, Run::Blank);
        if m < s.len() {
            assert(m != i);
            assert(q[widened_at(i, w, m)] == s[m]);
        }
    }
}

/// A step that starts anywhere but at the widened blank reads the same in
/// the widened text, its end moved along.
proof fn lemma_step_widen(s: Seq<char>, i: int, w: Seq<char>, j: int)
    requires
        widens(s, i, w),
        0 <= j < s.len(),
        j != i,
    ensures
        step_spec(widen(s, i, w), widened_at(i, w, j)) == widened_step(step_spec(s, j), i, w),
{
    let q = widen(s, i, w);
    let f = widened_at(i, w, j);
    lemma_widen_chars(s, i, w);
    lemma_blank_runs(s[i], s[i], Run::Blank);
    assert(q[f] == s[j]);
    let c = s[j];
    if j + 1 == i {
        assert(q[f + 1] == q[i + 0]);
        assert(q[i + 0] == w[0]);
        lemma_blank_runs(w[0], w[0], Run::Blank);
    } else {
        lemma_next_widen(s, i, w, j);
    }
    if c == '\n' || c == '\r' {
        lemma_line_break_end_widen(s, i, w, j);
    } else if is_white_space(c) {
        assert(f + 1 == widened_at(i, w, j + 1));
    } else if c == '/' {
        if j + 1 < s.len() && s[j + 1] == '/' {
            assert(f + 2 == widened_at(i, w, j + 2));
            lemma_scan_widen(s, i, w, j + 2, Run::RestOfLine);
        } else if j + 1 < s.len() && s[j + 1] == '*' {
            assert(f + 2 == widened_at(i, w, j + 2));
            lemma_block_comment_widen(s, i, w, j + 2, false);
        }
    } else if starts_identifier(c) {
        lemma_scan_bounds(s, j, Run::Identifier);
        lemma_scan_widen(s, i, w, j, Run::Identifier);
        let k = scan(s, j, Run::Identifier);
        assert(!(j <= i < k));
        assert forall|m: int| j <= m < k implies #[trigger] q.subrange(f, widened_at(i, w, k))[m
            - j] == s.subrange(j, k)[m - j] by {
            assert(m != i);
            assert(f + m - j == widened_at(i, w, m));
        }
        assert(q.subrange(f, widened_at(i, w, k)) =~= s.subrange(j, k));
    } else if punctuation(c) is Some {
        assert(f + 1 == widened_at(i, w, j + 1));
    } else if is_ascii_dec_digit(c) {
        lemma_number_widen(s, i, w, j);
    }
}

proof fn lemma_lex_through_blanks(s: Seq<char>, i: int, w: Seq<char>, k: int)
    requires
        widens(s, i, w),
        0 <= k <= w.len(),
    ensures
        lex_from(widen(s, i, w), i + k) == lex_from(widen(s, i, w), i + w.len()),
    decreases w.len() - k,
{
    let q = widen(s, i, w);
    lemma_widen_chars(s, i, w);
    if k < w.len() {
        lemma_blank_runs(w[k], w[k], Run::Blank);
        assert(q[i + k] == w[k]);
        lemma_lex_through_blanks(s, i, w, k + 1);
        match lex_from(q, i + k + 1) {
            Ok(r) => {
                assert(Seq::<TokenView>::empty() + r =~= r);
            },
            Err(_) => {},
        }
    }
}

proof fn lemma_lex_widen(s: Seq<char>, i: int, w: Seq<char>, j: int)
    requires
        widens(s, i, w),
        0 <= j <= s.len(),
    ensures
        lex_from(widen(s, i, w), widened_at(i, w, j)) == lex_from(s, j),
    decreases s.len() - j,
{
    let q = widen(s, i, w);
    lemma_widen_chars(s, i, w);
    if j == s.len() {
    } else if j == i {
        lemma_blank_runs(s[i], s[i], Run::Blank);
        lemma_lex_through_blanks(s, i, w, 0);
        lemma_lex_widen(s, i, w, j + 1);
        match lex_from(s, j + 1) {
            Ok(r) => {
                assert(Seq::<TokenView>::empty() + r =~= r);
            },
            Err(_) => {},
        }
    } else {
        lemma_step_advances(s, j);
        lemma_step_widen(s, i, w, j);
        if let Ok((t, e)) = step_spec(s, j) {
            lemma_lex_widen(s, i, w, e);
        }
    }
}

/// Widening the blanks between tokens does not change the tokens: a space
/// or tab of the text replaced by any number (at least one) of spaces and
/// tabs gives the same result, error or tokens. So a space may become two,
/// or a tab.
pub proof fn law_widening_blanks_keeps_tokens(s: Seq<char>, i: int, w: Seq<char>)
    requires
        0 <= i < s.len(),
        s[i] == ' ' || s[i] == '\t',
        w.len() >= 1,
        forall|k: int| 0 <= k < w.len() ==> (#[trigger] w[k] == ' ' || w[k] == '\t'),
    ensures
        lex(s.take(i) + w + s.skip(i + 1)) == lex(s),
{
    lemma_lex_widen(s, i, w, 0);
}

/// `s` with every occurrence of the character `c` replaced by `w`.
pub open spec fn replace_char(s: Seq<char>, c: char, w: Seq<char>) -> Seq<char>
    decreases s.len(),
{
    if s.len() == 0 {
        Seq::empty()
    } else {
        replace_char(s.drop_last(), c, w) + if s.last() == c {
            w
        } else {
            seq![s.last()]
        }
    }
}

/// The first `k` characters of `s` with `c` replaced by `w`, the rest as is,
/// tokenize as `s` does.
proof fn lemma_replace_blank_prefix(s: Seq<char>, c: char, w: Seq<char>, k: int)
    requires
        c == ' ' || c == '\t',
        w.len() >= 1,
        forall|m: int| 0 <= m < w.len() ==> (#[trigger] w[m] == ' ' || w[m] == '\t'),
        0 <= k <= s.len(),
    ensures
        lex(replace_char(s.take(k), c, w) + s.skip(k)) == lex(s),
    decreases k,
{
    if k == 0 {
        assert(replace_char(s.take(0), c, w) + s.skip(0) =~= s);
    } else {
        lemma_replace_blank_prefix(s, c, w, k - 1);
        let r = replace_char(s.take(k - 1), c, w);
        let rest = s.skip(k);
        let before = r + s.skip(k - 1);
        let piece = if s[k - 1] == c {
            w
        } else {
            seq![s[k - 1]]
        };
        assert(s.take(k).drop_last() =~= s.take(k - 1));
        assert(s.take(k).last() == s[k - 1]);
        assert(replace_char(s.take(k), c, w) == r + piece);
        assert(s.skip(k - 1) =~= seq![s[k - 1]] + rest);
        let after = replace_char(s.take(k), c, w) + rest;
        if s[k - 1] == c {
            let i = r.len() as int;
            assert(before[i] == s[k - 1]);
            law_widening_blanks_keeps_tokens(before, i, w);
            assert(before.take(i) =~= r);
            assert(before.skip(i + 1) =~= rest);
            assert(r + w + rest =~= after);
        } else {
            assert(r + (seq![s[k - 1]] + rest) =~= after);
        }
    }
}

/// Widening every space (or every tab) of a text into a run of blanks does
/// not change the tokens: each space or tab replaced by the same sequence of
/// at least one space or tab gives the same result, error or tokens. So the
/// text tokenizes the same with every space doubled, or turned into a tab.
pub proof fn law_widening_every_blank_keeps_tokens(s: Seq<char>, c: char, w: Seq<char>)
    requires
        c == ' ' || c == '\t',
        w.len() >= 1,
        forall|m: int| 0 <= m < w.len() ==> (#[trigger] w[m] == ' ' || w[m] == '\t'),
    ensures
        lex(replace_char(s, c, w)) == lex(s),
{
    lemma_replace_blank_prefix(s, c, w, s.len() as int);
    assert(s.take(s.len() as int) =~= s);
    assert(s.skip(s.len() as int) =~= Seq::<char>::empty());
    assert(replace_char(s, c, w) + Seq::<char>::empty() =~= replace_char(s, c, w));
}

/// Scanning a line comment from `j` stops at `e`: everything in between is
/// on the line and `e` is a line break or the end.
proof fn lemma_scan_through(q: Seq<char>, j: int, e: int)
    requires
        0 <= j <= e <= q.len(),
        forall|k: int| j <= k < e ==> in_run(#[trigger] q[k], Run::RestOfLine),
        e == q.len() || !in_run(q[e], Run::RestOfLine),
    ensures
        scan(q, j, Run::RestOfLine) == e,
    decreases e - j,
{
    if j < e {
        lemma_scan_through(q, j + 1, e);
    }
}

// ---------------------------------------------------------------------------
// Implementation
// ---------------------------------------------------------------------------

fn in_run_exec(c: char, r: Run) -> (b: bool)
    ensures
        b == in_run(c, r),
{
    match r {
        Run::Hex => ascii_hex_digit(c),
        Run::Dec => ascii_dec_digit(c),
        Run::Identifier => is_identifier_continue(c),
        Run::Blank => c == ' ' || c == '\t',
        Run::RestOfLine => c != '\n' && c != '\r',
    }
}

/// The first position at or after `j` whose character is not in `r`.
fn scan_exec(s: &Vec<char>, j: usize, r: Run) -> (k: usize)
    requires
        j <= s@.len(),
    ensures
        k == scan(s@, j as int, r),
        j <= k <= s@.len(),
{
    let mut k = j;
    while k < s.len() && in_run_exec(s[k], r)
        invariant
            j <= k <= s@.len(),
            scan(s@, j as int, r) == scan(s@, k as int, r),
        decreases s@.len() - k,
    {
        k = k + 1;
    }
    k
}

fn is_identifier_start(ch: char) -> (b: bool)
    ensures
        b == starts_identifier(ch),
{
    ascii_alpha(ch) || ch == '_'
}

fn is_identifier_continue(ch: char) -> (b: bool)
    ensures
        b == in_run(ch, Run::Identifier),
{
    ascii_alpha(ch) || ascii_dec_digit(ch) || ch == '_'
}

fn digit_value_exec(c: char) -> (d: u64)
    requires
        is_ascii_hex_digit(c),
    ensures
        d == digit_value(c),
        d < 16,
{
    if '0' <= c && c <= '9' {
        (c as u32 - '0' as u32) as u64
    } else if 'a' <= c && c <= 'f' {
        (c as u32 - 'a' as u32 + 10) as u64
    } else {
        (c as u32 - 'A' as u32 + 10) as u64
    }
}

/// Reads the run of digits (`Run::Dec` in base 10, `Run::Hex` in base 16)
/// from `start` on: its value and end, or `None` when the value exceeds
/// `u64::MAX`.
fn read_digits(s: &Vec<char>, start: usize, r: Run, base: u64) -> (res: Option<(u64, usize)>)
    requires
        start <= s@.len(),
        (r is Dec && base == 10) || (r is Hex && base == 16),
    ensures
        match res {
            Some((v, k)) => {
                &&& k == scan(s@, start as int, r)
                &&& start <= k <= s@.len()
                &&& v == digits_value(s@.subrange(start as int, k as int), base as nat)
            },
            None => digits_value(
                s@.subrange(start as int, scan(s@, start as int, r)),
                base as nat,
            ) > u64::MAX,
        },
{
    let mut k = start;
    let mut v: u64 = 0;
    proof {
        assert(s@.subrange(start as int, start as int).len() == 0);
    }
    while k < s.len() && in_run_exec(s[k], r)
        invariant
            start <= k <= s@.len(),
            (r is Dec && base == 10) || (r is Hex && base == 16),
            scan(s@, start as int, r) == scan(s@, k as int, r),
            v == digits_value(s@.subrange(start as int, k as int), base as nat),
        decreases s@.len() - k,
    {
        let d = digit_value_exec(s[k]);
        proof {
            lemma_digits_value_step(s@, start as int, k as int, base as nat);
        }
        let next = match v.checked_mul(base) {
            Some(m) => m.checked_add(d),
            None => None,
        };
        match next {
            Some(n) => {
                v = n;
            },
            None => {
                proof {
                    lemma_scan_bounds(s@, k as int + 1, r);
                    lemma_digits_value_monotone(
                        s@,
                        start as int,
                        k as int + 1,
                        scan(s@, start as int, r),
                        base as nat,
                    );
                }
                return None;
            },
        }
        k = k + 1;
    }
    Some((v, k))
}

/// Skips spaces and tabs after a literal and applies a `K` or `M` suffix.
fn apply_suffix(s: &Vec<char>, value: u64, k: usize) -> (res: (u64, usize))
    requires
        k <= s@.len(),
    ensures
        (res.0, res.1 as int) == apply_suffix_spec(s@, value, k as int),
        res.1 <= s@.len(),
{
    let m = scan_exec(s, k, Run::Blank);
    if m < s.len() && (s[m] == 'k' || s[m] == 'K') {
        (saturating_mul(value, 1024), m + 1)
    } else if m < s.len() && (s[m] == 'm' || s[m] == 'M') {
        (saturating_mul(saturating_mul(value, 1024), 1024), m + 1)
    } else {
        (value, m)
    }
}

/// Reads the numeric literal whose first digit is at `i`.
fn read_number(s: &Vec<char>, i: usize) -> (res: Result<(u64, usize), TokenizeError>)
    requires
        i < s@.len(),
        is_ascii_dec_digit(s@[i as int]),
    ensures
        match res {
            Ok((v, k)) => number_spec(s@, i as int) == Ok::<(u64, int), TokenizeError>((v, k as int)),
            Err(e) => number_spec(s@, i as int) == Err::<(u64, int), TokenizeError>(e),
        },
        res matches Ok((_, k)) ==> k <= s@.len(),
{
    let n = s.len();
    if s[i] == '0' && i + 1 < n && (s[i + 1] == 'x' || s[i + 1] == 'X') {
        match read_digits(s, i + 2, Run::Hex, 16) {
            Some((v, k)) => {
                if k == i + 2 {
                    Err(TokenizeError::MissingHexDigits)
                } else {
                    Ok(apply_suffix(s, v, k))
                }
            },
            None => {
                proof {
                    lemma_scan_bounds(s@, i + 2, Run::Hex);
                }
                Err(TokenizeError::NumberTooLarge)
            },
        }
    } else {
        proof {
            assert(scan(s@, i as int, Run::Dec) == scan(s@, i + 1, Run::Dec));
        }
        match read_digits(s, i, Run::Dec, 10) {
            Some((v, k)) => Ok(apply_suffix(s, v, k)),
            None => Err(TokenizeError::NumberTooLarge),
        }
    }
}

fn after_line_break(s: &Vec<char>, j: usize) -> (e: usize)
    requires
        j < s@.len(),
    ensures
        e == line_break_end(s@, j as int),
        e <= s@.len(),
{
    let n = s.len();
    if s[j] == '\r' && j + 1 < n && s[j + 1] == '\n' {
        j + 2
    } else {
        j + 1
    }
}

/// Skips the rest of a line comment from `j` on; gives the position of the
/// line break that ends it (or the end of the text).
fn skip_line_comment(s: &Vec<char>, j: usize) -> (e: usize)
    requires
        j <= s@.len(),
    ensures
        e == scan(s@, j as int, Run::RestOfLine),
        e <= s@.len(),
{
    scan_exec(s, j, Run::RestOfLine)
}

/// Skips a block comment body from `j0` on, appending a `Newline` token to
/// `tokens` for each line break in it; gives the position after `*/`.
fn skip_block_comment(s: &Vec<char>, j0: usize, tokens: &mut Vec<Token>) -> (res: Result<
    usize,
    TokenizeError,
>)
    requires
        j0 <= s@.len(),
    ensures
        final(tokens)@.len() >= old(tokens)@.len(),
        final(tokens)@.subrange(0, old(tokens)@.len() as int) == old(tokens)@,
        match res {
            Ok(e) => {
                &&& block_comment_spec(s@, j0 as int, false) == Ok::<
                    (Seq<TokenView>, int),
                    TokenizeError,
                >((tokens_view(final(tokens)@.skip(old(tokens)@.len() as int)), e as int))
                &&& e <= s@.len()
            },
            Err(err) => {
                &&& block_comment_spec(s@, j0 as int, false) == Err::<
                    (Seq<TokenView>, int),
                    TokenizeError,
                >(err)
                &&& tokens_view(final(tokens)@.skip(old(tokens)@.len() as int))
                    == line_break_tokens(s@, j0 as int)
            },
        },
{
    let ghost initial = tokens@;
    let ghost n0 = tokens@.len() as int;
    let mut j = j0;
    let mut prev_star = false;
    proof {
        assert(tokens_view(tokens@.skip(n0)) =~= Seq::<TokenView>::empty());
    }
    while j < s.len()
        invariant
            j0 <= j <= s@.len(),
            tokens@.len() >= n0,
            n0 == initial.len(),
            initial == old(tokens)@,
            tokens@.subrange(0, n0) == initial,
            block_comment_spec(s@, j0 as int, false) == prepend_step(
                tokens_view(tokens@.skip(n0)),
                block_comment_spec(s@, j as int, prev_star),
            ),
            line_break_tokens(s@, j0 as int) == tokens_view(tokens@.skip(n0))
                + line_break_tokens(s@, j as int),
        decreases s@.len() - j,
    {
        let c = s[j];
        if c == '/' && prev_star {
            proof {
                assert(tokens_view(tokens@.skip(n0)) + Seq::<TokenView>::empty() =~= tokens_view(
                    tokens@.skip(n0),
                ));
            }
            return Ok(j + 1);
        } else if c == '\n' || c == '\r' {
            let ghost before = tokens@;
            tokens.push(Token::Newline);
            proof {
                assert(tokens@.skip(n0) =~= before.skip(n0).push(Token::Newline));
                assert(tokens_view(tokens@.skip(n0)) =~= tokens_view(before.skip(n0)) + seq![
                    TokenView::Newline,
                ]);
                assert(tokens@.subrange(0, n0) =~= before.subrange(0, n0));
                let r = block_comment_spec(s@, line_break_end(s@, j as int), false);
                match r {
                    Ok((t, e)) => {
                        assert(tokens_view(before.skip(n0)) + (seq![TokenView::Newline] + t)
                            =~= tokens_view(tokens@.skip(n0)) + t);
                    },
                    Err(_) => {},
                }
                let l = line_break_tokens(s@, line_break_end(s@, j as int));
                assert(tokens_view(before.skip(n0)) + (seq![TokenView::Newline] + l)
                    =~= tokens_view(tokens@.skip(n0)) + l);
            }
            j = after_line_break(s, j);
            prev_star = false;
        } else {
            prev_star = c == '*';
            j = j + 1;
        }
    }
    proof {
        assert(tokens_view(tokens@.skip(n0)) + Seq::<TokenView>::empty() =~= tokens_view(
            tokens@.skip(n0),
        ));
    }
    Err(TokenizeError::UnterminatedBlockComment)
}

/// Reads the identifier that starts at `i`.
fn read_identifier(s: &Vec<char>, i: usize) -> (res: (Token, usize))
    requires
        i <= s@.len(),
    ensures
        res.1 == scan(s@, i as int, Run::Identifier),
        res.0@ == TokenView::Identifier(s@.subrange(i as int, res.1 as int)),
        res.1 <= s@.len(),
{
    let k = scan_exec(s, i, Run::Identifier);
    let mut chars: Vec<char> = Vec::new();
    let mut m = i;
    while m < k
        invariant
            i <= m <= k <= s@.len(),
            chars@ == s@.subrange(i as int, m as int),
        decreases k - m,
    {
        chars.push(s[m]);
        m = m + 1;
        proof {
            assert(chars@ =~= s@.subrange(i as int, m as int));
        }
    }
    (Token::Identifier(string_from_chars(&chars)), k)
}

/// The token of a single-character delimiter or operator.
fn punctuation_token(c: char) -> (t: Option<Token>)
    ensures
        match t {
            Some(t) => punctuation(c) == Some(t@),
            None => punctuation(c) is None,
        },
{
    if c == '+' {
        Some(Token::Plus)
    } else if c == '-' {
        Some(Token::Minus)
    } else if c == '(' {
        Some(Token::LeftParen)
    } else if c == ')' {
        Some(Token::RightParen)
    } else if c == '{' {
        Some(Token::LeftBrace)
    } else if c == '}' {
        Some(Token::RightBrace)
    } else if c == ':' {
        Some(Token::Colon)
    } else if c == ',' {
        Some(Token::Comma)
    } else if c == '=' {
        Some(Token::Equals)
    } else {
        None
    }
}

/// One tokenizer step at `i`: appends the tokens it produces to `tokens` and
/// gives the position where the next step starts.
fn step(s: &Vec<char>, i: usize, tokens: &mut Vec<Token>) -> (res: Result<usize, TokenizeError>)
    requires
        i < s@.len(),
    ensures
        final(tokens)@.len() >= old(tokens)@.len(),
        final(tokens)@.subrange(0, old(tokens)@.len() as int) == old(tokens)@,
        match res {
            Ok(j) => {
                &&& step_spec(s@, i as int) == Ok::<(Seq<TokenView>, int), TokenizeError>(
                    (tokens_view(final(tokens)@.skip(old(tokens)@.len() as int)), j as int),
                )
                &&& j <= s@.len()
            },
            Err(e) => step_spec(s@, i as int) == Err::<(Seq<TokenView>, int), TokenizeError>(e),
        },
{
    let ghost before = tokens@;
    let ghost n0 = tokens@.len() as int;
    let n = s.len();
    let ch = s[i];
    if ch == '\n' || ch == '\r' {
        tokens.push(Token::Newline);
        proof {
            assert(tokens_view(tokens@.skip(n0)) =~= seq![TokenView::Newline]);
            assert(tokens@.subrange(0, n0) =~= before);
        }
        return Ok(after_line_break(s, i));
    }
    proof {
        assert(tokens_view(tokens@.skip(n0)) =~= Seq::<TokenView>::empty());
        assert(tokens@.subrange(0, n0) =~= before);
    }
    if white_space(ch) {
        Ok(i + 1)
    } else if ch == '/' {
        if i + 1 < n && s[i + 1] == '/' {
            Ok(skip_line_comment(s, i + 2))
        } else if i + 1 < n && s[i + 1] == '*' {
            skip_block_comment(s, i + 2, tokens)
        } else {
            Err(TokenizeError::UnexpectedCharacter('/'))
        }
    } else if is_identifier_start(ch) {
        let (t, k) = read_identifier(s, i);
        tokens.push(t);
        proof {
            assert(tokens_view(tokens@.skip(n0)) =~= seq![t@]);
            assert(tokens@.subrange(0, n0) =~= before);
        }
        Ok(k)
    } else {
        match punctuation_token(ch) {
            Some(t) => {
                tokens.push(t);
                proof {
                    assert(tokens_view(tokens@.skip(n0)) =~= seq![t@]);
                    assert(tokens@.subrange(0, n0) =~= before);
                }
                Ok(i + 1)
            },
            None => {
                if ascii_dec_digit(ch) {
                    match read_number(s, i) {
                        Ok((v, k)) => {
                            tokens.push(Token::Number(v));
                            proof {
                                assert(tokens_view(tokens@.skip(n0)) =~= seq![
                                    TokenView::Number(v),
                                ]);
                                assert(tokens@.subrange(0, n0) =~= before);
                            }
                            Ok(k)
                        },
                        Err(e) => Err(e),
                    }
                } else {
                    Err(TokenizeError::UnexpectedCharacter(ch))
                }
            },
        }
    }
}

/// Splits `source` into structural tokens up to the first character that
/// cannot be tokenized: the tokens before it and the error there, exactly
/// `lex_prefix(source@)`.
pub fn tokenize_prefix(source: &str) -> (res: (Vec<Token>, Option<TokenizeError>))
    ensures
        (tokens_view(res.0@), res.1) == lex_prefix(source@),
{
    let s = chars_of(source);
    let mut tokens: Vec<Token> = Vec::new();
    let mut i: usize = 0;
    proof {
        assert(tokens_view(tokens@) + lex_prefix_from(s@, 0).0 =~= lex_prefix_from(s@, 0).0);
    }
    while i < s.len()
        invariant
            i <= s@.len(),
            s@ == source@,
            lex_prefix(s@) == (
                tokens_view(tokens@) + lex_prefix_from(s@, i as int).0,
                lex_prefix_from(s@, i as int).1,
            ),
        decreases s@.len() - i,
    {
        let ghost before = tokens@;
        let n = tokens.len();
        match step(&s, i, &mut tokens) {
            Ok(j) => {
                proof {
                    lemma_step_advances(s@, i as int);
                    let t = tokens_view(tokens@.skip(before.len() as int));
                    assert(tokens@ =~= before + tokens@.skip(before.len() as int));
                    assert(tokens_view(tokens@) =~= tokens_view(before) + t);
                    let r = lex_prefix_from(s@, j as int).0;
                    assert(tokens_view(before) + (t + r) =~= tokens_view(tokens@) + r);
                }
                i = j;
            },
            Err(e) => {
                tokens.truncate(n);
                proof {
                    assert(tokens@ =~= before);
                    assert(tokens_view(tokens@) + Seq::<TokenView>::empty() =~= tokens_view(
                        tokens@,
                    ));
                }
                return (tokens, Some(e));
            },
        }
    }
    proof {
        assert(tokens_view(tokens@) + Seq::<TokenView>::empty() =~= tokens_view(tokens@));
    }
    (tokens, None)
}

/// Splits `source` into structural tokens.
///
/// The result is exactly `lex(source@)`: `Ok` with the tokens of the whole
/// text, or the error of the first step that fails.
pub fn tokenize(source: &str) -> (res: Result<Vec<Token>, TokenizeError>)
    ensures
        match res {
            Ok(ts) => lex(source@) == Ok::<Seq<TokenView>, TokenizeError>(tokens_view(ts@)),
            Err(e) => lex(source@) == Err::<Seq<TokenView>, TokenizeError>(e),
        },
{
    proof {
        lemma_lex_prefix_from(source@, 0);
    }
    match tokenize_prefix(source) {
        (tokens, None) => Ok(tokens),
        (_, Some(e)) => Err(e),
    }
}

} // verus!
