use map_segments::memory_map::tokenizer::{tokenize, Token, TokenizeError};

// -- Successful cases -----------------------------------------------------

#[test]
fn decimal_zero() {
    assert_eq!(tokenize("0").unwrap(), vec![Token::Number(0)]);
}

#[test]
fn decimal_plain() {
    assert_eq!(tokenize("1234").unwrap(), vec![Token::Number(1234)]);
}

#[test]
fn decimal_large() {
    assert_eq!(
        tokenize("4294967295").unwrap(),
        vec![Token::Number(4_294_967_295)]
    );
}

#[test]
fn hex_lowercase_prefix() {
    assert_eq!(tokenize("0x1000").unwrap(), vec![Token::Number(0x1000)]);
}

#[test]
fn hex_uppercase_prefix() {
    assert_eq!(tokenize("0X1000").unwrap(), vec![Token::Number(0x1000)]);
}

#[test]
fn hex_mixed_case_digits() {
    assert_eq!(
        tokenize("0xDeAdBeEf").unwrap(),
        vec![Token::Number(0xDEAD_BEEF)]
    );
}

#[test]
fn hex_zero() {
    assert_eq!(tokenize("0x0").unwrap(), vec![Token::Number(0)]);
}

#[test]
fn hex_large() {
    assert_eq!(
        tokenize("0x20000000").unwrap(),
        vec![Token::Number(0x2000_0000)]
    );
}

#[test]
fn suffix_k_lowercase() {
    assert_eq!(tokenize("16k").unwrap(), vec![Token::Number(16 * 1_024)]);
}

#[test]
fn suffix_k_uppercase() {
    assert_eq!(tokenize("16K").unwrap(), vec![Token::Number(16 * 1_024)]);
}

#[test]
fn suffix_m_lowercase() {
    assert_eq!(
        tokenize("2m").unwrap(),
        vec![Token::Number(2 * 1_024 * 1_024)]
    );
}

#[test]
fn suffix_m_uppercase() {
    assert_eq!(
        tokenize("2M").unwrap(),
        vec![Token::Number(2 * 1_024 * 1_024)]
    );
}

#[test]
fn suffix_k_zero() {
    assert_eq!(tokenize("0K").unwrap(), vec![Token::Number(0)]);
}

#[test]
fn whitespace_ignored() {
    assert_eq!(
        tokenize(" ORIGIN ( RAM ) + 16 K ").unwrap(),
        vec![
            Token::Identifier("ORIGIN".to_string()),
            Token::LeftParen,
            Token::Identifier("RAM".to_string()),
            Token::RightParen,
            Token::Plus,
            Token::Number(16 * 1_024),
        ]
    );
}

#[test]
fn expression_tokens() {
    assert_eq!(
        tokenize("ORIGIN(RAM)+LENGTH(RAM)").unwrap(),
        vec![
            Token::Identifier("ORIGIN".to_string()),
            Token::LeftParen,
            Token::Identifier("RAM".to_string()),
            Token::RightParen,
            Token::Plus,
            Token::Identifier("LENGTH".to_string()),
            Token::LeftParen,
            Token::Identifier("RAM".to_string()),
            Token::RightParen,
        ]
    );
}

// -- Failure cases --------------------------------------------------------

#[test]
fn suffix_without_number_is_identifier() {
    assert_eq!(
        tokenize("K").unwrap(),
        vec![Token::Identifier("K".to_string())]
    );
}

#[test]
fn hex_invalid_digit() {
    assert!(tokenize("0xGHIJ").is_err());
}

#[test]
fn float_rejected() {
    assert!(tokenize("1.5").is_err());
}

#[test]
fn hex_prefix_only() {
    assert!(tokenize("0x").is_err());
}

// -- Further cases --------------------------------------------------------

#[test]
fn every_delimiter_and_operator() {
    assert_eq!(
        tokenize("+-(){}:,=").unwrap(),
        vec![
            Token::Plus,
            Token::Minus,
            Token::LeftParen,
            Token::RightParen,
            Token::LeftBrace,
            Token::RightBrace,
            Token::Colon,
            Token::Comma,
            Token::Equals,
        ]
    );
}

#[test]
fn line_breaks_become_newlines() {
    assert_eq!(
        tokenize("a\nb\r\nc\rd").unwrap(),
        vec![
            Token::Identifier("a".to_string()),
            Token::Newline,
            Token::Identifier("b".to_string()),
            Token::Newline,
            Token::Identifier("c".to_string()),
            Token::Newline,
            Token::Identifier("d".to_string()),
        ]
    );
}

#[test]
fn comments_keep_only_their_line_breaks() {
    assert_eq!(
        tokenize("a // note\nb /* one\r\ntwo\n */ c").unwrap(),
        vec![
            Token::Identifier("a".to_string()),
            Token::Newline,
            Token::Identifier("b".to_string()),
            Token::Newline,
            Token::Newline,
            Token::Identifier("c".to_string()),
        ]
    );
}

#[test]
fn block_comment_closes_at_first_star_slash() {
    assert_eq!(
        tokenize("/* a **/ 1 /*/ x */ 2").unwrap(),
        vec![Token::Number(1), Token::Number(2)]
    );
}

#[test]
fn unicode_whitespace_ignored() {
    assert_eq!(
        tokenize("1\u{00A0}\u{3000}2").unwrap(),
        vec![Token::Number(1), Token::Number(2)]
    );
}

#[test]
fn identifiers_take_digits_and_underscores() {
    assert_eq!(
        tokenize("_dram2_seg").unwrap(),
        vec![Token::Identifier("_dram2_seg".to_string())]
    );
}

#[test]
fn suffix_saturates() {
    assert_eq!(
        tokenize("0xFFFFFFFFFFFFFFFF K").unwrap(),
        vec![Token::Number(u64::MAX)]
    );
    assert_eq!(
        tokenize("17592186044416M").unwrap(),
        vec![Token::Number(u64::MAX)]
    );
}

#[test]
fn number_then_letters() {
    assert_eq!(
        tokenize("16kb 0x1G").unwrap(),
        vec![
            Token::Number(16 * 1_024),
            Token::Identifier("b".to_string()),
            Token::Number(1),
            Token::Identifier("G".to_string()),
        ]
    );
}

#[test]
fn leading_zeros_are_decimal() {
    assert_eq!(tokenize("0012").unwrap(), vec![Token::Number(12)]);
}

#[test]
fn error_kinds() {
    assert_eq!(tokenize("0x"), Err(TokenizeError::MissingHexDigits));
    assert_eq!(tokenize("1.5"), Err(TokenizeError::UnexpectedCharacter('.')));
    assert_eq!(tokenize("a / b"), Err(TokenizeError::UnexpectedCharacter('/')));
    assert_eq!(tokenize("/* open"), Err(TokenizeError::UnterminatedBlockComment));
    assert_eq!(tokenize("18446744073709551616"), Err(TokenizeError::NumberTooLarge));
    assert_eq!(tokenize("0x10000000000000000"), Err(TokenizeError::NumberTooLarge));
    assert_eq!(
        tokenize("18446744073709551615").unwrap(),
        vec![Token::Number(u64::MAX)]
    );
}

#[test]
fn line_feed_joins_token_lists() {
    let a = "ORIGIN(RAM) + 16K // note";
    let b = "LENGTH = 0x10 /* c\r\n */ }";
    let mut expected = tokenize(a).unwrap();
    expected.push(Token::Newline);
    expected.extend(tokenize(b).unwrap());
    assert_eq!(tokenize(&format!("{a}\n{b}")).unwrap(), expected);
}

#[test]
fn widened_blanks_keep_tokens() {
    let s = " ORIGIN ( RAM ) + 16 K /* a * / b */ , 0x10 m // x y\n 1";
    let expected = tokenize(s).unwrap();
    assert_eq!(tokenize(&s.replace(' ', "  ")).unwrap(), expected);
    assert_eq!(tokenize(&s.replace(' ', "\t")).unwrap(), expected);
    assert_eq!(tokenize(&s.replace(' ', " \t ")).unwrap(), expected);
    assert_eq!(tokenize(&"1 .".replace(' ', "  ")), tokenize("1 ."));
}
