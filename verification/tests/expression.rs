use map_segments::memory_map::expression::{evaluate_expression, EvaluateError, ExpressionError};
use map_segments::memory_map::Region;

fn ram_region() -> Vec<Region> {
    vec![Region {
        name: "RAM".to_string(),
        start: 0x2000_0000,
        length: 64 * 1_024,
    }]
}

#[test]
fn evaluates_number() {
    assert_eq!(evaluate_expression("16K", &[]).unwrap(), 16 * 1_024);
}

#[test]
fn evaluates_left_to_right_expression() {
    assert_eq!(
        evaluate_expression("16K + 4 - 2", &[]).unwrap(),
        16 * 1_024 + 2
    );
}

#[test]
fn evaluates_parenthesised_expression() {
    assert_eq!(
        evaluate_expression("(16K + 4) - 2", &[]).unwrap(),
        16 * 1_024 + 2
    );
}

#[test]
fn evaluates_origin_reference() {
    assert_eq!(
        evaluate_expression("ORIGIN(RAM)", &ram_region()).unwrap(),
        0x2000_0000
    );
}

#[test]
fn evaluates_length_reference() {
    assert_eq!(
        evaluate_expression("LENGTH(RAM)", &ram_region()).unwrap(),
        64 * 1_024
    );
}

#[test]
fn ignores_whitespace() {
    assert_eq!(
        evaluate_expression(" ORIGIN ( RAM ) + 16 K ", &ram_region()).unwrap(),
        0x2000_0000 + 16 * 1_024
    );
}

#[test]
fn rejects_unknown_region() {
    assert!(evaluate_expression("ORIGIN(FLASH)", &ram_region()).is_err());
}

#[test]
fn rejects_trailing_tokens() {
    assert!(evaluate_expression("16K 4", &[]).is_err());
}

// -- Further cases --------------------------------------------------------

#[test]
fn subtraction_groups_to_the_left() {
    assert_eq!(evaluate_expression("10 - 3 - 2", &[]).unwrap(), 5);
    assert_eq!(evaluate_expression("10 - (3 - 2)", &[]).unwrap(), 9);
}

#[test]
fn arithmetic_wraps() {
    assert_eq!(evaluate_expression("0 - 1", &[]).unwrap(), u64::MAX);
    assert_eq!(evaluate_expression("0xFFFFFFFFFFFFFFFF + 2", &[]).unwrap(), 1);
}

#[test]
fn references_are_case_insensitive_and_take_the_first_match() {
    let regions = vec![
        Region { name: "ram".to_string(), start: 1, length: 2 },
        Region { name: "RAM".to_string(), start: 3, length: 4 },
    ];
    assert_eq!(evaluate_expression("origin(Ram) + Length(RAM)", &regions).unwrap(), 3);
}

#[test]
fn evaluation_error_kinds() {
    let e = |s: &str| evaluate_expression(s, &ram_region()).unwrap_err();
    assert_eq!(e(""), ExpressionError::Evaluate(EvaluateError::EmptyExpression));
    assert_eq!(e("\n"), ExpressionError::Evaluate(EvaluateError::ExpectedValue));
    assert_eq!(e("RAM"), ExpressionError::Evaluate(EvaluateError::UnexpectedIdentifier));
    assert_eq!(e("1 +"), ExpressionError::Evaluate(EvaluateError::ExpectedValue));
    assert_eq!(e("ORIGIN RAM"), ExpressionError::Evaluate(EvaluateError::ExpectedLeftParen));
    assert_eq!(e("ORIGIN(1)"), ExpressionError::Evaluate(EvaluateError::ExpectedRegionName));
    assert_eq!(e("(1 + 2"), ExpressionError::Evaluate(EvaluateError::ExpectedRightParen));
    assert_eq!(e("ORIGIN(FLASH)"), ExpressionError::Evaluate(EvaluateError::UnknownRegion));
    assert_eq!(e("1 )"), ExpressionError::Evaluate(EvaluateError::TrailingToken));
    assert!(matches!(e("1 % 2"), ExpressionError::Tokenize(_)));
}
