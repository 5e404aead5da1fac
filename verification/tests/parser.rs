use map_segments::memory_map::parser::{parse, Delimiter, ParseError};
use map_segments::memory_map::expression::EvaluateError;
use map_segments::memory_map::tokenizer::TokenizeError;

#[test]
fn parses_memory_block() {
    let regions = parse(
        r#"
        MEMORY {
            FLASH : ORIGIN = 0x08000000, LENGTH = 256K
            RAM : ORIGIN = 0x20000000, LENGTH = 64K
        }
        "#,
    )
    .unwrap();

    assert_eq!(regions.len(), 2);
    assert_eq!(regions[0].name, "FLASH");
    assert_eq!(regions[0].start, 0x0800_0000);
    assert_eq!(regions[0].length, 256 * 1_024);
    assert_eq!(regions[1].name, "RAM");
    assert_eq!(regions[1].start, 0x2000_0000);
    assert_eq!(regions[1].length, 64 * 1_024);
}

#[test]
fn parses_memory_block_with_brace_on_next_line() {
    let regions = parse(
        r#"
        MEMORY
        {
            FLASH : ORIGIN = 0x08000000, LENGTH = 256K
        }
        "#,
    )
    .unwrap();

    assert_eq!(regions.len(), 1);
    assert_eq!(regions[0].name, "FLASH");
    assert_eq!(regions[0].start, 0x0800_0000);
    assert_eq!(regions[0].length, 256 * 1_024);
}

#[test]
fn parses_region_attributes_and_lowercase_assignment_names() {
    let regions = parse(
        r#"
        MEMORY {
            FLASH (rx) : org = 0x08000000, len = 256K
        }
        "#,
    )
    .unwrap();

    assert_eq!(regions.len(), 1);
    assert_eq!(regions[0].name, "FLASH");
    assert_eq!(regions[0].start, 0x0800_0000);
    assert_eq!(regions[0].length, 256 * 1_024);
}

#[test]
fn parses_comments() {
    let regions = parse(
        r#"
        // Leading comment
        MEMORY {
            /* block comment */
            FLASH : ORIGIN = 0x08000000, LENGTH = 256K // trailing comment
            /* multiline
               block comment */
            RAM : ORIGIN = ORIGIN(FLASH) + LENGTH(FLASH), LENGTH = 64K
        }
        "#,
    )
    .unwrap();

    assert_eq!(regions.len(), 2);
    assert_eq!(regions[1].name, "RAM");
    assert_eq!(regions[1].start, 0x0800_0000 + 256 * 1_024);
    assert_eq!(regions[1].length, 64 * 1_024);
}

#[test]
fn parses_reversed_assignment_order() {
    let regions = parse(
        r#"
        MEMORY {
            RAM : LENGTH = 64K, ORIGIN = 0x20000000
        }
        "#,
    )
    .unwrap();

    assert_eq!(regions.len(), 1);
    assert_eq!(regions[0].start, 0x2000_0000);
    assert_eq!(regions[0].length, 64 * 1_024);
}

#[test]
fn rejects_missing_memory_block() {
    assert!(parse("FLASH : ORIGIN = 0, LENGTH = 1K").is_err());
}

#[test]
fn rejects_unterminated_block_comment() {
    assert!(parse("MEMORY { /* nope").is_err());
}

// -- Further cases --------------------------------------------------------

#[test]
fn keyword_case_and_nested_attributes() {
    let regions = parse(
        "SECTIONS { }\nmemory\n\n{ ram (rw(x)) : ORG = 0x10, Len = ORIGIN(RAM) }\n",
    );
    // `ORIGIN(RAM)` refers to a region not declared yet.
    assert_eq!(regions.unwrap_err(), ParseError::Expression(EvaluateError::UnknownRegion));
    let regions = parse("memory\n\n{ ram (rw(x)) : ORG = 0x10, Len = 2 }").unwrap();
    assert_eq!(regions.len(), 1);
    assert_eq!(regions[0].name, "ram");
    assert_eq!(regions[0].start, 0x10);
    assert_eq!(regions[0].length, 2);
}

#[test]
fn expression_may_span_lines_before_the_comma() {
    let regions = parse("MEMORY {\n A : ORIGIN = 1 +\n 2, LENGTH = 3\n}").unwrap();
    assert_eq!(regions[0].start, 3);
    assert_eq!(regions[0].length, 3);
}

#[test]
fn empty_block_gives_no_region() {
    assert_eq!(parse("MEMORY {}").unwrap().len(), 0);
}

#[test]
fn parse_error_kinds() {
    let e = |s: &str| parse(s).unwrap_err();
    assert_eq!(e("nothing here"), ParseError::NoMemoryBlock);
    assert_eq!(e("MEMORY X"), ParseError::Expected(Delimiter::LeftBrace));
    assert_eq!(e("MEMORY { 1 }"), ParseError::ExpectedRegionName);
    assert_eq!(e("MEMORY { A : ORIGIN = 1, LENGTH = 2"), ParseError::NoClosingBrace);
    assert_eq!(e("MEMORY { A ( rx "), ParseError::UnclosedRegionAttributes);
    assert_eq!(e("MEMORY { A ORIGIN = 1 }"), ParseError::Expected(Delimiter::Colon));
    assert_eq!(e("MEMORY { A : START = 1 }"), ParseError::ExpectedAssignment);
    assert_eq!(e("MEMORY { A : ORIGIN 1 }"), ParseError::Expected(Delimiter::Equals));
    assert_eq!(e("MEMORY { A : ORIGIN = 1"), ParseError::Expected(Delimiter::Comma));
    assert_eq!(
        e("MEMORY { A : ORIGIN = 1, ORIGIN = 2 }"),
        ParseError::MissingOriginOrLength
    );
    assert_eq!(
        e("MEMORY { A : ORIGIN = , LENGTH = 2 }"),
        ParseError::Expression(EvaluateError::EmptyExpression)
    );
    assert_eq!(e("MEMORY { @ }"), ParseError::Tokenize(TokenizeError::UnexpectedCharacter('@')));
}

#[test]
fn ignores_script_text_after_memory_block() {
    let regions = parse(
        "MEMORY {\n A : ORIGIN = 0, LENGTH = 1K\n}\n_stack_start = ORIGIN(A) + LENGTH(A);\n",
    )
    .unwrap();
    assert_eq!(regions.len(), 1);
    assert_eq!(regions[0].name, "A");
    assert_eq!(regions[0].start, 0);
    assert_eq!(regions[0].length, 1024);

    let regions = parse(
        "MEMORY\n{\n FLASH : ORIGIN = 0x0, LENGTH = 64K\n}\nSECTIONS { .text : { *(.text*) } > FLASH }\n",
    )
    .unwrap();
    assert_eq!(regions.len(), 1);
    assert_eq!(regions[0].length, 64 * 1024);
}

#[test]
fn tokenizing_error_inside_or_before_block_is_reported() {
    assert!(matches!(
        parse("MEMORY {\n A : ORIGIN = 0; LENGTH = 1K\n}\n"),
        Err(ParseError::Tokenize(TokenizeError::UnexpectedCharacter(';')))
    ));
    assert!(matches!(
        parse("x = 1;\nMEMORY {\n A : ORIGIN = 0, LENGTH = 1K\n}\n"),
        Err(ParseError::Tokenize(TokenizeError::UnexpectedCharacter(';')))
    ));
}
