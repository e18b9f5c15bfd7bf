use arithmetic_parser::Operator;
use arithmetic_parser::ParseError;
use arithmetic_parser::evaluate_expression;
use arithmetic_parser::parse_operator;
use arithmetic_parser::try_evaluate_expression;

#[test]
fn test_evaluate_expression() {
    let test_cases = vec![
        ("3a2c4", Ok(20)),
        ("32a2d2", Ok(17)),
        ("500a10b66c32", Ok(14208)),
        ("3ae4c66fb32", Ok(235)),
        ("3c4d2aee2a4c41fc4f", Ok(990)),
        ("3ae4c2a2fb32", Ok(-19)),
        ("", Err(ParseError::EmptyExpression)),
        ("g", Err(ParseError::InvalidCharacter)),
        ("0", Ok(0)),
    ];

    for (input, expected) in test_cases {
        let result = evaluate_expression(input);
        assert_eq!(result, expected, "Failed on input: {}", input);
    }
}

#[test]
fn test_unmatched_parenthesis() {
    let result = evaluate_expression("3ae4c66fb32f");
    assert_eq!(result, Err(ParseError::UnmatchedClosingParenthesis));
}

#[test]
fn test_unmatched_opening_parenthesis() {
    let result = evaluate_expression("e1");
    assert_eq!(result, Err(ParseError::UnmatchedOpeningParenthesis));
}

#[test]
fn test_division_by_zero() {
    let result = evaluate_expression("3d0");
    assert_eq!(result, Err(ParseError::DivisionByZero));
}

#[test]
fn test_digit_runs() {
    assert_eq!(evaluate_expression("0"), Ok(0));
    assert_eq!(evaluate_expression("7"), Ok(7));
    assert_eq!(evaluate_expression("500"), Ok(500));
    assert_eq!(evaluate_expression("007"), Ok(7));
    assert_eq!(evaluate_expression("2147483647"), Ok(2147483647));
}

#[test]
fn test_left_to_right_no_precedence() {
    assert_eq!(evaluate_expression("3a2c4"), Ok(20));
    assert_eq!(evaluate_expression("2c3a4"), Ok(10));
    assert_eq!(evaluate_expression("10b2b3"), Ok(5));
}

#[test]
fn test_division_truncates_toward_zero() {
    assert_eq!(evaluate_expression("32a2d2"), Ok(17));
    assert_eq!(evaluate_expression("7d2"), Ok(3));
    assert_eq!(evaluate_expression("0b7d2"), Ok(-3));
    assert_eq!(evaluate_expression("0b7de0b2f"), Ok(3));
    assert_eq!(evaluate_expression("500a10b66c32"), Ok(14208));
}

#[test]
fn test_groups() {
    assert_eq!(evaluate_expression("3ae4c66fb32"), Ok(235));
    assert_eq!(evaluate_expression("e3a2fc2"), Ok(10));
    assert_eq!(evaluate_expression("ee5ff"), Ok(5));
    assert_eq!(evaluate_expression("3c4d2aee2a4c41fc4f"), Ok(990));
}

#[test]
fn test_negative_intermediate_results() {
    assert_eq!(evaluate_expression("3ae4c2a2fb32"), Ok(-19));
    assert_eq!(evaluate_expression("0b5"), Ok(-5));
    assert_eq!(evaluate_expression("0b5c3"), Ok(-15));
}

#[test]
fn test_empty_expression_cases() {
    assert_eq!(evaluate_expression(""), Err(ParseError::EmptyExpression));
    assert_eq!(evaluate_expression("ef"), Err(ParseError::EmptyExpression));
    assert_eq!(evaluate_expression("3aef"), Err(ParseError::EmptyExpression));
}

#[test]
fn test_invalid_characters() {
    assert_eq!(evaluate_expression("g"), Err(ParseError::InvalidCharacter));
    assert_eq!(evaluate_expression("3z4"), Err(ParseError::InvalidCharacter));
    assert_eq!(evaluate_expression("3 4"), Err(ParseError::InvalidCharacter));
    assert_eq!(evaluate_expression("A"), Err(ParseError::InvalidCharacter));
    assert_eq!(evaluate_expression("e3g4f"), Err(ParseError::InvalidCharacter));
}

#[test]
fn test_unmatched_closing_cases() {
    assert_eq!(
        evaluate_expression("f"),
        Err(ParseError::UnmatchedClosingParenthesis)
    );
    assert_eq!(
        evaluate_expression("3f"),
        Err(ParseError::UnmatchedClosingParenthesis)
    );
}

#[test]
fn test_unmatched_opening_cases() {
    assert_eq!(
        evaluate_expression("e"),
        Err(ParseError::UnmatchedOpeningParenthesis)
    );
    assert_eq!(
        evaluate_expression("e1a2"),
        Err(ParseError::UnmatchedOpeningParenthesis)
    );
    assert_eq!(
        evaluate_expression("ee1f"),
        Err(ParseError::UnmatchedOpeningParenthesis)
    );
}

#[test]
fn test_division_by_zero_from_group() {
    assert_eq!(
        evaluate_expression("3de0a0f"),
        Err(ParseError::DivisionByZero)
    );
}

#[test]
fn test_wraparound_policy() {
    assert_eq!(
        evaluate_expression("2000000000a2000000000"),
        Ok(-294967296)
    );
    assert_eq!(evaluate_expression("100000c100000"), Ok(1410065408));
}

#[test]
fn test_fold_undefined_without_operator() {
    assert_eq!(try_evaluate_expression("3e4f"), None);
    assert_eq!(try_evaluate_expression("e1fe2f"), None);
    assert_eq!(try_evaluate_expression("3a2"), Some(Ok(5)));
    assert_eq!(
        try_evaluate_expression("3aa4"),
        Some(Ok(7)),
        "a surplus operator is ignored by the fold"
    );
    assert_eq!(try_evaluate_expression("3a"), Some(Ok(3)));
}

#[test]
fn test_idempotent_evaluation() {
    let first = evaluate_expression("3ae4c66fb32");
    let second = evaluate_expression("3ae4c66fb32");
    assert_eq!(first, second);

    let first = try_evaluate_expression("3e4f");
    let second = try_evaluate_expression("3e4f");
    assert_eq!(first, second);
}

#[test]
fn test_parse_operator_mapping() {
    assert_eq!(parse_operator('a'), Ok(Operator::Add));
    assert_eq!(parse_operator('b'), Ok(Operator::Subtract));
    assert_eq!(parse_operator('c'), Ok(Operator::Multiply));
    assert_eq!(parse_operator('d'), Ok(Operator::Divide));
    assert_eq!(parse_operator('e'), Err(ParseError::InvalidCharacter));
    assert_eq!(parse_operator('1'), Err(ParseError::InvalidCharacter));
    assert_eq!(parse_operator('x'), Err(ParseError::InvalidCharacter));
}

#[test]
fn test_error_messages() {
    assert_eq!(
        ParseError::UnmatchedOpeningParenthesis.message(),
        "Unmatched opening parenthesis"
    );
    assert_eq!(
        ParseError::UnmatchedClosingParenthesis.message(),
        "Unmatched closing parenthesis"
    );
    assert_eq!(ParseError::DivisionByZero.message(), "Division by zero");
    assert_eq!(ParseError::InvalidCharacter.message(), "Invalid character");
    assert_eq!(ParseError::EmptyExpression.message(), "Empty expression");
}
