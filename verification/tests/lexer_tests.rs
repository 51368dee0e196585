use lexer::tokenize;
use lexer::BinaryOperator;
use lexer::Token;

#[test]
fn process_number() {
    let input = "123";

    assert_eq!(
        tokenize(input).expect("should be able to tokenize"),
        vec![Token::Number(123), Token::Eof]
    );
}

#[test]
fn process_simple_sums() {
    let input1 = "1 + 1";
    let input2 = "2 * 2";
    let input3 = "3 - 3";
    let input4 = "4 / 4";

    assert_eq!(
        tokenize(input1).expect("should be able to tokenize"),
        vec![
            Token::Number(1),
            Token::BinaryOperator(BinaryOperator::Addition),
            Token::Number(1),
            Token::Eof
        ]
    );

    assert_eq!(
        tokenize(input2).expect("should be able to tokenize"),
        vec![
            Token::Number(2),
            Token::BinaryOperator(BinaryOperator::Multiplication),
            Token::Number(2),
            Token::Eof
        ]
    );

    assert_eq!(
        tokenize(input3).expect("should be able to tokenize"),
        vec![
            Token::Number(3),
            Token::BinaryOperator(BinaryOperator::Subtraction),
            Token::Number(3),
            Token::Eof
        ]
    );

    assert_eq!(
        tokenize(input4).expect("should be able to tokenize"),
        vec![
            Token::Number(4),
            Token::BinaryOperator(BinaryOperator::Division),
            Token::Number(4),
            Token::Eof
        ]
    );
}

#[test]
fn process_simple_number_assignment() {
    let input = "let x = 10";

    assert_eq!(
        tokenize(input).expect("should be able to tokenize"),
        vec![
            Token::Let,
            Token::Identifier("x".to_string()),
            Token::Equals,
            Token::Number(10),
            Token::Eof
        ]
    );
}

#[test]
fn empty_input_is_just_eof() {
    assert_eq!(
        tokenize("").expect("should be able to tokenize"),
        vec![Token::Eof]
    );
}

#[test]
fn whitespace_is_optional_as_separator() {
    assert_eq!(
        tokenize("1+1").expect("should be able to tokenize"),
        vec![
            Token::Number(1),
            Token::BinaryOperator(BinaryOperator::Addition),
            Token::Number(1),
            Token::Eof
        ]
    );
}

#[test]
fn whitespace_varieties_are_skipped() {
    assert_eq!(
        tokenize("\t1 \n2\r").expect("should be able to tokenize"),
        vec![Token::Number(1), Token::Number(2), Token::Eof]
    );
}

#[test]
fn maximal_munch_across_class_boundaries() {
    assert_eq!(
        tokenize("ab12").expect("should be able to tokenize"),
        vec![
            Token::Identifier("ab".to_string()),
            Token::Number(12),
            Token::Eof
        ]
    );
}

#[test]
fn unrecognized_character_fails() {
    let err = tokenize("@").expect_err("should fail on an unrecognized character");
    assert_eq!(err.offending, "@".to_string());
}

#[test]
fn non_ascii_character_fails() {
    let err = tokenize("é").expect_err("should fail on a non-ASCII character");
    assert_eq!(err.offending, "é".to_string());
}

#[test]
fn scan_is_fail_fast() {
    let err = tokenize("1 + #2 @").expect_err("should stop at the first bad lexeme");
    assert_eq!(err.offending, "#".to_string());
}

#[test]
fn parenthesized_expression() {
    assert_eq!(
        tokenize("(1 + 2) * 3").expect("should be able to tokenize"),
        vec![
            Token::OpenParen,
            Token::Number(1),
            Token::BinaryOperator(BinaryOperator::Addition),
            Token::Number(2),
            Token::CloseParen,
            Token::BinaryOperator(BinaryOperator::Multiplication),
            Token::Number(3),
            Token::Eof
        ]
    );
}

#[test]
fn number_round_trip_in_range() {
    assert_eq!(
        tokenize("2147483647").expect("should be able to tokenize"),
        vec![Token::Number(2147483647), Token::Eof]
    );
    assert_eq!(
        tokenize("0042").expect("should be able to tokenize"),
        vec![Token::Number(42), Token::Eof]
    );
    assert_eq!(
        tokenize("0").expect("should be able to tokenize"),
        vec![Token::Number(0), Token::Eof]
    );
}

#[test]
fn number_overflow_fails_with_full_run() {
    let err = tokenize("2147483648").expect_err("should overflow a 32-bit signed integer");
    assert_eq!(err.offending, "2147483648".to_string());

    let err = tokenize("1 + 99999999999999999999").expect_err("should overflow");
    assert_eq!(err.offending, "99999999999999999999".to_string());
}

#[test]
fn keyword_match_is_case_sensitive() {
    assert_eq!(
        tokenize("Let").expect("should be able to tokenize"),
        vec![Token::Identifier("Let".to_string()), Token::Eof]
    );
}

#[test]
fn mixed_case_identifier_round_trips() {
    assert_eq!(
        tokenize("AbC").expect("should be able to tokenize"),
        vec![Token::Identifier("AbC".to_string()), Token::Eof]
    );
}

#[test]
fn keyword_run_ends_at_class_change() {
    assert_eq!(
        tokenize("let5").expect("should be able to tokenize"),
        vec![Token::Let, Token::Number(5), Token::Eof]
    );
    assert_eq!(
        tokenize("letx").expect("should be able to tokenize"),
        vec![Token::Identifier("letx".to_string()), Token::Eof]
    );
}

#[test]
fn tokenize_is_deterministic() {
    let ok_input = "let x = (1 + 2) * y";
    assert_eq!(tokenize(ok_input), tokenize(ok_input));

    let first = tokenize("@").expect_err("should fail");
    let second = tokenize("@").expect_err("should fail");
    assert_eq!(first, second);
}

#[test]
fn eof_is_last_and_unique() {
    let inputs = ["", "123", "1 + 1", "let x = 10", "(a) / (b)"];
    for input in inputs {
        let tokens = tokenize(input).expect("should be able to tokenize");
        assert!(!tokens.is_empty());
        assert_eq!(tokens[tokens.len() - 1], Token::Eof);
        for k in 0..tokens.len() - 1 {
            assert_ne!(tokens[k], Token::Eof);
        }
    }
}

#[test]
fn token_equality_is_by_variant_and_payload() {
    assert_eq!(Token::Number(7), Token::Number(7));
    assert_ne!(Token::Number(7), Token::Number(8));
    assert_eq!(
        Token::Identifier("ab".to_string()),
        Token::Identifier("ab".to_string())
    );
    assert_ne!(
        Token::Identifier("ab".to_string()),
        Token::Identifier("Ab".to_string())
    );
    assert_ne!(
        Token::BinaryOperator(BinaryOperator::Addition),
        Token::BinaryOperator(BinaryOperator::Division)
    );
    assert_eq!(Token::Let, Token::Let);
    assert_ne!(Token::Let, Token::Eof);
}
