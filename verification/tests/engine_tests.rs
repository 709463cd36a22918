use timecalc::converter::to_postfix;
use timecalc::engine::evaluate_expression;
use timecalc::evaluator::evaluate_postfix;
use timecalc::token::CalcError;
use timecalc::token::Token;
use timecalc::tokenizer::parse_symbols;

fn eval_seconds(input: &str) -> Result<u32, CalcError> {
    let infix = parse_symbols(input)?;
    let postfix = to_postfix(&infix)?;
    evaluate_postfix(&postfix)
}

#[test]
fn precedence_multiplication_binds_tighter() {
    assert_eq!(eval_seconds("1 + 2 * 3"), Ok(7));
    assert_ne!(eval_seconds("1 + 2 * 3"), Ok(9));
}

#[test]
fn subtraction_is_left_associative() {
    assert_eq!(eval_seconds("10 - 3 - 2"), Ok(5));
}

#[test]
fn parentheses_override_precedence() {
    assert_eq!(eval_seconds("(1 + 2) * 3"), Ok(9));
}

#[test]
fn unbalanced_parenthesis_is_reported() {
    let infix = parse_symbols("(1 + 2").unwrap();
    assert_eq!(to_postfix(&infix), Err(CalcError::UnbalancedParenError));
    assert_eq!(
        evaluate_expression("(1 + 2", false),
        Err(CalcError::UnbalancedParenError)
    );
    assert_eq!(
        evaluate_expression("1 + 2)", false),
        Err(CalcError::UnbalancedParenError)
    );
}

#[test]
fn empty_expression_yields_zero_time() {
    assert_eq!(evaluate_expression("", false), Ok(String::from("00:00:00")));
}

#[test]
fn end_to_end_clock_arithmetic() {
    let infix = parse_symbols("00:10 + 06:12 / 2").unwrap();
    assert_eq!(
        infix,
        vec![
            Token::Duration(10),
            Token::Plus,
            Token::Duration(372),
            Token::Divide,
            Token::Duration(2),
        ]
    );
    let postfix = to_postfix(&infix).unwrap();
    assert_eq!(
        postfix,
        vec![
            Token::Duration(10),
            Token::Duration(372),
            Token::Duration(2),
            Token::Divide,
            Token::Plus,
        ]
    );
    assert_eq!(evaluate_postfix(&postfix), Ok(196));
    assert_eq!(
        evaluate_expression("00:10 + 06:12 / 2", false),
        Ok(String::from("00:03:16"))
    );
}

#[test]
fn plus_chains_sum_regardless_of_parenthesisation() {
    assert_eq!(eval_seconds("1 + 2 + 3"), Ok(6));
    assert_eq!(eval_seconds("(1 + 2) + 3"), Ok(6));
    assert_eq!(eval_seconds("1 + (2 + 3)"), Ok(6));
    assert_eq!(eval_seconds("((1 + 2) + (3 + 4))"), Ok(10));
    let infix = parse_symbols("((1 + 2) + (3 + 4))").unwrap();
    let postfix = to_postfix(&infix).unwrap();
    for t in postfix {
        assert!(t != Token::LeftParen && t != Token::RightParen);
    }
}

#[test]
fn subtraction_below_zero_is_an_error() {
    assert_eq!(eval_seconds("1 - 2"), Err(CalcError::NegativeDurationError));
}

#[test]
fn division_by_zero_is_an_error() {
    assert_eq!(eval_seconds("1 / 0"), Err(CalcError::DivideByZeroError));
}

#[test]
fn multiplication_overflow_is_an_error() {
    assert_eq!(
        eval_seconds("100000 * 100000"),
        Err(CalcError::ArithmeticOverflowError)
    );
}

#[test]
fn missing_operand_is_an_error() {
    assert_eq!(eval_seconds("1 +"), Err(CalcError::EvaluationError));
}

#[test]
fn leftover_operand_is_an_error() {
    let postfix = vec![Token::Duration(1), Token::Duration(2)];
    assert_eq!(evaluate_postfix(&postfix), Err(CalcError::EvaluationError));
}

#[test]
fn division_is_floor_division() {
    assert_eq!(eval_seconds("7 / 2"), Ok(3));
    assert_eq!(eval_seconds("1 / 3"), Ok(0));
}

#[test]
fn exponentiation_and_its_left_associative_quirk() {
    assert_eq!(eval_seconds("2 ^ 3"), Ok(8));
    assert_eq!(eval_seconds("2 ^ 0"), Ok(1));
    assert_eq!(eval_seconds("0 ^ 0"), Ok(1));
    // `^` deliberately follows the same left-associative tie-break as the
    // other operators: 2 ^ 3 ^ 2 is (2 ^ 3) ^ 2, not 2 ^ (3 ^ 2).
    assert_eq!(eval_seconds("2 ^ 3 ^ 2"), Ok(64));
    assert_eq!(eval_seconds("2 ^ 32"), Err(CalcError::ArithmeticOverflowError));
}

#[test]
fn stray_characters_are_ignored() {
    assert_eq!(eval_seconds("1x + y2"), Ok(3));
    assert_eq!(eval_seconds(" 1 + 2 "), Ok(3));
}
