//! The token alphabet of the expression engine and its error taxonomy.

use vstd::prelude::*;

verus! {

/// One symbol of a duration-arithmetic expression: a duration literal
/// (already converted to whole seconds), one of the five binary operators,
/// or a parenthesis.
#[derive(Clone, Copy, Debug, PartialEq, Eq, Structural)]
pub enum Token {
    Duration(u32),
    Plus,
    Minus,
    Times,
    Divide,
    Power,
    LeftParen,
    RightParen,
}

/// Why an evaluation was aborted. Every failure of the engine is one of
/// these; no partial result is ever produced alongside one.
#[derive(Clone, Copy, Debug, PartialEq, Eq, Structural)]
pub enum CalcError {
    /// A duration literal had a non-numeric or empty field, or more than
    /// three `:`-separated fields.
    ParseError,
    /// Parentheses do not nest or close correctly.
    UnbalancedParenError,
    /// Postfix evaluation ran out of operands, or more than one value was
    /// left at the end.
    EvaluationError,
    /// A subtraction would have produced a negative duration.
    NegativeDurationError,
    /// Division by zero.
    DivideByZeroError,
    /// An intermediate value exceeded the representable range.
    ArithmeticOverflowError,
}

/// The characters that end a pending duration literal in the tokenizer:
/// the five operators and the two parentheses.
pub open spec fn spec_is_operator_char(c: char) -> bool {
    c == '+' || c == '-' || c == '*' || c == '/' || c == '^' || c == '(' || c == ')'
}

/// The token standing for one operator or parenthesis character.
pub open spec fn spec_op_token(c: char) -> Token {
    if c == '+' {
        Token::Plus
    } else if c == '-' {
        Token::Minus
    } else if c == '*' {
        Token::Times
    } else if c == '/' {
        Token::Divide
    } else if c == '^' {
        Token::Power
    } else if c == '(' {
        Token::LeftParen
    } else {
        Token::RightParen
    }
}

/// True of the five binary operators, false of durations and parentheses.
pub open spec fn spec_is_binop(t: Token) -> bool {
    t == Token::Plus || t == Token::Minus || t == Token::Times || t == Token::Divide
        || t == Token::Power
}

/// Binding strength used by the shunting-yard conversion: `+ -` bind at 1,
/// `* /` at 2, `^` at 3; every non-operator token counts as 0.
pub open spec fn spec_priority(t: Token) -> u8 {
    match t {
        Token::Plus => 1,
        Token::Minus => 1,
        Token::Times => 2,
        Token::Divide => 2,
        Token::Power => 3,
        _ => 0,
    }
}

/// Whether `character` is one of the symbol characters `+ - * / ^ ( )`.
pub fn is_operator(character: char) -> (r: bool)
    ensures
        r == spec_is_operator_char(character),
{
    character == '+' || character == '-' || character == '*' || character == '/'
        || character == '^' || character == '(' || character == ')'
}

/// Binding strength of a token, as `spec_priority` gives it.
pub fn priority(x: &Token) -> (r: u8)
    ensures
        r == spec_priority(*x),
{
    match x {
        Token::Plus => 1,
        Token::Minus => 1,
        Token::Times => 2,
        Token::Divide => 2,
        Token::Power => 3,
        _ => 0,
    }
}

} // verus!
